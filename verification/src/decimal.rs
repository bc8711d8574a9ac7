//! Exact decimal numbers for prices and quantities.
//!
//! A `Decimal` is a signed integer mantissa together with a power-of-ten
//! scale, so every value is `mantissa / 10^scale`. Prices and quantities are
//! financial data: comparisons, truncation and border arithmetic must be
//! exact, so all operations here work on the mantissa and scale directly and
//! never pass through binary floating point.

use vstd::prelude::*;
use vstd::arithmetic::mul::*;

verus! {

/// Largest scale a `Decimal` may carry (number of fractional digits).
pub const MAX_SCALE: u32 = 28;

/// `10^e` as a mathematical integer.
pub open spec fn pow10(e: nat) -> int
    decreases e,
{
    if e == 0 {
        1
    } else {
        10 * pow10((e - 1) as nat)
    }
}

pub broadcast proof fn lemma_pow10_pos(e: nat)
    ensures
        #[trigger] pow10(e) >= 1,
    decreases e,
{
    if e > 0 {
        lemma_pow10_pos((e - 1) as nat);
    }
}

pub proof fn lemma_pow10_add(a: nat, b: nat)
    ensures
        pow10(a + b) == pow10(a) * pow10(b),
    decreases a,
{
    if a == 0 {
    } else {
        lemma_pow10_add((a - 1) as nat, b);
        assert(pow10((a - 1) as nat + b) == pow10((a - 1) as nat) * pow10(b));
        lemma_mul_is_associative(10, pow10((a - 1) as nat), pow10(b));
    }
}

pub proof fn lemma_pow10_increases(a: nat, b: nat)
    requires
        a <= b,
    ensures
        pow10(a) <= pow10(b),
{
    lemma_pow10_add(a, (b - a) as nat);
    lemma_pow10_pos(a);
    lemma_pow10_pos((b - a) as nat);
    lemma_mul_left_inequality(pow10(a), 1, pow10((b - a) as nat));
}

/// `10^28` does not exceed `i128::MAX`, so rescaling within `MAX_SCALE`
/// digits stays representable.
pub proof fn lemma_pow10_28_bound()
    ensures
        pow10(28) == 10000000000000000000000000000int,
{
    reveal_with_fuel(pow10, 29);
}

/// `10^e` computed at run time; sound for every scale difference that can
/// occur between two valid decimals.
pub fn pow10_i128(e: u32) -> (r: i128)
    requires
        e <= 28,
    ensures
        r == pow10(e as nat),
        r >= 1,
{
    proof {
        lemma_pow10_pos(e as nat);
    }
    let mut r: i128 = 1;
    let mut i: u32 = 0;
    while i < e
        invariant
            i <= e <= 28,
            r == pow10(i as nat),
        decreases e - i,
    {
        proof {
            assert(pow10((i + 1) as nat) == 10 * pow10(i as nat));
            lemma_pow10_increases((i + 1) as nat, 28);
            lemma_pow10_28_bound();
            lemma_pow10_pos(i as nat);
        }
        r = r * 10;
        i = i + 1;
    }
    r
}

/// An exact decimal number: `mantissa / 10^scale`.
#[derive(Debug, Clone, Copy, PartialEq, Eq, Structural)]
pub struct Decimal {
    pub mantissa: i128,
    pub scale: u32,
}

impl Decimal {
    /// Every decimal handled by the library keeps its scale within range.
    pub open spec fn valid(self) -> bool {
        self.scale <= MAX_SCALE
    }

    /// The value in fixed units of `10^-28`: two decimals denote the same
    /// number exactly when their `units` agree, and compare as their
    /// `units` compare.
    pub open spec fn units(self) -> int {
        self.mantissa * pow10((MAX_SCALE - self.scale) as nat)
    }

    /// Value equality (`2.50` equals `2.5` even though the pairs differ).
    pub open spec fn same_value(self, other: Decimal) -> bool {
        self.units() == other.units()
    }

    /// Builds a decimal, refusing an out-of-range scale.
    pub fn new(mantissa: i128, scale: u32) -> (r: Option<Decimal>)
        ensures
            match r {
                Some(d) => d.mantissa == mantissa && d.scale == scale && d.valid(),
                None => scale > MAX_SCALE,
            },
    {
        if scale <= MAX_SCALE {
            Some(Decimal { mantissa, scale })
        } else {
            None
        }
    }

    /// A whole number as a decimal.
    pub fn from_int(v: i64) -> (r: Decimal)
        ensures
            r.mantissa == v as int,
            r.scale == 0,
            r.valid(),
    {
        Decimal { mantissa: v as i128, scale: 0 }
    }

    /// Exact `self <= other`.
    pub fn le(&self, other: &Decimal) -> (r: bool)
        requires
            self.valid(),
            other.valid(),
        ensures
            r == (self.units() <= other.units()),
    {
        if self.scale <= other.scale {
            let f = pow10_i128(other.scale - self.scale);
            match self.mantissa.checked_mul(f) {
                Some(m) => {
                    proof {
                        lemma_align_compare(*self, *other, m as int);
                    }
                    m <= other.mantissa
                },
                None => {
                    proof {
                        lemma_align_overflow(*self, *other);
                    }
                    self.mantissa < 0
                },
            }
        } else {
            let f = pow10_i128(self.scale - other.scale);
            match other.mantissa.checked_mul(f) {
                Some(m) => {
                    proof {
                        lemma_align_compare(*other, *self, m as int);
                    }
                    self.mantissa <= m
                },
                None => {
                    proof {
                        lemma_align_overflow(*other, *self);
                    }
                    other.mantissa > 0
                },
            }
        }
    }

    /// Exact `self >= other`.
    pub fn ge(&self, other: &Decimal) -> (r: bool)
        requires
            self.valid(),
            other.valid(),
        ensures
            r == (self.units() >= other.units()),
    {
        other.le(self)
    }

    /// Exact value equality.
    pub fn eq_value(&self, other: &Decimal) -> (r: bool)
        requires
            self.valid(),
            other.valid(),
        ensures
            r == self.same_value(*other),
    {
        self.le(other) && other.le(self)
    }
}

/// The exact sum of two decimals at their finer scale, or `None` when a
/// scale is out of range or the exact sum does not fit an `i128`
/// mantissa.
pub open spec fn spec_checked_add(a: Decimal, b: Decimal) -> Option<Decimal> {
    if !a.valid() || !b.valid() {
        None
    } else {
        let s = if a.scale >= b.scale {
            a.scale
        } else {
            b.scale
        };
        let am = a.mantissa * pow10((s - a.scale) as nat);
        let bm = b.mantissa * pow10((s - b.scale) as nat);
        if i128::MIN <= am <= i128::MAX && i128::MIN <= bm <= i128::MAX && i128::MIN <= am + bm
            <= i128::MAX {
            Some(Decimal { mantissa: (am + bm) as i128, scale: s })
        } else {
            None
        }
    }
}

impl Decimal {
    /// Exact addition: the sum at the finer of the two scales, `None` on
    /// overflow.
    pub fn checked_add_dec(&self, other: &Decimal) -> (r: Option<Decimal>)
        ensures
            r == spec_checked_add(*self, *other),
            r matches Some(v) ==> v.units() == self.units() + other.units() && v.valid(),
    {
        if !(self.scale <= MAX_SCALE) || !(other.scale <= MAX_SCALE) {
            return None;
        }
        let s = if self.scale >= other.scale {
            self.scale
        } else {
            other.scale
        };
        let fa = pow10_i128(s - self.scale);
        let fb = pow10_i128(s - other.scale);
        let am = match self.mantissa.checked_mul(fa) {
            Some(m) => m,
            None => {
                return None;
            },
        };
        let bm = match other.mantissa.checked_mul(fb) {
            Some(m) => m,
            None => {
                return None;
            },
        };
        let m = match am.checked_add(bm) {
            Some(m) => m,
            None => {
                return None;
            },
        };
        let v = Decimal { mantissa: m, scale: s };
        proof {
            let rest = (MAX_SCALE - s) as nat;
            lemma_align_units_at(*self, s, am as int);
            lemma_align_units_at(*other, s, bm as int);
            lemma_mul_is_distributive_add_other_way(pow10(rest), am as int, bm as int);
        }
        Some(v)
    }
}

/// A defined sum counts the two values exactly.
pub proof fn lemma_checked_add_units(a: Decimal, b: Decimal)
    ensures
        spec_checked_add(a, b) matches Some(v) ==> v.units() == a.units() + b.units() && v.valid(),
{
    if spec_checked_add(a, b) matches Some(v) {
        let s = if a.scale >= b.scale {
            a.scale
        } else {
            b.scale
        };
        let am = a.mantissa * pow10((s - a.scale) as nat);
        let bm = b.mantissa * pow10((s - b.scale) as nat);
        let rest = (MAX_SCALE - s) as nat;
        lemma_align_units_at(a, s, am);
        lemma_align_units_at(b, s, bm);
        lemma_mul_is_distributive_add_other_way(pow10(rest), am, bm);
    }
}

/// Rescaling a mantissa to a coarser-indexed scale keeps the unit value.
proof fn lemma_align_units_at(a: Decimal, s: u32, m: int)
    requires
        a.valid(),
        a.scale <= s <= MAX_SCALE,
        m == a.mantissa * pow10((s - a.scale) as nat),
    ensures
        m * pow10((MAX_SCALE - s) as nat) == a.units(),
{
    let ds = (s - a.scale) as nat;
    let rest = (MAX_SCALE - s) as nat;
    lemma_pow10_add(ds, rest);
    lemma_mul_is_associative(a.mantissa as int, pow10(ds), pow10(rest));
}

/// Integer division truncating toward zero, for a positive divisor; this is
/// how decimal digits are cut off, matching hardware `/` on signed values.
pub open spec fn div_trunc(m: int, f: int) -> int {
    if m >= 0 {
        m / f
    } else {
        -((-m) / f)
    }
}

impl Decimal {
    /// The value with all fractional digits beyond `target` cut off
    /// (truncated toward zero, never rounded). A value already at or below
    /// `target` digits is untouched.
    pub open spec fn spec_trunc(self, target: u32) -> Decimal {
        if self.scale <= target {
            self
        } else {
            Decimal {
                mantissa: div_trunc(
                    self.mantissa as int,
                    pow10((self.scale - target) as nat),
                ) as i128,
                scale: target,
            }
        }
    }

    /// The same value with trailing zeros of the representation removed:
    /// the unique form whose mantissa is not divisible by ten (or whose
    /// scale is zero).
    pub open spec fn spec_normalize(self) -> Decimal
        decreases self.scale,
    {
        if self.scale == 0 || self.mantissa % 10 != 0 {
            self
        } else {
            (Decimal {
                mantissa: (self.mantissa / 10) as i128,
                scale: (self.scale - 1) as u32,
            }).spec_normalize()
        }
    }

    /// Truncate to at most `target` fractional digits.
    pub fn trunc_with_scale(&self, target: u32) -> (r: Decimal)
        requires
            self.valid(),
        ensures
            r == self.spec_trunc(target),
            r.valid(),
            r.scale <= self.scale || r == *self,
    {
        if self.scale <= target {
            *self
        } else {
            let f = pow10_i128(self.scale - target);
            match self.mantissa.checked_div(f) {
                Some(q) => {
                    proof {
                        lemma_div_trunc_in_range(self.mantissa as int, f as int);
                    }
                    Decimal { mantissa: q, scale: target }
                },
                None => {
                    proof {
                        lemma_div_trunc_in_range(self.mantissa as int, f as int);
                        assert(false);
                    }
                    *self
                },
            }
        }
    }

    /// Strip trailing zeros: `220.00` becomes `220`, value unchanged.
    pub fn normalize(&self) -> (r: Decimal)
        requires
            self.valid(),
        ensures
            r == self.spec_normalize(),
            r.valid(),
    {
        let mut m: i128 = self.mantissa;
        let mut s: u32 = self.scale;
        let mut done: bool = false;
        while !done && s > 0
            invariant
                s <= MAX_SCALE,
                (Decimal { mantissa: m, scale: s }).spec_normalize() == self.spec_normalize(),
                done ==> m % 10 != 0,
            decreases s + (if done { 0int } else { 1int }),
        {
            let rem = match m.checked_rem(10) {
                Some(rem) => rem,
                None => {
                    proof {
                        assert(false);
                    }
                    0
                },
            };
            if rem != 0 {
                proof {
                    lemma_div_rem_by_ten(m as int);
                }
                done = true;
            } else {
                proof {
                    lemma_div_rem_by_ten(m as int);
                }
                let q = match m.checked_div(10) {
                    Some(q) => q,
                    None => {
                        proof {
                            assert(false);
                        }
                        0
                    },
                };
                m = q;
                s = s - 1;
            }
        }
        Decimal { mantissa: m, scale: s }
    }
}

/// Truncating division by a positive divisor never grows the magnitude, so
/// the quotient stays representable.
proof fn lemma_div_trunc_in_range(m: int, f: int)
    requires
        f >= 1,
        i128::MIN <= m <= i128::MAX,
    ensures
        i128::MIN <= div_trunc(m, f) <= i128::MAX,
        m > 0 && f > 0 ==> div_trunc(m, f) == m / f,
        m == 0 ==> div_trunc(m, f) == 0,
        m < 0 ==> div_trunc(m, f) == ((m * -1) / f) * -1,
{
    if m >= 0 {
        vstd::arithmetic::div_mod::lemma_div_nonincreasing(m, f);
        vstd::arithmetic::div_mod::lemma_div_pos_is_pos(m, f);
    } else {
        vstd::arithmetic::div_mod::lemma_div_nonincreasing(-m, f);
        vstd::arithmetic::div_mod::lemma_div_pos_is_pos(-m, f);
    }
}

/// Connects the run-time (truncating) remainder and quotient by ten to the
/// mathematical (Euclidean) ones, for either sign of `m`: the remainders
/// vanish together, and on a multiple of ten the quotients agree.
proof fn lemma_div_rem_by_ten(m: int)
    requires
        i128::MIN <= m <= i128::MAX,
    ensures
        m < 0 ==> ((((m * -1) % 10) * -1 == 0) <==> (m % 10 == 0)),
        m % 10 == 0 && m < 0 ==> ((m * -1) / 10) * -1 == m / 10,
        m % 10 == 0 ==> i128::MIN <= m / 10 <= i128::MAX,
{
    let q = m / 10;
    let r = m % 10;
    vstd::arithmetic::div_mod::lemma_fundamental_div_mod(m, 10);
    assert(m == 10 * q + r);
    assert(0 <= r < 10);
    if m < 0 {
        if r == 0 {
            // -m == 10 * (-q), so division and remainder are exact.
            assert(-m == 10 * (-q)) by {
                vstd::arithmetic::mul::lemma_mul_unary_negation(10, q);
            }
            vstd::arithmetic::div_mod::lemma_fundamental_div_mod_converse(-m, 10, -q, 0);
        } else {
            // -m == 10 * (-q - 1) + (10 - r) with 0 < 10 - r < 10.
            assert(-m == 10 * (-q - 1) + (10 - r)) by {
                vstd::arithmetic::mul::lemma_mul_is_distributive_sub(10, -q, 1);
                vstd::arithmetic::mul::lemma_mul_unary_negation(10, q);
            }
            vstd::arithmetic::div_mod::lemma_fundamental_div_mod_converse(-m, 10, -q - 1, 10 - r);
        }
    }
    if r == 0 {
        vstd::arithmetic::div_mod::lemma_div_nonincreasing(if m >= 0 {
            m
        } else {
            -m
        }, 10);
        if m < 0 {
            vstd::arithmetic::div_mod::lemma_div_pos_is_pos(-m, 10);
        } else {
            vstd::arithmetic::div_mod::lemma_div_pos_is_pos(m, 10);
        }
    }
}

/// Rescaling `a` to `b`'s (coarser-indexed) scale keeps its unit value:
/// `a.mantissa * 10^(b.scale - a.scale)` counts the same units as `a`.
proof fn lemma_align_units(a: Decimal, b: Decimal)
    requires
        a.valid(),
        b.valid(),
        a.scale <= b.scale,
    ensures
        forall|m: int|
            m == a.mantissa * pow10((b.scale - a.scale) as nat)
                ==> #[trigger] (m * pow10((MAX_SCALE - b.scale) as nat)) == a.units(),
{
    let ds = (b.scale - a.scale) as nat;
    let rest = (MAX_SCALE - b.scale) as nat;
    lemma_pow10_add(ds, rest);
    assert forall|m: int|
        m == a.mantissa * pow10(ds) implies #[trigger] (m * pow10(rest)) == a.units() by {
        lemma_mul_is_associative(a.mantissa as int, pow10(ds), pow10(rest));
    }
}

/// Once `a`'s mantissa is rescaled to `b`'s scale, the two mantissas
/// compare exactly as the values do.
proof fn lemma_align_compare(a: Decimal, b: Decimal, m: int)
    requires
        a.valid(),
        b.valid(),
        a.scale <= b.scale,
        m == a.mantissa * pow10((b.scale - a.scale) as nat),
    ensures
        (m <= b.mantissa) == (a.units() <= b.units()),
        (b.mantissa <= m) == (b.units() <= a.units()),
{
    let rest = (MAX_SCALE - b.scale) as nat;
    lemma_align_units(a, b);
    lemma_pow10_pos(rest);
    assert(m * pow10(rest) == a.units());
    assert(b.mantissa * pow10(rest) == b.units());
    if m <= b.mantissa {
        lemma_mul_inequality(m, b.mantissa as int, pow10(rest));
    } else {
        lemma_mul_strict_inequality(b.mantissa as int, m, pow10(rest));
    }
    if b.mantissa <= m {
        lemma_mul_inequality(b.mantissa as int, m, pow10(rest));
    } else {
        lemma_mul_strict_inequality(m, b.mantissa as int, pow10(rest));
    }
}

/// When rescaling `a` up to `b`'s scale overflows `i128`, the sign of `a`
/// already decides every comparison against `b`.
proof fn lemma_align_overflow(a: Decimal, b: Decimal)
    requires
        a.valid(),
        b.valid(),
        a.scale <= b.scale,
        a.mantissa * pow10((b.scale - a.scale) as nat) > i128::MAX
            || a.mantissa * pow10((b.scale - a.scale) as nat) < i128::MIN,
    ensures
        a.mantissa < 0 ==> a.units() < b.units(),
        a.mantissa > 0 ==> a.units() > b.units(),
        a.mantissa != 0,
{
    let ds = (b.scale - a.scale) as nat;
    let rest = (MAX_SCALE - b.scale) as nat;
    let m = a.mantissa * pow10(ds);
    lemma_pow10_pos(ds);
    lemma_pow10_pos(rest);
    if a.mantissa == 0 {
        assert(m == 0);
    } else if a.mantissa < 0 {
        lemma_mul_strictly_positive(-a.mantissa as int, pow10(ds));
        lemma_mul_unary_negation(a.mantissa as int, pow10(ds));
        assert(m < 0);
        assert(m < i128::MIN <= b.mantissa);
        lemma_align_units(a, b);
        assert(m * pow10(rest) == a.units());
        lemma_mul_strict_inequality(m, b.mantissa as int, pow10(rest));
        assert(b.mantissa * pow10(rest) == b.units());
    } else {
        lemma_mul_strictly_positive(a.mantissa as int, pow10(ds));
        assert(m > 0);
        assert(m > i128::MAX >= b.mantissa);
        lemma_align_units(a, b);
        lemma_mul_strict_inequality(b.mantissa as int, m, pow10(rest));
        assert(b.mantissa * pow10(rest) == b.units());
    }
}

} // verus!
