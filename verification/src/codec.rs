//! The byte format of a cached order-book snapshot.
//!
//! A snapshot is stored as fixed-width little-endian records: each side is
//! a count followed by 40-byte entries (16-byte mantissa and 4-byte scale,
//! for price then quantity). The format exists only to round-trip an
//! `OrderBook` through the cache store exactly; decoding accepts a byte
//! string exactly when it is the encoding of a well-formed snapshot, so a
//! corrupted cache value is reported, never misread.

use vstd::prelude::*;
use vstd::arithmetic::div_mod::{lemma_fundamental_div_mod, lemma_div_denominator};
use vstd::arithmetic::mul::lemma_mul_inequality;
use crate::decimal::{Decimal, MAX_SCALE};
use crate::error::ServiceError;
use crate::order_book::{OrderBook, OrderBookEntity, all_valid};

verus! {

/// `256^n`.
pub open spec fn pow256(n: nat) -> int
    decreases n,
{
    if n == 0 {
        1
    } else {
        256 * pow256((n - 1) as nat)
    }
}

proof fn lemma_pow256_pos(n: nat)
    ensures
        pow256(n) >= 1,
    decreases n,
{
    if n > 0 {
        lemma_pow256_pos((n - 1) as nat);
    }
}

proof fn lemma_pow256_increases(a: nat, b: nat)
    requires
        a <= b,
    ensures
        pow256(a) <= pow256(b),
    decreases b,
{
    if a < b {
        lemma_pow256_increases(a, (b - 1) as nat);
        lemma_pow256_pos((b - 1) as nat);
    }
}

/// The `n` little-endian base-256 digits of a nonnegative value.
pub open spec fn le_bytes(x: int, n: nat) -> Seq<u8>
    decreases n,
{
    if n == 0 {
        Seq::empty()
    } else {
        seq![(x % 256) as u8] + le_bytes(x / 256, (n - 1) as nat)
    }
}

/// The value a little-endian byte string denotes.
pub open spec fn from_le(s: Seq<u8>) -> int
    decreases s.len(),
{
    if s.len() == 0 {
        0
    } else {
        s[0] + 256 * from_le(s.drop_first())
    }
}

proof fn lemma_le_bytes_len(x: int, n: nat)
    ensures
        le_bytes(x, n).len() == n,
    decreases n,
{
    if n > 0 {
        lemma_le_bytes_len(x / 256, (n - 1) as nat);
    }
}

/// Reading back the digits of an in-range value yields the value.
proof fn lemma_from_le_of_le_bytes(x: int, n: nat)
    requires
        0 <= x < pow256(n),
    ensures
        from_le(le_bytes(x, n)) == x,
    decreases n,
{
    if n > 0 {
        let rest = le_bytes(x / 256, (n - 1) as nat);
        assert((seq![(x % 256) as u8] + rest).drop_first() =~= rest);
        assert(x / 256 < pow256((n - 1) as nat)) by {
            lemma_pow256_pos((n - 1) as nat);
            if x / 256 >= pow256((n - 1) as nat) {
                lemma_fundamental_div_mod(x, 256);
                lemma_mul_inequality(pow256((n - 1) as nat), x / 256, 256);
            }
        }
        lemma_from_le_of_le_bytes(x / 256, (n - 1) as nat);
        lemma_fundamental_div_mod(x, 256);
    }
}

/// Re-writing the value read from a byte string yields the byte string:
/// the format has no junk bits, so parsing is injective.
proof fn lemma_le_bytes_of_from_le(s: Seq<u8>)
    ensures
        0 <= from_le(s) < pow256(s.len()),
        le_bytes(from_le(s), s.len()) =~= s,
    decreases s.len(),
{
    if s.len() > 0 {
        lemma_le_bytes_of_from_le(s.drop_first());
        let x = from_le(s);
        assert(x == s[0] + 256 * from_le(s.drop_first()));
        assert(x / 256 == from_le(s.drop_first()) && x % 256 == s[0]) by {
            vstd::arithmetic::div_mod::lemma_fundamental_div_mod_converse(
                x,
                256,
                from_le(s.drop_first()),
                s[0] as int,
            );
        }
        assert(x < pow256(s.len())) by {
            lemma_mul_inequality(from_le(s.drop_first()), pow256((s.len() - 1) as nat) - 1, 256);
        }
        assert(le_bytes(x, s.len()).drop_first() =~= le_bytes(x / 256, (s.len() - 1) as nat));
    }
}

/// Splitting digit strings: the first `i` digits then the digits of the
/// shifted remainder.
proof fn lemma_le_bytes_split(x: int, i: nat, j: nat)
    requires
        x >= 0,
    ensures
        le_bytes(x, i + j) =~= le_bytes(x, i) + le_bytes(x / pow256(i), j),
    decreases i,
{
    if i == 0 {
        assert(x / 1 == x) by {
            lemma_fundamental_div_mod(x, 1);
        }
        assert(le_bytes(x, j) =~= le_bytes(x, 0) + le_bytes(x / pow256(0), j));
    } else {
        lemma_le_bytes_split(x / 256, (i - 1) as nat, j);
        assert((x / 256) / pow256((i - 1) as nat) == x / pow256(i)) by {
            lemma_pow256_pos((i - 1) as nat);
            lemma_div_denominator(x, 256, pow256((i - 1) as nat));
        }
        assert(le_bytes(x, i + j) =~= seq![(x % 256) as u8] + le_bytes(x / 256, (i + j - 1) as nat));
    }
}

/// The 20 bytes of one decimal: 16-byte mantissa (two's complement),
/// 4-byte scale.
pub open spec fn dec_bytes(d: Decimal) -> Seq<u8> {
    le_bytes(d.mantissa as u128 as int, 16) + le_bytes(d.scale as int, 4)
}

/// The 40 bytes of one entry: price then quantity.
pub open spec fn entity_bytes(e: OrderBookEntity) -> Seq<u8> {
    dec_bytes(e.price) + dec_bytes(e.qty)
}

/// One side of the book, entry after entry.
pub open spec fn entities_bytes(s: Seq<OrderBookEntity>) -> Seq<u8>
    decreases s.len(),
{
    if s.len() == 0 {
        Seq::empty()
    } else {
        entity_bytes(s[0]) + entities_bytes(s.drop_first())
    }
}

/// The full snapshot: ask count, asks, bid count, bids.
pub open spec fn spec_encode(asks: Seq<OrderBookEntity>, bids: Seq<OrderBookEntity>) -> Seq<u8> {
    le_bytes(asks.len() as int, 8) + entities_bytes(asks) + le_bytes(bids.len() as int, 8)
        + entities_bytes(bids)
}

proof fn lemma_entities_bytes_len(s: Seq<OrderBookEntity>)
    ensures
        entities_bytes(s).len() == 40 * s.len(),
    decreases s.len(),
{
    if s.len() > 0 {
        lemma_entities_bytes_len(s.drop_first());
        lemma_le_bytes_len(s[0].price.mantissa as u128 as int, 16);
        lemma_le_bytes_len(s[0].price.scale as int, 4);
        lemma_le_bytes_len(s[0].qty.mantissa as u128 as int, 16);
        lemma_le_bytes_len(s[0].qty.scale as int, 4);
    }
}

proof fn lemma_entities_bytes_push(s: Seq<OrderBookEntity>, e: OrderBookEntity)
    ensures
        entities_bytes(s.push(e)) =~= entities_bytes(s) + entity_bytes(e),
    decreases s.len(),
{
    if s.len() == 0 {
        assert(s.push(e)[0] == e);
        assert(s.push(e).drop_first() =~= Seq::<OrderBookEntity>::empty());
        assert(entities_bytes(s.push(e)) == entity_bytes(e) + entities_bytes(
            Seq::<OrderBookEntity>::empty(),
        ));
        assert(entities_bytes(Seq::<OrderBookEntity>::empty()) =~= Seq::<u8>::empty());
        assert(entities_bytes(s.push(e)) =~= entities_bytes(s) + entity_bytes(e));
    } else {
        assert(s.push(e).drop_first() =~= s.drop_first().push(e));
        lemma_entities_bytes_push(s.drop_first(), e);
        assert(s.push(e)[0] == s[0]);
        assert(entities_bytes(s.push(e)) == entity_bytes(s[0]) + entities_bytes(
            s.drop_first().push(e),
        ));
        assert(entities_bytes(s.push(e)) =~= entities_bytes(s) + entity_bytes(e));
    }
}

/// Two's-complement round trips between `i128` and `u128`.
proof fn lemma_cast_i128_u128(m: i128)
    ensures
        (m as u128) as i128 == m,
{
    assert((m as u128) as i128 == m) by (bit_vector);
}

proof fn lemma_cast_u128_i128(x: u128)
    ensures
        (x as i128) as u128 == x,
{
    assert((x as i128) as u128 == x) by (bit_vector);
}

/// Append the `n` little-endian digits of `x`.
fn push_le(out: &mut Vec<u8>, x: u128, n: usize)
    requires
        n <= 16,
    ensures
        final(out)@ == old(out)@ + le_bytes(x as int, n as nat),
{
    let mut cur: u128 = x;
    let mut i: usize = 0;
    proof {
        assert(out@ =~= out@ + le_bytes(x as int, 0));
        assert(x as int / pow256(0) == x as int) by {
            lemma_fundamental_div_mod(x as int, 1);
        }
    }
    while i < n
        invariant
            i <= n <= 16,
            out@ == old(out)@ + le_bytes(x as int, i as nat),
            cur as int == x as int / pow256(i as nat),
        decreases n - i,
    {
        let b: u8 = (cur % 256) as u8;
        out.push(b);
        proof {
            lemma_le_bytes_split(x as int, i as nat, 1);
            lemma_le_bytes_split(x as int, (i + 1) as nat, 0);
            lemma_le_bytes_len(x as int, i as nat);
            assert(le_bytes(x as int, (i + 1) as nat) =~= le_bytes(x as int, i as nat) + seq![
                ((x as int / pow256(i as nat)) % 256) as u8,
            ]) by {
                reveal_with_fuel(le_bytes, 2);
                assert(le_bytes(x as int / pow256(i as nat), 1) =~= seq![
                    ((x as int / pow256(i as nat)) % 256) as u8,
                ]);
            }
            assert(out@ =~= old(out)@ + le_bytes(x as int, (i + 1) as nat));
            lemma_pow256_pos(i as nat);
            lemma_div_denominator(x as int, pow256(i as nat), 256);
        }
        cur = cur / 256;
        i = i + 1;
    }
}

/// Append the 20 bytes of one decimal.
fn push_dec(out: &mut Vec<u8>, d: &Decimal)
    ensures
        final(out)@ == old(out)@ + dec_bytes(*d),
{
    proof {
        lemma_cast_i128_u128(d.mantissa);
    }
    let um: u128 = d.mantissa as u128;
    push_le(out, um, 16);
    push_le(out, d.scale as u128, 4);
    proof {
        assert(out@ =~= old(out)@ + dec_bytes(*d));
    }
}

/// Serialize a snapshot for the cache store.
pub fn encode_order_book(book: &OrderBook) -> (r: Vec<u8>)
    ensures
        r@ == spec_encode(book.asks@, book.bids@),
{
    let mut out: Vec<u8> = Vec::new();
    push_le(&mut out, book.asks.len() as u128, 8);
    push_side(&mut out, &book.asks);
    push_le(&mut out, book.bids.len() as u128, 8);
    push_side(&mut out, &book.bids);
    proof {
        assert(out@ =~= spec_encode(book.asks@, book.bids@));
    }
    out
}

fn push_side(out: &mut Vec<u8>, side: &Vec<OrderBookEntity>)
    ensures
        final(out)@ == old(out)@ + entities_bytes(side@),
{
    let mut i: usize = 0;
    proof {
        assert(out@ =~= out@ + entities_bytes(side@.take(0)));
    }
    while i < side.len()
        invariant
            i <= side@.len(),
            out@ == old(out)@ + entities_bytes(side@.take(i as int)),
        decreases side@.len() - i,
    {
        let e = &side[i];
        push_dec(out, &e.price);
        push_dec(out, &e.qty);
        proof {
            assert(side@.take(i + 1) =~= side@.take(i as int).push(side@[i as int]));
            lemma_entities_bytes_push(side@.take(i as int), side@[i as int]);
            assert(out@ =~= old(out)@ + entities_bytes(side@.take(i + 1)));
        }
        i = i + 1;
    }
    proof {
        assert(side@.take(side@.len() as int) =~= side@);
    }
}

/// Read the value of `n` little-endian bytes at `off`.
fn read_le(bytes: &Vec<u8>, off: usize, n: usize) -> (r: u128)
    requires
        n <= 16,
        off + n <= bytes@.len(),
    ensures
        r as int == from_le(bytes@.subrange(off as int, off + n)),
        (r as int) < pow256(n as nat),
{
    let len = bytes.len();
    let mut acc: u128 = 0;
    let mut i: usize = n;
    proof {
        assert(bytes@.subrange(off + n, off + n) =~= Seq::<u8>::empty());
        lemma_pow256_pos(0);
    }
    while i > 0
        invariant
            i <= n <= 16,
            off + n <= len,
            len == bytes@.len(),
            acc as int == from_le(bytes@.subrange(off + i, off + n)),
            (acc as int) < pow256((n - i) as nat),
        decreases i,
    {
        let b = bytes[off + i - 1];
        proof {
            let tail = bytes@.subrange(off + i, off + n);
            let whole = bytes@.subrange(off + i - 1, off + n);
            assert(whole.drop_first() =~= tail);
            assert(whole[0] == bytes@[off + i - 1]);
            assert(pow256(((n - i) + 1) as nat) == 256 * pow256((n - i) as nat));
            lemma_pow256_pos((n - i) as nat);
            lemma_pow256_increases(((n - i) + 1) as nat, 16);
            lemma_pow256_u128();
        }
        acc = acc * 256 + (b as u128);
        i = i - 1;
    }
    proof {
        lemma_le_bytes_of_from_le(bytes@.subrange(off as int, off + n));
    }
    acc
}

/// Read one decimal record; the scale is checked against the cap so only
/// well-formed decimals come back.
fn read_dec(bytes: &Vec<u8>, off: usize) -> (r: (Decimal, bool))
    requires
        off + 20 <= bytes@.len(),
    ensures
        dec_bytes(r.0) =~= bytes@.subrange(off as int, off + 20),
        r.1 == r.0.valid(),
{
    let len = bytes.len();
    proof {
        assert(off + 20 <= len);
    }
    let um = read_le(bytes, off, 16);
    let us = read_le(bytes, off + 16, 4);
    proof {
        assert(pow256(4) == 0x100000000) by {
            reveal_with_fuel(pow256, 5);
        }
        lemma_cast_u128_i128(um);
        lemma_le_bytes_of_from_le(bytes@.subrange(off as int, off + 16));
        lemma_le_bytes_of_from_le(bytes@.subrange(off + 16, off + 20));
        assert(bytes@.subrange(off as int, off + 20) =~= bytes@.subrange(off as int, off + 16)
            + bytes@.subrange(off + 16, off + 20));
    }
    let d = Decimal { mantissa: #[verifier::truncate] (um as i128), scale: us as u32 };
    let ok = d.scale <= MAX_SCALE;
    (d, ok)
}

/// Parse one side: `count` 40-byte entries starting at `off`.
fn read_side(bytes: &Vec<u8>, off: usize, count: usize) -> (r: (Vec<OrderBookEntity>, bool))
    requires
        off + 40 * count <= bytes@.len(),
    ensures
        r.0@.len() == count,
        entities_bytes(r.0@) =~= bytes@.subrange(off as int, off + 40 * count),
        r.1 == all_valid(r.0@),
{
    let len = bytes.len();
    let mut side: Vec<OrderBookEntity> = Vec::new();
    let mut ok = true;
    let mut j: usize = 0;
    proof {
        assert(entities_bytes(side@) =~= bytes@.subrange(off as int, off as int));
    }
    while j < count
        invariant
            j <= count,
            off + 40 * count <= len,
            len == bytes@.len(),
            side@.len() == j,
            entities_bytes(side@) =~= bytes@.subrange(off as int, off + 40 * j),
            ok == all_valid(side@),
        decreases count - j,
    {
        let base = off + 40 * j;
        let (price, pok) = read_dec(bytes, base);
        let (qty, qok) = read_dec(bytes, base + 20);
        let e = OrderBookEntity { price, qty };
        proof {
            let prev = side@;
            assert(entity_bytes(e) =~= bytes@.subrange(base as int, base + 40)) by {
                assert(bytes@.subrange(base as int, base + 40) =~= bytes@.subrange(
                    base as int,
                    base + 20,
                ) + bytes@.subrange(base + 20, base + 40));
            }
            lemma_entities_bytes_push(prev, e);
            assert(entities_bytes(prev.push(e)) =~= bytes@.subrange(off as int, base + 40)) by {
                assert(bytes@.subrange(off as int, base + 40) =~= bytes@.subrange(
                    off as int,
                    base as int,
                ) + bytes@.subrange(base as int, base + 40));
            }
        }
        let both = pok && qok;
        proof {
            assert(side@.push(e).drop_last() =~= side@);
        }
        side.push(e);
        ok = ok && both;
        proof {
            assert forall|t: int| ok && 0 <= t < side@.len() implies (
            #[trigger] side@[t]).valid() by {}
            if !ok {
                if !all_valid(side@.drop_last()) {
                    let t = choose|t: int|
                        0 <= t < side@.drop_last().len() && !(#[trigger] side@.drop_last()[t]).valid();
                    assert(!side@[t].valid());
                } else {
                    assert(!side@[side@.len() - 1].valid());
                }
            }
        }
        j = j + 1;
    }
    (side, ok)
}

/// Deserialize a cached snapshot. This accepts a byte string exactly when
/// it is the encoding of a well-formed snapshot: a present-but-corrupt
/// cache value comes back as an error, never as a guessed book and never
/// as a miss.
pub fn decode_order_book(bytes: &Vec<u8>) -> (r: Result<OrderBook, ServiceError>)
    ensures
        (r matches Ok(ob) ==> bytes@ == spec_encode(ob.asks@, ob.bids@) && all_valid(ob.asks@)
            && all_valid(ob.bids@) && ob.asks@.len() <= usize::MAX && ob.bids@.len()
            <= usize::MAX),
        forall|a: Seq<OrderBookEntity>, b: Seq<OrderBookEntity>|
            a.len() <= usize::MAX && b.len() <= usize::MAX && all_valid(a) && all_valid(b)
                && bytes@ == #[trigger] spec_encode(a, b) ==> (r matches Ok(ob) && ob.asks@ == a
                && ob.bids@ == b),
        r matches Err(e) ==> (e matches ServiceError::Internal(m) && m@
            == "corrupt cached order book"@),
{
    let n = bytes.len();
    if n < 16 {
        proof {
            lemma_encode_shape_contradiction(bytes@);
        }
        return Err(corrupt());
    }
    let na_w = read_le(bytes, 0, 8);
    proof {
        lemma_pow256_8_value();
    }
    let head = 16u128 + 40u128 * na_w;
    if (n as u128) < head || na_w > (usize::MAX as u128) {
        proof {
            lemma_encode_shape_contradiction(bytes@);
        }
        return Err(corrupt());
    }
    let na = na_w as usize;
    let (asks, asks_ok) = read_side(bytes, 8, na);
    let boff = 8 + 40 * na;
    let nb_w = read_le(bytes, boff, 8);
    if (n as u128) != head + 40u128 * nb_w {
        proof {
            lemma_encode_shape_contradiction(bytes@);
        }
        return Err(corrupt());
    }
    let nb = nb_w as usize;
    let (bids, bids_ok) = read_side(bytes, boff + 8, nb);
    proof {
        // The parsed pieces re-assemble the whole input byte for byte.
        lemma_le_bytes_of_from_le(bytes@.subrange(0, 8));
        lemma_le_bytes_of_from_le(bytes@.subrange(boff as int, boff + 8));
        lemma_entities_bytes_len(asks@);
        lemma_entities_bytes_len(bids@);
        assert(bytes@ =~= spec_encode(asks@, bids@));
    }
    if !(asks_ok && bids_ok) {
        proof {
            assert forall|a: Seq<OrderBookEntity>, b: Seq<OrderBookEntity>|
                a.len() <= usize::MAX && b.len() <= usize::MAX && all_valid(a) && all_valid(b)
                    && bytes@ == #[trigger] spec_encode(a, b) implies false by {
                lemma_encode_injective(asks@, bids@, a, b);
            }
        }
        return Err(corrupt());
    }
    proof {
        assert forall|a: Seq<OrderBookEntity>, b: Seq<OrderBookEntity>|
            a.len() <= usize::MAX && b.len() <= usize::MAX && all_valid(a) && all_valid(b)
                && bytes@ == #[trigger] spec_encode(a, b) implies asks@ == a && bids@ == b by {
            lemma_encode_injective(asks@, bids@, a, b);
        }
    }
    Ok(OrderBook { asks, bids })
}

fn corrupt() -> (r: ServiceError)
    ensures
        r matches ServiceError::Internal(m) && m@ == "corrupt cached order book"@,
{
    ServiceError::Internal(String::from_str("corrupt cached order book"))
}

/// No well-formed encoding can have a shape the parser just rejected:
/// its total length always equals `16 + 40 * (asks + bids)` with the two
/// counts written in its length fields.
proof fn lemma_encode_shape_contradiction(bytes: Seq<u8>)
    ensures
        forall|a: Seq<OrderBookEntity>, b: Seq<OrderBookEntity>|
            a.len() <= usize::MAX && b.len() <= usize::MAX && bytes == #[trigger] spec_encode(a, b)
                ==> bytes.len() == 16 + 40 * a.len() + 40 * b.len() && from_le(
                bytes.subrange(0, 8),
            ) == a.len() && from_le(
                bytes.subrange(8 + 40 * (a.len() as int), 16 + 40 * (a.len() as int)),
            ) == b.len(),
{
    assert forall|a: Seq<OrderBookEntity>, b: Seq<OrderBookEntity>|
        a.len() <= usize::MAX && b.len() <= usize::MAX && bytes == #[trigger] spec_encode(
            a,
            b,
        ) implies bytes.len() == 16 + 40 * a.len() + 40 * b.len() && from_le(bytes.subrange(0, 8))
        == a.len() && from_le(bytes.subrange(8 + 40 * (a.len() as int), 16 + 40 * (a.len() as int))) == b.len() by {
        lemma_le_bytes_len(a.len() as int, 8);
        lemma_le_bytes_len(b.len() as int, 8);
        lemma_entities_bytes_len(a);
        lemma_entities_bytes_len(b);
        lemma_usize_lt_pow256_8();
        lemma_from_le_of_le_bytes(a.len() as int, 8);
        lemma_from_le_of_le_bytes(b.len() as int, 8);
        assert(bytes.subrange(0, 8) =~= le_bytes(a.len() as int, 8));
        assert(bytes.subrange(8 + 40 * (a.len() as int), 16 + 40 * (a.len() as int)) =~= le_bytes(
            b.len() as int,
            8,
        ));
    }
}

proof fn lemma_usize_lt_pow256_8()
    ensures
        usize::MAX < pow256(8),
{
    lemma_pow256_8_value();
}

proof fn lemma_pow256_8_value()
    ensures
        pow256(8) == 0x10000000000000000,
{
    reveal_with_fuel(pow256, 9);
}

/// The encoding is injective: equal byte strings come from equal
/// snapshots (lengths bounded by memory).
proof fn lemma_encode_injective(
    a1: Seq<OrderBookEntity>,
    b1: Seq<OrderBookEntity>,
    a2: Seq<OrderBookEntity>,
    b2: Seq<OrderBookEntity>,
)
    requires
        a1.len() <= usize::MAX,
        b1.len() <= usize::MAX,
        a2.len() <= usize::MAX,
        b2.len() <= usize::MAX,
        spec_encode(a1, b1) == spec_encode(a2, b2),
    ensures
        a1 =~= a2,
        b1 =~= b2,
{
    let bytes = spec_encode(a1, b1);
    lemma_encode_shape_contradiction(bytes);
    assert(a1.len() == a2.len() && b1.len() == b2.len());
    lemma_le_bytes_len(a1.len() as int, 8);
    lemma_le_bytes_len(b1.len() as int, 8);
    lemma_entities_bytes_len(a1);
    lemma_entities_bytes_len(b1);
    lemma_entities_bytes_len(a2);
    lemma_entities_bytes_len(b2);
    assert(entities_bytes(a1) =~= bytes.subrange(8, 8 + 40 * (a1.len() as int)));
    assert(entities_bytes(a2) =~= bytes.subrange(8, 8 + 40 * (a1.len() as int)));
    assert(entities_bytes(b1) =~= bytes.subrange(16 + 40 * (a1.len() as int), 16 + 40 * (a1.len() as int) + 40 * (b1.len() as int)));
    assert(entities_bytes(b2) =~= bytes.subrange(16 + 40 * (a1.len() as int), 16 + 40 * (a1.len() as int) + 40 * (b1.len() as int)));
    lemma_entities_bytes_injective(a1, a2);
    lemma_entities_bytes_injective(b1, b2);
}

proof fn lemma_entities_bytes_injective(s1: Seq<OrderBookEntity>, s2: Seq<OrderBookEntity>)
    requires
        s1.len() == s2.len(),
        entities_bytes(s1) == entities_bytes(s2),
    ensures
        s1 =~= s2,
    decreases s1.len(),
{
    if s1.len() > 0 {
        lemma_entities_bytes_len(s1.drop_first());
        lemma_entities_bytes_len(s2.drop_first());
        let e1 = s1[0];
        let e2 = s2[0];
        assert(entity_bytes(e1) =~= entities_bytes(s1).subrange(0, 40)) by {
            lemma_entity_bytes_len(e1);
        }
        assert(entity_bytes(e2) =~= entities_bytes(s2).subrange(0, 40)) by {
            lemma_entity_bytes_len(e2);
        }
        lemma_entity_bytes_injective(e1, e2);
        assert(entities_bytes(s1.drop_first()) =~= entities_bytes(s1).subrange(
            40,
            entities_bytes(s1).len() as int,
        )) by {
            lemma_entity_bytes_len(e1);
        }
        assert(entities_bytes(s2.drop_first()) =~= entities_bytes(s2).subrange(
            40,
            entities_bytes(s2).len() as int,
        )) by {
            lemma_entity_bytes_len(e2);
        }
        lemma_entities_bytes_injective(s1.drop_first(), s2.drop_first());
        assert forall|i: int| 0 <= i < s1.len() implies s1[i] == s2[i] by {
            if i > 0 {
                assert(s1.drop_first()[i - 1] == s2.drop_first()[i - 1]);
            }
        }
    }
}

proof fn lemma_entity_bytes_len(e: OrderBookEntity)
    ensures
        entity_bytes(e).len() == 40,
        dec_bytes(e.price).len() == 20,
        dec_bytes(e.qty).len() == 20,
{
    lemma_le_bytes_len(e.price.mantissa as u128 as int, 16);
    lemma_le_bytes_len(e.price.scale as int, 4);
    lemma_le_bytes_len(e.qty.mantissa as u128 as int, 16);
    lemma_le_bytes_len(e.qty.scale as int, 4);
}

proof fn lemma_entity_bytes_injective(e1: OrderBookEntity, e2: OrderBookEntity)
    requires
        entity_bytes(e1) == entity_bytes(e2),
    ensures
        e1 == e2,
{
    lemma_entity_bytes_len(e1);
    lemma_entity_bytes_len(e2);
    assert(dec_bytes(e1.price) =~= entity_bytes(e1).subrange(0, 20));
    assert(dec_bytes(e2.price) =~= entity_bytes(e2).subrange(0, 20));
    assert(dec_bytes(e1.qty) =~= entity_bytes(e1).subrange(20, 40));
    assert(dec_bytes(e2.qty) =~= entity_bytes(e2).subrange(20, 40));
    lemma_dec_bytes_injective(e1.price, e2.price);
    lemma_dec_bytes_injective(e1.qty, e2.qty);
}

proof fn lemma_dec_bytes_injective(d1: Decimal, d2: Decimal)
    requires
        dec_bytes(d1) == dec_bytes(d2),
    ensures
        d1 == d2,
{
    lemma_le_bytes_len(d1.mantissa as u128 as int, 16);
    lemma_le_bytes_len(d2.mantissa as u128 as int, 16);
    lemma_le_bytes_len(d1.scale as int, 4);
    lemma_le_bytes_len(d2.scale as int, 4);
    assert(le_bytes(d1.mantissa as u128 as int, 16) =~= dec_bytes(d1).subrange(0, 16));
    assert(le_bytes(d2.mantissa as u128 as int, 16) =~= dec_bytes(d2).subrange(0, 16));
    assert(le_bytes(d1.scale as int, 4) =~= dec_bytes(d1).subrange(16, 20));
    assert(le_bytes(d2.scale as int, 4) =~= dec_bytes(d2).subrange(16, 20));
    lemma_pow256_u128();
    assert(pow256(4) == 0x100000000) by {
        reveal_with_fuel(pow256, 5);
    }
    lemma_from_le_of_le_bytes(d1.mantissa as u128 as int, 16);
    lemma_from_le_of_le_bytes(d2.mantissa as u128 as int, 16);
    lemma_from_le_of_le_bytes(d1.scale as int, 4);
    lemma_from_le_of_le_bytes(d2.scale as int, 4);
    lemma_cast_i128_u128(d1.mantissa);
    lemma_cast_i128_u128(d2.mantissa);
}

proof fn lemma_pow256_u128()
    ensures
        pow256(16) == 0x100000000000000000000000000000000,
{
    reveal_with_fuel(pow256, 17);
}

/// Cache round trip, write half: a snapshot's encoding determines the
/// snapshot — no other (memory-sized) snapshot shares its byte string.
/// Together with `decode_order_book`'s contract, which returns exactly
/// the snapshot behind any well-formed encoding, a book written to the
/// cache and read back within the time-to-live window comes back equal.
pub proof fn lemma_codec_round_trip(asks: Seq<OrderBookEntity>, bids: Seq<OrderBookEntity>)
    requires
        asks.len() <= usize::MAX,
        bids.len() <= usize::MAX,
        all_valid(asks),
        all_valid(bids),
    ensures
        forall|a: Seq<OrderBookEntity>, b: Seq<OrderBookEntity>|
            spec_encode(asks, bids) == #[trigger] spec_encode(a, b) && a.len() <= usize::MAX
                && b.len() <= usize::MAX ==> a == asks && b == bids,
{
    assert forall|a: Seq<OrderBookEntity>, b: Seq<OrderBookEntity>|
        spec_encode(asks, bids) == #[trigger] spec_encode(a, b) && a.len() <= usize::MAX && b.len()
            <= usize::MAX implies a == asks && b == bids by {
        lemma_encode_injective(asks, bids, a, b);
    }
}

} // verus!
