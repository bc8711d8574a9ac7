//! The depth filter engine: border price, boundary-inclusive trim, and
//! stable rank-and-bound of order-book entries.

use vstd::prelude::*;
use vstd::arithmetic::mul::*;
use crate::decimal::{Decimal, pow10, pow10_i128, lemma_pow10_add, lemma_pow10_pos, MAX_SCALE};

verus! {

/// At most this many entries per side survive rank-and-bound.
pub const TOP_LIMITS: usize = 10;

/// One price level of an order book.
#[derive(Debug, Clone, Copy, PartialEq, Eq, Structural)]
pub struct OrderBookEntity {
    pub price: Decimal,
    pub qty: Decimal,
}

/// A raw order book as received from the exchange: entries come in no
/// guaranteed order and prices may repeat.
#[derive(Debug, Clone, PartialEq)]
pub struct OrderBook {
    pub asks: Vec<OrderBookEntity>,
    pub bids: Vec<OrderBookEntity>,
}

/// Which side of the book an operation works on.
#[derive(Debug, Clone, Copy)]
pub enum OrderType {
    Ask,
    Bid,
}

impl OrderBookEntity {
    /// Both components carry an in-range scale.
    pub open spec fn valid(self) -> bool {
        self.price.valid() && self.qty.valid()
    }
}

pub open spec fn all_valid(s: Seq<OrderBookEntity>) -> bool {
    forall|i: int| 0 <= i < s.len() ==> (#[trigger] s[i]).valid()
}

/// The border computation `last_price * (1 +/- depth/100)` stays within
/// `i128` mantissas and the scale cap.
pub open spec fn border_fits(last_price: Decimal, depth: Decimal) -> bool {
    &&& last_price.valid()
    &&& depth.valid()
    &&& last_price.scale + depth.scale + 2 <= MAX_SCALE
    &&& fits_i128(pow10((depth.scale + 2) as nat) + depth.mantissa)
    &&& fits_i128(pow10((depth.scale + 2) as nat) - depth.mantissa)
    &&& fits_i128(last_price.mantissa * (pow10((depth.scale + 2) as nat) + depth.mantissa))
    &&& fits_i128(last_price.mantissa * (pow10((depth.scale + 2) as nat) - depth.mantissa))
}

pub open spec fn fits_i128(x: int) -> bool {
    i128::MIN <= x <= i128::MAX
}

/// The exact ask border, `last_price * (1 + depth/100)`, as mantissa and
/// scale: the fraction `depth/100` only deepens the scale by two digits,
/// so no rounding happens anywhere.
pub open spec fn spec_ask_border(last_price: Decimal, depth: Decimal) -> Decimal {
    Decimal {
        mantissa: (last_price.mantissa * (pow10((depth.scale + 2) as nat) + depth.mantissa)) as i128,
        scale: (last_price.scale + depth.scale + 2) as u32,
    }
}

/// The exact bid border, `last_price * (1 - depth/100)`.
pub open spec fn spec_bid_border(last_price: Decimal, depth: Decimal) -> Decimal {
    Decimal {
        mantissa: (last_price.mantissa * (pow10((depth.scale + 2) as nat) - depth.mantissa)) as i128,
        scale: (last_price.scale + depth.scale + 2) as u32,
    }
}

pub open spec fn spec_border(last_price: Decimal, depth: Decimal, order_type: OrderType) -> Decimal {
    match order_type {
        OrderType::Ask => spec_ask_border(last_price, depth),
        OrderType::Bid => spec_bid_border(last_price, depth),
    }
}

/// Border price of the depth band: how far above (asks) or below (bids) the
/// last price an entry may sit and still count as in band.
pub fn find_border_price(last_price: Decimal, depth: Decimal, order_type: OrderType) -> (r: Decimal)
    requires
        border_fits(last_price, depth),
    ensures
        r == spec_border(last_price, depth, order_type),
        r.valid(),
{
    let f = pow10_i128(depth.scale + 2);
    let pct = match order_type {
        OrderType::Ask => {
            match f.checked_add(depth.mantissa) {
                Some(p) => p,
                None => {
                    proof {
                        assert(false);
                    }
                    0
                },
            }
        },
        OrderType::Bid => {
            match f.checked_sub(depth.mantissa) {
                Some(p) => p,
                None => {
                    proof {
                        assert(false);
                    }
                    0
                },
            }
        },
    };
    let m = match last_price.mantissa.checked_mul(pct) {
        Some(m) => m,
        None => {
            proof {
                assert(false);
            }
            0
        },
    };
    Decimal { mantissa: m, scale: last_price.scale + depth.scale + 2 }
}

/// For depth in `(0, 100]` and a positive last price, the band brackets the
/// last price: `askBorder >= lastPrice >= bidBorder`.
///
/// `0 < depth` is `depth.mantissa > 0`; a positive price likewise.
pub proof fn lemma_border_brackets_price(last_price: Decimal, depth: Decimal)
    requires
        border_fits(last_price, depth),
        last_price.mantissa > 0,
        depth.mantissa > 0,
        depth.units() <= 100 * pow10(28),
    ensures
        spec_ask_border(last_price, depth).units() >= last_price.units(),
        spec_bid_border(last_price, depth).units() <= last_price.units(),
{
    let p2 = (depth.scale + 2) as nat;
    let sb = (last_price.scale + depth.scale + 2) as nat;
    let rb = (MAX_SCALE - sb) as nat;
    let rl = (MAX_SCALE - last_price.scale) as nat;
    let ask = spec_ask_border(last_price, depth);
    let bid = spec_bid_border(last_price, depth);
    lemma_pow10_pos(p2);
    lemma_pow10_pos(rb);
    lemma_pow10_pos(rl);
    // Scale both borders and the last price to common units of 10^-28.
    assert(ask.units() == last_price.mantissa * (pow10(p2) + depth.mantissa) * pow10(rb));
    assert(bid.units() == last_price.mantissa * (pow10(p2) - depth.mantissa) * pow10(rb));
    // last_price.units() == last_price.mantissa * pow10(p2) * pow10(rb)
    lemma_pow10_add(p2, rb);
    assert(last_price.mantissa * pow10(rl) == last_price.mantissa * (pow10(p2) * pow10(rb)));
    lemma_mul_is_associative(last_price.mantissa as int, pow10(p2), pow10(rb));
    // Ask side: mantissa * (f + d) >= mantissa * f because d > 0.
    lemma_mul_left_inequality(last_price.mantissa as int, pow10(p2), pow10(p2) + depth.mantissa);
    lemma_mul_inequality(
        last_price.mantissa * pow10(p2),
        last_price.mantissa * (pow10(p2) + depth.mantissa),
        pow10(rb),
    );
    lemma_mul_is_associative(last_price.mantissa as int, pow10(p2) + depth.mantissa, pow10(rb));
    // Bid side: mantissa * (f - d) <= mantissa * f because d > 0.
    lemma_mul_left_inequality(last_price.mantissa as int, pow10(p2) - depth.mantissa, pow10(p2));
    lemma_mul_inequality(
        last_price.mantissa * (pow10(p2) - depth.mantissa),
        last_price.mantissa * pow10(p2),
        pow10(rb),
    );
    lemma_mul_is_associative(last_price.mantissa as int, pow10(p2) - depth.mantissa, pow10(rb));
}

/// The defining equations of the borders, cleared of denominators: with
/// `f = 10^(depth.scale + 2)`, so that `depth/100 = depth.mantissa / f`,
///
/// `askBorder * f == lastPrice * (f + depth.mantissa)`
/// `bidBorder * f == lastPrice * (f - depth.mantissa)`
///
/// which is exactly `border = lastPrice * (1 +/- depth/100)`.
pub proof fn lemma_border_equation(last_price: Decimal, depth: Decimal)
    requires
        border_fits(last_price, depth),
    ensures
        spec_ask_border(last_price, depth).units() * pow10((depth.scale + 2) as nat)
            == last_price.units() * (pow10((depth.scale + 2) as nat) + depth.mantissa),
        spec_bid_border(last_price, depth).units() * pow10((depth.scale + 2) as nat)
            == last_price.units() * (pow10((depth.scale + 2) as nat) - depth.mantissa),
{
    let p2 = (depth.scale + 2) as nat;
    let sb = (last_price.scale + depth.scale + 2) as nat;
    let rb = (MAX_SCALE - sb) as nat;
    let rl = (MAX_SCALE - last_price.scale) as nat;
    let f = pow10(p2);
    let w = pow10(rb);
    let x = last_price.mantissa as int;
    let d = depth.mantissa as int;
    lemma_pow10_add(p2, rb);
    assert(pow10(rl) == f * w);
    assert(spec_ask_border(last_price, depth).units() == x * (f + d) * w);
    assert(spec_bid_border(last_price, depth).units() == x * (f - d) * w);
    assert(last_price.units() == x * (f * w));
    assert(x * (f + d) * w * f == x * (f * w) * (f + d)) by (nonlinear_arith);
    assert(x * (f - d) * w * f == x * (f * w) * (f - d)) by (nonlinear_arith);
}

/// An entry is in band when its price does not pass the border: asks keep
/// `price <= border`, bids keep `price >= border`, both boundary-inclusive.
pub open spec fn in_band(e: OrderBookEntity, border: Decimal, order_type: OrderType) -> bool {
    match order_type {
        OrderType::Ask => e.price.units() <= border.units(),
        OrderType::Bid => e.price.units() >= border.units(),
    }
}

/// How a surviving entry is presented: the price is truncated (never
/// rounded) to four fractional digits and trailing zeros are dropped; the
/// quantity is passed through unchanged.
pub open spec fn spec_display_entry(e: OrderBookEntity) -> OrderBookEntity {
    OrderBookEntity { price: e.price.spec_trunc(4).spec_normalize(), qty: e.qty }
}

pub open spec fn spec_trim(
    book: Seq<OrderBookEntity>,
    border: Decimal,
    order_type: OrderType,
) -> Seq<OrderBookEntity> {
    book.filter(|e: OrderBookEntity| in_band(e, border, order_type)).map_values(
        |e: OrderBookEntity| spec_display_entry(e),
    )
}

/// Keeps the in-band entries of one side, in input order, each put into
/// display form. Boundary entries (price equal to the border) survive.
pub fn trim_order_book_entity(
    book: Vec<OrderBookEntity>,
    border_price: Decimal,
    order_type: OrderType,
) -> (r: Vec<OrderBookEntity>)
    requires
        border_price.valid(),
        all_valid(book@),
    ensures
        r@ == spec_trim(book@, border_price, order_type),
        all_valid(r@),
{
    let mut r: Vec<OrderBookEntity> = Vec::new();
    let mut i: usize = 0;
    proof {
        assert(book@.subrange(0, 0) =~= Seq::<OrderBookEntity>::empty());
        reveal(Seq::filter);
        assert(r@ =~= spec_trim(book@.subrange(0, 0), border_price, order_type));
    }
    while i < book.len()
        invariant
            i <= book.len(),
            border_price.valid(),
            all_valid(book@),
            all_valid(r@),
            r@ == spec_trim(book@.subrange(0, i as int), border_price, order_type),
        decreases book.len() - i,
    {
        let e = book[i];
        let keep = match order_type {
            OrderType::Ask => e.price.le(&border_price),
            OrderType::Bid => e.price.ge(&border_price),
        };
        proof {
            assert(book@.subrange(0, i + 1).drop_last() =~= book@.subrange(0, i as int));
            assert(book@.subrange(0, i + 1).last() == book@[i as int]);
            reveal(Seq::filter);
        }
        if keep {
            let price = e.price.trunc_with_scale(4);
            let price = price.normalize();
            r.push(OrderBookEntity { price, qty: e.qty });
            proof {
                assert(spec_trim(book@.subrange(0, i + 1), border_price, order_type) =~= spec_trim(
                    book@.subrange(0, i as int),
                    border_price,
                    order_type,
                ).push(spec_display_entry(book@[i as int])));
                assert(r@ =~= spec_trim(book@.subrange(0, i + 1), border_price, order_type));
            }
        } else {
            proof {
                assert(spec_trim(book@.subrange(0, i + 1), border_price, order_type) =~= spec_trim(
                    book@.subrange(0, i as int),
                    border_price,
                    order_type,
                ));
                assert(r@ =~= spec_trim(book@.subrange(0, i + 1), border_price, order_type));
            }
        }
        i = i + 1;
    }
    proof {
        assert(book@.subrange(0, book@.len() as int) =~= book@);
    }
    r
}

/// Trim is boundary-inclusive: an entry whose price equals the border —
/// on either side — survives the trim (in display form).
pub proof fn lemma_trim_boundary_inclusive(
    book: Seq<OrderBookEntity>,
    border: Decimal,
    order_type: OrderType,
    i: int,
)
    requires
        0 <= i < book.len(),
        book[i].price.units() == border.units(),
    ensures
        spec_trim(book, border, order_type).contains(spec_display_entry(book[i])),
{
    let pred = |e: OrderBookEntity| in_band(e, border, order_type);
    assert(pred(book[i]));
    book.lemma_filter_contains(pred, i);
    let f = book.filter(pred);
    let j = choose|j: int| 0 <= j < f.len() && f[j] == book[i];
    assert(spec_trim(book, border, order_type)[j] == spec_display_entry(book[i]));
}

/// Strict "ranks ahead" order used by rank-and-bound: larger quantity
/// first; ties broken by smaller original position, which is what makes
/// the ranking stable.
pub open spec fn rank_before(a: (OrderBookEntity, usize), b: (OrderBookEntity, usize)) -> bool {
    a.0.qty.units() > b.0.qty.units() || (a.0.qty.units() == b.0.qty.units() && a.1 < b.1)
}

pub open spec fn pairs_sorted(s: Seq<(OrderBookEntity, usize)>) -> bool {
    forall|i: int, j: int|
        0 <= i < j < s.len() ==> !rank_before(#[trigger] s[j], #[trigger] s[i])
}

pub open spec fn distinct_positions(s: Seq<(OrderBookEntity, usize)>) -> bool {
    forall|i: int, j: int|
        0 <= i < j < s.len() ==> (#[trigger] s[i]).1 != (#[trigger] s[j]).1
}

/// Insert one indexed entry into a ranked sequence, behind every entry
/// that ranks ahead of it.
pub open spec fn insert_ranked(
    s: Seq<(OrderBookEntity, usize)>,
    e: (OrderBookEntity, usize),
) -> Seq<(OrderBookEntity, usize)>
    decreases s.len(),
{
    if s.len() == 0 {
        seq![e]
    } else if rank_before(e, s.last()) {
        insert_ranked(s.drop_last(), e).push(s.last())
    } else {
        s.push(e)
    }
}

/// The stable descending ranking of an indexed sequence of entries.
pub open spec fn rank_sorted(s: Seq<(OrderBookEntity, usize)>) -> Seq<(OrderBookEntity, usize)>
    decreases s.len(),
{
    if s.len() == 0 {
        Seq::empty()
    } else {
        insert_ranked(rank_sorted(s.drop_last()), s.last())
    }
}

/// Each entry tagged with its original position.
pub open spec fn indexed(s: Seq<OrderBookEntity>) -> Seq<(OrderBookEntity, usize)> {
    Seq::new(s.len(), |i: int| (s[i], i as usize))
}

/// The entries ranked by quantity descending, stably.
pub open spec fn spec_rank(s: Seq<OrderBookEntity>) -> Seq<OrderBookEntity> {
    rank_sorted(indexed(s)).map_values(|p: (OrderBookEntity, usize)| p.0)
}

/// How many entries rank-and-bound keeps.
pub open spec fn bounded_len(n: nat) -> nat {
    if n < 10 {
        n
    } else {
        10
    }
}

/// The ranked entries, cut to the top ten.
pub open spec fn spec_top(s: Seq<OrderBookEntity>) -> Seq<OrderBookEntity> {
    spec_rank(s).take(bounded_len(s.len()) as int)
}

proof fn lemma_push_contains<T>(s: Seq<T>, e: T)
    ensures
        forall|x: T| #[trigger] s.push(e).contains(x) <==> (s.contains(x) || x == e),
{
    assert forall|x: T| #[trigger] s.push(e).contains(x) implies (s.contains(x) || x == e) by {
        let i = choose|i: int| 0 <= i < s.push(e).len() && s.push(e)[i] == x;
        if i < s.len() {
            assert(s[i] == x);
        }
    }
    assert forall|x: T| (s.contains(x) || x == e) implies s.push(e).contains(x) by {
        if s.contains(x) {
            let i = choose|i: int| 0 <= i < s.len() && s[i] == x;
            assert(s.push(e)[i] == x);
        } else {
            assert(s.push(e)[s.len() as int] == x);
        }
    }
}

proof fn lemma_drop_last_contains<T>(s: Seq<T>)
    requires
        s.len() > 0,
    ensures
        forall|x: T| #[trigger] s.contains(x) <==> (s.drop_last().contains(x) || x == s.last()),
{
    assert forall|x: T| #[trigger] s.contains(x) implies (s.drop_last().contains(x) || x
        == s.last()) by {
        let i = choose|i: int| 0 <= i < s.len() && s[i] == x;
        if i < s.len() - 1 {
            assert(s.drop_last()[i] == x);
        }
    }
    assert forall|x: T| (s.drop_last().contains(x) || x == s.last()) implies s.contains(x) by {
        if s.drop_last().contains(x) {
            let i = choose|i: int| 0 <= i < s.drop_last().len() && s.drop_last()[i] == x;
            assert(s[i] == x);
        } else {
            assert(s[s.len() - 1] == x);
        }
    }
}

/// Inserting adds exactly the new entry: one longer, same entries plus it.
proof fn lemma_insert_ranked_elems(s: Seq<(OrderBookEntity, usize)>, e: (OrderBookEntity, usize))
    ensures
        insert_ranked(s, e).len() == s.len() + 1,
        forall|x: (OrderBookEntity, usize)|
            #[trigger] insert_ranked(s, e).contains(x) <==> (s.contains(x) || x == e),
    decreases s.len(),
{
    if s.len() == 0 {
        assert(seq![e] =~= Seq::<(OrderBookEntity, usize)>::empty().push(e));
        lemma_push_contains(Seq::<(OrderBookEntity, usize)>::empty(), e);
    } else if rank_before(e, s.last()) {
        lemma_insert_ranked_elems(s.drop_last(), e);
        lemma_push_contains(insert_ranked(s.drop_last(), e), s.last());
        lemma_drop_last_contains(s);
    } else {
        lemma_push_contains(s, e);
    }
}

/// Inserting keeps the sequence ranked.
proof fn lemma_insert_ranked_sorted(s: Seq<(OrderBookEntity, usize)>, e: (OrderBookEntity, usize))
    requires
        pairs_sorted(s),
    ensures
        pairs_sorted(insert_ranked(s, e)),
    decreases s.len(),
{
    if s.len() == 0 {
    } else if rank_before(e, s.last()) {
        assert(pairs_sorted(s.drop_last())) by {
            assert forall|i: int, j: int|
                0 <= i < j < s.drop_last().len() implies !rank_before(
                #[trigger] s.drop_last()[j],
                #[trigger] s.drop_last()[i],
            ) by {
                assert(!rank_before(s[j], s[i]));
            }
        }
        lemma_insert_ranked_sorted(s.drop_last(), e);
        lemma_insert_ranked_elems(s.drop_last(), e);
        let inner = insert_ranked(s.drop_last(), e);
        let t = inner.push(s.last());
        assert forall|i: int, j: int| 0 <= i < j < t.len() implies !rank_before(
            #[trigger] t[j],
            #[trigger] t[i],
        ) by {
            if j < inner.len() {
                assert(!rank_before(inner[j], inner[i]));
            } else {
                // t[j] is s.last(); t[i] is an entry of inner, so it is an
                // old entry (which ranked no later than the last) or e
                // (which ranks ahead of the last).
                assert(inner.contains(inner[i]));
                if inner[i] == e {
                } else {
                    let k = choose|k: int|
                        0 <= k < s.drop_last().len() && s.drop_last()[k] == inner[i];
                    assert(!rank_before(s.last(), s[k]));
                }
            }
        }
    } else {
        let t = s.push(e);
        assert forall|i: int, j: int| 0 <= i < j < t.len() implies !rank_before(
            #[trigger] t[j],
            #[trigger] t[i],
        ) by {
            if j < s.len() {
                assert(!rank_before(s[j], s[i]));
            } else {
                assert(!rank_before(e, s.last()));
                if i < s.len() - 1 {
                    assert(!rank_before(s.last(), s[i]));
                }
            }
        }
    }
}

/// Inserting an entry with a fresh position keeps positions distinct.
proof fn lemma_insert_ranked_distinct(
    s: Seq<(OrderBookEntity, usize)>,
    e: (OrderBookEntity, usize),
)
    requires
        distinct_positions(s),
        forall|k: int| 0 <= k < s.len() ==> (#[trigger] s[k]).1 != e.1,
    ensures
        distinct_positions(insert_ranked(s, e)),
    decreases s.len(),
{
    if s.len() == 0 {
    } else if rank_before(e, s.last()) {
        assert(distinct_positions(s.drop_last())) by {
            assert forall|i: int, j: int|
                0 <= i < j < s.drop_last().len() implies (#[trigger] s.drop_last()[i]).1 != (
            #[trigger] s.drop_last()[j]).1 by {
                assert(s[i].1 != s[j].1);
            }
        }
        assert forall|k: int| 0 <= k < s.drop_last().len() implies (#[trigger] s.drop_last()[k]).1
            != e.1 by {
            assert(s[k].1 != e.1);
        }
        lemma_insert_ranked_distinct(s.drop_last(), e);
        lemma_insert_ranked_elems(s.drop_last(), e);
        let inner = insert_ranked(s.drop_last(), e);
        let t = inner.push(s.last());
        assert forall|i: int, j: int| 0 <= i < j < t.len() implies (#[trigger] t[i]).1 != (
        #[trigger] t[j]).1 by {
            if j < inner.len() {
                assert(inner[i].1 != inner[j].1);
            } else {
                assert(inner.contains(inner[i]));
                if inner[i] == e {
                    assert(s[s.len() - 1].1 != e.1);
                } else {
                    let k = choose|k: int|
                        0 <= k < s.drop_last().len() && s.drop_last()[k] == inner[i];
                    assert(s[k].1 != s[s.len() - 1].1);
                }
            }
        }
    } else {
        let t = s.push(e);
        assert forall|i: int, j: int| 0 <= i < j < t.len() implies (#[trigger] t[i]).1 != (
        #[trigger] t[j]).1 by {
            if j < s.len() {
                assert(s[i].1 != s[j].1);
            } else {
                assert(s[i].1 != e.1);
            }
        }
    }
}

/// The ranking of the indexed entries is a ranked, stable rearrangement:
/// same length, entries drawn from the input at their tagged positions,
/// every position appearing at most once.
pub proof fn lemma_rank_props(orig: Seq<OrderBookEntity>)
    requires
        orig.len() <= usize::MAX,
    ensures
        rank_sorted(indexed(orig)).len() == orig.len(),
        pairs_sorted(rank_sorted(indexed(orig))),
        distinct_positions(rank_sorted(indexed(orig))),
        forall|x: (OrderBookEntity, usize)|
            #[trigger] rank_sorted(indexed(orig)).contains(x) <==> indexed(orig).contains(x),
        forall|k: int|
            0 <= k < orig.len() ==> 0 <= (#[trigger] rank_sorted(indexed(orig))[k]).1 < orig.len()
                && rank_sorted(indexed(orig))[k].0 == orig[rank_sorted(indexed(orig))[k].1 as int],
    decreases orig.len(),
{
    let s = indexed(orig);
    if orig.len() == 0 {
    } else {
        let prev = orig.drop_last();
        lemma_rank_props(prev);
        let tp = rank_sorted(indexed(prev));
        let e = s.last();
        assert(s.drop_last() =~= indexed(prev));
        assert(rank_sorted(s) == insert_ranked(tp, e));
        // The new entry's position is the old length, which no ranked
        // entry of the shorter sequence carries.
        assert forall|k: int| 0 <= k < tp.len() implies (#[trigger] tp[k]).1 != e.1 by {
            assert(tp.contains(tp[k]));
            assert(indexed(prev).contains(tp[k]));
            let i = choose|i: int| 0 <= i < indexed(prev).len() && indexed(prev)[i] == tp[k];
            assert(tp[k].1 == i);
        }
        lemma_insert_ranked_elems(tp, e);
        lemma_insert_ranked_sorted(tp, e);
        lemma_insert_ranked_distinct(tp, e);
        let t = rank_sorted(s);
        lemma_drop_last_contains(s);
        assert forall|x: (OrderBookEntity, usize)| #[trigger] t.contains(x) implies s.contains(
            x,
        ) by {
            if x != e {
                assert(indexed(prev).contains(x));
                let i = choose|i: int| 0 <= i < indexed(prev).len() && indexed(prev)[i] == x;
                assert(s[i] == x);
            }
        }
        assert forall|x: (OrderBookEntity, usize)| #[trigger] s.contains(x) implies t.contains(
            x,
        ) by {
            if x != e {
                assert(s.drop_last().contains(x));
            }
        }
        assert forall|k: int| 0 <= k < orig.len() implies 0 <= (#[trigger] t[k]).1 < orig.len()
            && t[k].0 == orig[t[k].1 as int] by {
            assert(t.contains(t[k]));
            assert(s.contains(t[k]));
            let i = choose|i: int| 0 <= i < s.len() && s[i] == t[k];
            assert(t[k] == (orig[i], i as usize));
        }
    }
}

/// Rank-and-bound in full: the output keeps `min(10, n)` entries, in
/// non-increasing order of quantity; ties keep their input order; each
/// output entry is an input entry, no input position used twice.
pub proof fn lemma_rank_and_bound(s: Seq<OrderBookEntity>)
    requires
        s.len() <= usize::MAX,
    ensures
        spec_top(s).len() == bounded_len(s.len()),
        forall|i: int, j: int|
            0 <= i < j < spec_top(s).len() ==> (#[trigger] spec_top(s)[i]).qty.units() >= (
            #[trigger] spec_top(s)[j]).qty.units(),
        forall|i: int, j: int|
            0 <= i < j < spec_top(s).len() && (#[trigger] spec_top(s)[i]).qty.units() == (
            #[trigger] spec_top(s)[j]).qty.units() ==> rank_sorted(indexed(s))[i].1 < rank_sorted(
                indexed(s),
            )[j].1,
        forall|k: int|
            0 <= k < spec_top(s).len() ==> #[trigger] spec_top(s)[k] == s[rank_sorted(
                indexed(s),
            )[k].1 as int],
        distinct_positions(rank_sorted(indexed(s))),
{
    lemma_rank_props(s);
    let t = rank_sorted(indexed(s));
    assert forall|i: int, j: int| 0 <= i < j < spec_top(s).len() implies (
    #[trigger] spec_top(s)[i]).qty.units() >= (#[trigger] spec_top(s)[j]).qty.units() by {
        assert(!rank_before(t[j], t[i]));
        assert(spec_top(s)[i] == t[i].0);
        assert(spec_top(s)[j] == t[j].0);
    }
    assert forall|i: int, j: int|
        0 <= i < j < spec_top(s).len() && (#[trigger] spec_top(s)[i]).qty.units() == (
        #[trigger] spec_top(s)[j]).qty.units() implies t[i].1 < t[j].1 by {
        assert(!rank_before(t[j], t[i]));
        assert(t[i].1 != t[j].1);
        assert(spec_top(s)[i] == t[i].0);
        assert(spec_top(s)[j] == t[j].0);
    }
}

/// Exec comparison mirroring `rank_before`.
fn rank_before_exec(a: &(OrderBookEntity, usize), b: &(OrderBookEntity, usize)) -> (r: bool)
    requires
        a.0.qty.valid(),
        b.0.qty.valid(),
    ensures
        r == rank_before(*a, *b),
{
    let le = a.0.qty.le(&b.0.qty);
    let ge = b.0.qty.le(&a.0.qty);
    (ge && !le) || (ge && le && a.1 < b.1)
}

/// Helper for the insertion step: once the scan found the split point,
/// inserting there is exactly `insert_ranked`.
proof fn lemma_insert_ranked_at(
    s: Seq<(OrderBookEntity, usize)>,
    e: (OrderBookEntity, usize),
    k: int,
)
    requires
        0 <= k <= s.len(),
        forall|t: int| k <= t < s.len() ==> rank_before(e, #[trigger] s[t]),
        k > 0 ==> !rank_before(e, s[k - 1]),
    ensures
        insert_ranked(s, e) == s.insert(k, e),
    decreases s.len(),
{
    if s.len() == 0 {
        assert(seq![e] =~= s.insert(0, e));
    } else if k == s.len() {
        assert(!rank_before(e, s.last()));
        assert(s.push(e) =~= s.insert(k, e));
    } else {
        assert(rank_before(e, s.last()));
        assert forall|t: int| k <= t < s.drop_last().len() implies rank_before(
            e,
            #[trigger] s.drop_last()[t],
        ) by {
            assert(rank_before(e, s[t]));
        }
        lemma_insert_ranked_at(s.drop_last(), e, k);
        assert(insert_ranked(s, e) == s.drop_last().insert(k, e).push(s.last()));
        assert(s.drop_last().insert(k, e).push(s.last()) =~= s.insert(k, e));
    }
}

/// Rank the entries by quantity descending (stable: ties keep their input
/// order) and keep only the top ten.
pub fn sort_and_filter(book: Vec<OrderBookEntity>) -> (r: Vec<OrderBookEntity>)
    requires
        all_valid(book@),
    ensures
        r@ == spec_top(book@),
        r@.len() == bounded_len(book@.len()),
        all_valid(r@),
        forall|i: int, j: int|
            0 <= i < j < r@.len() ==> (#[trigger] r@[i]).qty.units() >= (
            #[trigger] r@[j]).qty.units(),
{
    let mut pairs: Vec<(OrderBookEntity, usize)> = Vec::new();
    let mut i: usize = 0;
    while i < book.len()
        invariant
            i <= book.len(),
            pairs@ == indexed(book@).take(i as int),
        decreases book.len() - i,
    {
        pairs.push((book[i], i));
        proof {
            assert(pairs@ =~= indexed(book@).take(i + 1));
        }
        i = i + 1;
    }
    proof {
        assert(indexed(book@).take(book@.len() as int) =~= indexed(book@));
    }
    let mut out: Vec<(OrderBookEntity, usize)> = Vec::new();
    let mut k: usize = 0;
    while k < pairs.len()
        invariant
            k <= pairs.len(),
            pairs@ == indexed(book@),
            all_valid(book@),
            out@ == rank_sorted(indexed(book@).take(k as int)),
            forall|t: int| 0 <= t < out@.len() ==> (#[trigger] out@[t]).0.valid(),
        decreases pairs.len() - k,
    {
        let e = pairs[k];
        assert(e.0.valid()) by {
            assert(e.0 == book@[k as int]);
        }
        let mut j: usize = out.len();
        while j > 0 && rank_before_exec(&e, &out[j - 1])
            invariant
                j <= out.len(),
                e.0.valid(),
                forall|t: int| 0 <= t < out@.len() ==> (#[trigger] out@[t]).0.valid(),
                forall|t: int| j <= t < out@.len() ==> rank_before(e, #[trigger] out@[t]),
            decreases j,
        {
            j = j - 1;
        }
        proof {
            lemma_insert_ranked_at(out@, e, j as int);
        }
        out.insert(j, e);
        proof {
            let taken = indexed(book@).take(k + 1);
            assert(taken.drop_last() =~= indexed(book@).take(k as int));
            assert(taken.last() == indexed(book@)[k as int]);
            assert(out@ == insert_ranked(rank_sorted(indexed(book@).take(k as int)), taken.last()));
            assert(out@ == rank_sorted(taken));
            assert forall|t: int| 0 <= t < out@.len() implies (#[trigger] out@[t]).0.valid() by {
                lemma_rank_props(book@.take(k + 1));
                assert(indexed(book@.take(k + 1)) =~= taken);
                assert(out@[t].0 == book@.take(k + 1)[out@[t].1 as int]);
            }
        }
        k = k + 1;
    }
    proof {
        assert(indexed(book@).take(book@.len() as int) =~= indexed(book@));
        lemma_rank_props(book@);
    }
    let limit = if out.len() < TOP_LIMITS {
        out.len()
    } else {
        TOP_LIMITS
    };
    let mut r: Vec<OrderBookEntity> = Vec::new();
    let mut t: usize = 0;
    while t < limit
        invariant
            t <= limit,
            limit == bounded_len(book@.len()),
            out@ == rank_sorted(indexed(book@)),
            out@.len() == book@.len(),
            limit <= out@.len(),
            forall|q: int| 0 <= q < out@.len() ==> (#[trigger] out@[q]).0.valid(),
            r@ == spec_rank(book@).take(t as int),
        decreases limit - t,
    {
        let p = out[t];
        r.push(p.0);
        proof {
            assert(r@ =~= spec_rank(book@).take(t + 1));
        }
        t = t + 1;
    }
    proof {
        assert(r@ == spec_top(book@));
        lemma_rank_and_bound(book@);
        assert forall|q: int| 0 <= q < r@.len() implies (#[trigger] r@[q]).valid() by {
            assert(r@[q] == out@[q].0);
        }
    }
    r
}

/// The whole depth filter for one side: border, boundary-inclusive trim,
/// then stable rank-and-bound.
pub open spec fn spec_process(
    book: Seq<OrderBookEntity>,
    last_price: Decimal,
    depth: Decimal,
    order_type: OrderType,
) -> Seq<OrderBookEntity> {
    spec_top(spec_trim(book, spec_border(last_price, depth, order_type), order_type))
}

pub fn process_order_book_entity(
    book: Vec<OrderBookEntity>,
    last_price: Decimal,
    depth: Decimal,
    order_type: OrderType,
) -> (r: Vec<OrderBookEntity>)
    requires
        border_fits(last_price, depth),
        all_valid(book@),
    ensures
        r@ == spec_process(book@, last_price, depth, order_type),
        all_valid(r@),
        r@.len() <= 10,
{
    let border_price = find_border_price(last_price, depth, order_type);
    let entities = trim_order_book_entity(book, border_price, order_type);
    sort_and_filter(entities)
}

} // verus!
