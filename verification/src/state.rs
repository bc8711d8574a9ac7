//! Request-side operations over the shared state: symbol validation
//! against the registry, caller authorization, and assembly of the
//! filtered order book.

use vstd::prelude::*;
use vstd::string::StringExecFns;
use crate::decimal::{Decimal, pow10, pow10_i128, MAX_SCALE};
use crate::error::ServiceError;
use crate::order_book::{
    OrderBook, OrderBookEntity, OrderType, all_valid, border_fits, spec_process,
    process_order_book_entity,
};
use crate::registry::{Registry, ends_with_usdt, str_ends_with_usdt};
use crate::text::{to_upper_ascii, upper_chars};

verus! {

/// Symbols the depth filter does not support: these instruments need
/// different depth semantics, so they are refused even when the registry
/// knows them.
pub open spec fn denylisted(s: Seq<char>) -> bool {
    s == "BTCUSDT"@ || s == "ETHUSDT"@ || s == "WBTCUSDT"@ || s == "WETHUSDT"@
}

/// What a raw user-typed symbol normalizes to: upper-cased, and suffixed
/// with `"USDT"` when the quote is not already spelled out.
pub open spec fn normalize_symbol(raw: Seq<char>) -> Seq<char> {
    if ends_with_usdt(upper_chars(raw)) {
        upper_chars(raw)
    } else {
        upper_chars(raw) + "USDT"@
    }
}

fn is_denylisted(s: &String) -> (r: bool)
    ensures
        r == denylisted(s@),
{
    s.eq(&String::from_str("BTCUSDT")) || s.eq(&String::from_str("ETHUSDT")) || s.eq(
        &String::from_str("WBTCUSDT"),
    ) || s.eq(&String::from_str("WETHUSDT"))
}

/// Validate a user-typed symbol against the registry snapshot: normalize
/// it, refuse denylisted instruments, and look the result up. Exactly one
/// of the three outcomes happens, and each carries the normalized name.
pub fn validate_symbol(registry: &Registry, symbol: &str) -> (r: Result<String, ServiceError>)
    ensures
        ({
            let n = normalize_symbol(symbol@);
            match r {
                Ok(s) => s@ == n && !denylisted(n) && registry@.contains(n),
                Err(ServiceError::UnsupportedSymbol(s)) => s@ == n && denylisted(n),
                Err(ServiceError::SymbolNotFound(s)) => s@ == n && !denylisted(n)
                    && !registry@.contains(n),
                _ => false,
            }
        }),
{
    let mut sym = to_upper_ascii(symbol);
    if !str_ends_with_usdt(sym.as_str()) {
        sym.append("USDT");
    }
    if is_denylisted(&sym) {
        return Err(ServiceError::UnsupportedSymbol(sym));
    }
    if registry.contains_symbol(&sym) {
        Ok(sym)
    } else {
        Err(ServiceError::SymbolNotFound(sym))
    }
}

/// Only chat identifiers on the allow-list may use the service.
pub fn authorize(allowed_users: &Vec<i64>, chat_id: i64) -> (r: Result<(), ServiceError>)
    ensures
        r matches Ok(_) <==> allowed_users@.contains(chat_id),
        r matches Err(e) ==> e == ServiceError::Unauthorized,
{
    let mut i: usize = 0;
    while i < allowed_users.len()
        invariant
            i <= allowed_users@.len(),
            forall|k: int| 0 <= k < i ==> allowed_users@[k] != chat_id,
        decreases allowed_users@.len() - i,
    {
        if allowed_users[i] == chat_id {
            return Ok(());
        }
        i = i + 1;
    }
    Err(ServiceError::Unauthorized)
}

/// The display-ready result: both sides trimmed to the depth band and
/// ranked, together with the inputs they were computed from.
#[derive(Debug, Clone)]
pub struct ExtendedOrderBook {
    pub symbol: String,
    pub asks: Vec<OrderBookEntity>,
    pub bids: Vec<OrderBookEntity>,
    pub last_price: Decimal,
    pub depth: Decimal,
}

/// The sum of the quantities of a side, in units; what the volume
/// getters compute when nothing overflows.
pub open spec fn sum_qty_units(s: Seq<OrderBookEntity>) -> int
    decreases s.len(),
{
    if s.len() == 0 {
        0
    } else {
        sum_qty_units(s.drop_last()) + s.last().qty.units()
    }
}

/// The exact left-to-right sum of the quantities, `None` as soon as one
/// exact partial sum is unrepresentable.
pub open spec fn spec_qty_sum(s: Seq<OrderBookEntity>) -> Option<Decimal>
    decreases s.len(),
{
    if s.len() == 0 {
        Some(Decimal { mantissa: 0, scale: 0 })
    } else {
        match spec_qty_sum(s.drop_last()) {
            Some(acc) => crate::decimal::spec_checked_add(acc, s.last().qty),
            None => None,
        }
    }
}

/// Every defined quantity sum counts the quantities exactly.
pub proof fn lemma_qty_sum_units(s: Seq<OrderBookEntity>)
    ensures
        spec_qty_sum(s) matches Some(v) ==> v.units() == sum_qty_units(s),
    decreases s.len(),
{
    if s.len() > 0 {
        lemma_qty_sum_units(s.drop_last());
        if spec_qty_sum(s.drop_last()) is Some {
            crate::decimal::lemma_checked_add_units(
                spec_qty_sum(s.drop_last())->Some_0,
                s.last().qty,
            );
        }
    }
}

fn qty_sum(side: &Vec<OrderBookEntity>) -> (r: Option<Decimal>)
    ensures
        r == spec_qty_sum(side@),
        r matches Some(v) ==> v.units() == sum_qty_units(side@) && v.valid(),
{
    let mut acc = Decimal { mantissa: 0, scale: 0 };
    let mut i: usize = 0;
    proof {
        assert(side@.take(0) =~= Seq::<OrderBookEntity>::empty());
    }
    while i < side.len()
        invariant
            i <= side@.len(),
            acc.valid(),
            spec_qty_sum(side@.take(i as int)) == Some(acc),
        decreases side@.len() - i,
    {
        let q = &side[i].qty;
        proof {
            assert(side@.take(i + 1).drop_last() =~= side@.take(i as int));
            assert(side@.take(i + 1).last() == side@[i as int]);
        }
        match acc.checked_add_dec(q) {
            Some(v) => {
                acc = v;
            },
            None => {
                proof {
                    lemma_qty_sum_none_stays(side@, i + 1, side@.len() as int);
                    assert(side@.take(side@.len() as int) =~= side@);
                }
                return None;
            },
        }
        i = i + 1;
    }
    proof {
        assert(side@.take(side@.len() as int) =~= side@);
        lemma_qty_sum_units(side@);
    }
    Some(acc)
}

/// Once a prefix sum is undefined, the whole sum is.
proof fn lemma_qty_sum_none_stays(s: Seq<OrderBookEntity>, k: int, n: int)
    requires
        0 <= k <= n <= s.len(),
        spec_qty_sum(s.take(k)) is None,
    ensures
        spec_qty_sum(s.take(n)) is None,
    decreases n - k,
{
    if k < n {
        assert(s.take(k + 1).drop_last() =~= s.take(k));
        lemma_qty_sum_none_stays(s, k + 1, n);
    } else {
        assert(s.take(n) =~= s.take(k));
    }
}

impl ExtendedOrderBook {
    /// Total quantity offered on the ask side, `None` when the exact sum
    /// cannot be represented.
    pub fn asks_volume(&self) -> (r: Option<Decimal>)
        ensures
            r == spec_qty_sum(self.asks@),
            r matches Some(v) ==> v.units() == sum_qty_units(self.asks@),
    {
        qty_sum(&self.asks)
    }

    /// Total quantity wanted on the bid side, `None` when the exact sum
    /// cannot be represented.
    pub fn bids_volume(&self) -> (r: Option<Decimal>)
        ensures
            r == spec_qty_sum(self.bids@),
            r matches Some(v) ==> v.units() == sum_qty_units(self.bids@),
    {
        qty_sum(&self.bids)
    }
}

/// Run-time check that the border arithmetic for this price and depth
/// stays within machine range.
pub fn check_border_fits(last_price: &Decimal, depth: &Decimal) -> (r: bool)
    ensures
        r == border_fits(*last_price, *depth),
{
    if !(last_price.scale <= MAX_SCALE) || !(depth.scale <= MAX_SCALE) {
        return false;
    }
    if !(depth.scale + 2 <= MAX_SCALE && last_price.scale + depth.scale + 2 <= MAX_SCALE) {
        return false;
    }
    let f = pow10_i128(depth.scale + 2);
    let plus = match f.checked_add(depth.mantissa) {
        Some(p) => p,
        None => {
            return false;
        },
    };
    let minus = match f.checked_sub(depth.mantissa) {
        Some(p) => p,
        None => {
            return false;
        },
    };
    match (last_price.mantissa.checked_mul(plus), last_price.mantissa.checked_mul(minus)) {
        (Some(_), Some(_)) => true,
        _ => false,
    }
}

/// Run-time check that every entry of a side carries in-range decimals.
pub fn check_entries_valid(entries: &Vec<OrderBookEntity>) -> (r: bool)
    ensures
        r == all_valid(entries@),
{
    let mut i: usize = 0;
    while i < entries.len()
        invariant
            i <= entries@.len(),
            forall|k: int| 0 <= k < i ==> (#[trigger] entries@[k]).valid(),
        decreases entries@.len() - i,
    {
        let e = &entries[i];
        if !(e.price.scale <= MAX_SCALE && e.qty.scale <= MAX_SCALE) {
            return false;
        }
        i = i + 1;
    }
    true
}

/// Everything the depth filter needs to stay within machine range.
pub open spec fn filter_inputs_ok(book: OrderBook, last_price: Decimal, depth: Decimal) -> bool {
    border_fits(last_price, depth) && all_valid(book.asks@) && all_valid(book.bids@)
}

/// Assemble the filtered order book from a snapshot and a live price:
/// each side is trimmed to the depth band and ranked independently;
/// values out of machine range are refused as an internal error rather
/// than a wrong answer.
pub fn build_filtered_order_book(
    symbol: String,
    book: OrderBook,
    last_price: Decimal,
    depth: Decimal,
) -> (r: Result<ExtendedOrderBook, ServiceError>)
    ensures
        filter_inputs_ok(book, last_price, depth) ==> (r matches Ok(fb) && fb.symbol@ == symbol@
            && fb.asks@ == spec_process(book.asks@, last_price, depth, OrderType::Ask) && fb.bids@
            == spec_process(book.bids@, last_price, depth, OrderType::Bid) && fb.last_price
            == last_price && fb.depth == depth),
        !filter_inputs_ok(book, last_price, depth) ==> (r matches Err(e) && e matches
            ServiceError::Internal(m) && m@ == "order book values out of range"@),
{
    let ok = check_border_fits(&last_price, &depth) && check_entries_valid(&book.asks)
        && check_entries_valid(&book.bids);
    if !ok {
        return Err(ServiceError::Internal(String::from_str("order book values out of range")));
    }
    let asks = process_order_book_entity(book.asks, last_price, depth, OrderType::Ask);
    let bids = process_order_book_entity(book.bids, last_price, depth, OrderType::Bid);
    Ok(ExtendedOrderBook { symbol, asks, bids, last_price, depth })
}

} // verus!
