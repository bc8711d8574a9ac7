//! The symbol registry: the set of currently tradable symbols, grown by
//! periodic refreshes and never pruned, serving validation reads.

use vstd::prelude::*;
use crate::error::ServiceError;

verus! {

/// One symbol row of the exchange's instrument list.
#[derive(Debug, Clone, PartialEq, Eq)]
pub struct BinanceExchangeSymbol {
    pub symbol: String,
    pub status: String,
}

/// `s` ends with the quote suffix `"USDT"`.
pub open spec fn ends_with_usdt(s: Seq<char>) -> bool {
    &&& s.len() >= 4
    &&& s[s.len() - 4] == 'U'
    &&& s[s.len() - 3] == 'S'
    &&& s[s.len() - 2] == 'D'
    &&& s[s.len() - 1] == 'T'
}

/// Run-time check for the `"USDT"` suffix.
pub fn str_ends_with_usdt(s: &str) -> (r: bool)
    ensures
        r == ends_with_usdt(s@),
{
    let n = s.unicode_len();
    if n < 4 {
        false
    } else {
        s.get_char(n - 4) == 'U' && s.get_char(n - 3) == 'S' && s.get_char(n - 2) == 'D'
            && s.get_char(n - 1) == 'T'
    }
}

/// Which instrument rows the refresh keeps: status exactly `"TRADING"`
/// and a `"USDT"`-quoted symbol.
pub open spec fn row_kept(x: BinanceExchangeSymbol) -> bool {
    x.status@ == "TRADING"@ && ends_with_usdt(x.symbol@)
}

/// The symbols a refresh extracts from the exchange's instrument list, in
/// order: those trading against USDT.
pub fn usdt_trading_pairs(symbols: &Vec<BinanceExchangeSymbol>) -> (r: Vec<String>)
    ensures
        r@.len() == symbols@.filter(|x: BinanceExchangeSymbol| row_kept(x)).len(),
        forall|i: int|
            0 <= i < r@.len() ==> (#[trigger] r@[i])@ == symbols@.filter(
                |x: BinanceExchangeSymbol| row_kept(x),
            )[i].symbol@,
{
    let trading: String = String::from_str("TRADING");
    proof {
        reveal_strlit("TRADING");
    }
    let mut r: Vec<String> = Vec::new();
    let mut i: usize = 0;
    proof {
        reveal(Seq::filter);
        assert(symbols@.subrange(0, 0) =~= Seq::<BinanceExchangeSymbol>::empty());
    }
    while i < symbols.len()
        invariant
            i <= symbols.len(),
            r@.len() == symbols@.subrange(0, i as int).filter(
                |x: BinanceExchangeSymbol| row_kept(x),
            ).len(),
            forall|k: int|
                0 <= k < r@.len() ==> (#[trigger] r@[k])@ == symbols@.subrange(0, i as int).filter(
                    |x: BinanceExchangeSymbol| row_kept(x),
                )[k].symbol@,
            trading@ == "TRADING"@,
        decreases symbols.len() - i,
    {
        let x = &symbols[i];
        let keep = x.status.eq(&trading) && str_ends_with_usdt(x.symbol.as_str());
        proof {
            let pred = |x: BinanceExchangeSymbol| row_kept(x);
            assert(symbols@.subrange(0, i + 1).drop_last() =~= symbols@.subrange(0, i as int));
            assert(symbols@.subrange(0, i + 1).last() == symbols@[i as int]);
            reveal(Seq::filter);
            assert(keep == row_kept(symbols@[i as int]));
            if keep {
                assert(symbols@.subrange(0, i + 1).filter(pred) =~= symbols@.subrange(
                    0,
                    i as int,
                ).filter(pred).push(symbols@[i as int]));
            } else {
                assert(symbols@.subrange(0, i + 1).filter(pred) =~= symbols@.subrange(
                    0,
                    i as int,
                ).filter(pred));
            }
        }
        if keep {
            r.push(x.symbol.clone());
        }
        i = i + 1;
    }
    proof {
        assert(symbols@.subrange(0, symbols@.len() as int) =~= symbols@);
    }
    r
}

/// The registry itself: a set of symbol names. Refreshes only ever add
/// ("union, never prune"), so a symbol that stops trading stays visible
/// until process restart; that is the refresh policy, not an accident.
#[derive(Debug)]
pub struct Registry {
    symbols: Vec<String>,
}

impl View for Registry {
    type V = Set<Seq<char>>;

    closed spec fn view(&self) -> Set<Seq<char>> {
        symbol_set(self.symbols@)
    }
}

/// The set of symbol names a sequence of symbols denotes.
pub open spec fn symbol_set(items: Seq<String>) -> Set<Seq<char>> {
    Set::new(|x: Seq<char>| exists|i: int| 0 <= i < items.len() && (#[trigger] items[i])@ == x)
}

/// Appending one symbol adds exactly its name to the denoted set.
proof fn lemma_symbol_set_push(items: Seq<String>, s: String)
    ensures
        symbol_set(items.push(s)) =~= symbol_set(items).insert(s@),
{
    assert forall|x: Seq<char>| symbol_set(items.push(s)).contains(x) implies symbol_set(
        items,
    ).insert(s@).contains(x) by {
        let i = choose|i: int| 0 <= i < items.push(s).len() && (#[trigger] items.push(s)[i])@ == x;
        if i < items.len() {
            assert(items[i]@ == x);
        }
    }
    assert forall|x: Seq<char>| symbol_set(items).insert(s@).contains(x) implies symbol_set(
        items.push(s),
    ).contains(x) by {
        if symbol_set(items).contains(x) {
            let i = choose|i: int| 0 <= i < items.len() && (#[trigger] items[i])@ == x;
            assert(items.push(s)[i]@ == x);
        } else {
            assert(items.push(s)[items.len() as int]@ == x);
        }
    }
}

impl Registry {
    /// Created empty at process start.
    pub fn new() -> (r: Registry)
        ensures
            r@ =~= Set::<Seq<char>>::empty(),
    {
        Registry { symbols: Vec::new() }
    }

    /// How many symbols the registry holds.
    pub fn len(&self) -> (r: usize)
        ensures
            r as nat == self.spec_len(),
    {
        self.symbols.len()
    }

    pub closed spec fn spec_len(&self) -> nat {
        self.symbols@.len()
    }

    /// A single atomic read: is this (already normalized) symbol known?
    pub fn contains_symbol(&self, symbol: &String) -> (r: bool)
        ensures
            r == self@.contains(symbol@),
    {
        let mut i: usize = 0;
        while i < self.symbols.len()
            invariant
                i <= self.symbols@.len(),
                forall|k: int| 0 <= k < i ==> (#[trigger] self.symbols@[k])@ != symbol@,
            decreases self.symbols@.len() - i,
        {
            if self.symbols[i].eq(symbol) {
                return true;
            }
            i = i + 1;
        }
        false
    }

    /// Union a refresh's output into the registry: every already known
    /// symbol stays, every fetched symbol becomes known, nothing else
    /// appears. Returns how many symbols were new.
    pub fn extend_with(&mut self, items: &Vec<String>) -> (added: usize)
        ensures
            final(self)@ =~= old(self)@.union(symbol_set(items@)),
            forall|s: Seq<char>| old(self)@.contains(s) ==> final(self)@.contains(s),
            final(self).spec_len() == old(self).spec_len() + added,
    {
        let ghost orig = self.symbols@;
        let mut added: usize = 0;
        let mut k: usize = 0;
        while k < items.len()
            invariant
                k <= items@.len(),
                added <= k,
                self@ =~= symbol_set(orig).union(symbol_set(items@.take(k as int))),
                self.symbols@.len() == orig.len() + added,
            decreases items@.len() - k,
        {
            let ghost prev = self.symbols@;
            let s = items[k].clone();
            let known = self.contains_symbol(&s);
            if !known {
                self.symbols.push(s);
                added = added + 1;
            }
            proof {
                assert(items@.take(k + 1) =~= items@.take(k as int).push(items@[k as int]));
                lemma_symbol_set_push(items@.take(k as int), items@[k as int]);
                if !known {
                    lemma_symbol_set_push(prev, s);
                } else {
                    // The symbol was already visible, so the union absorbs it.
                    assert(symbol_set(prev).contains(items@[k as int]@));
                }
                assert(self@ =~= symbol_set(orig).union(symbol_set(items@.take(k + 1))));
            }
            k = k + 1;
        }
        proof {
            assert(items@.take(items@.len() as int) =~= items@);
        }
        added
    }

    /// One refresh cycle, applied to what the exchange returned: on
    /// success the kept rows are unioned in and the count of new symbols
    /// comes back; on failure the registry keeps its last-known state
    /// (stale-but-available) and the error is reported to the caller's
    /// sink.
    pub fn apply_refresh(&mut self, fetched: Result<Vec<BinanceExchangeSymbol>, String>) -> (r:
        Result<usize, ServiceError>)
        ensures
            match fetched {
                Ok(rows) => {
                    &&& final(self)@ =~= old(self)@.union(kept_symbol_set(rows@))
                    &&& r matches Ok(n) && final(self).spec_len() == old(self).spec_len() + n
                },
                Err(msg) => *final(self) == *old(self) && r == Err::<usize, ServiceError>(
                    ServiceError::Internal(msg),
                ),
            },
            forall|s: Seq<char>| old(self)@.contains(s) ==> final(self)@.contains(s),
    {
        match fetched {
            Ok(rows) => {
                let pairs = usdt_trading_pairs(&rows);
                proof {
                    lemma_pairs_set_is_kept_set(rows@, pairs@);
                }
                let added = self.extend_with(&pairs);
                Ok(added)
            },
            Err(msg) => Err(ServiceError::Internal(msg)),
        }
    }
}

/// The symbol names of the rows a refresh keeps.
pub open spec fn kept_symbol_set(rows: Seq<BinanceExchangeSymbol>) -> Set<Seq<char>> {
    Set::new(
        |x: Seq<char>|
            exists|i: int|
                0 <= i < rows.len() && row_kept(#[trigger] rows[i]) && rows[i].symbol@ == x,
    )
}

/// What `usdt_trading_pairs` returns denotes exactly the kept rows'
/// symbol names.
proof fn lemma_pairs_set_is_kept_set(rows: Seq<BinanceExchangeSymbol>, pairs: Seq<String>)
    requires
        pairs.len() == rows.filter(|x: BinanceExchangeSymbol| row_kept(x)).len(),
        forall|i: int|
            0 <= i < pairs.len() ==> (#[trigger] pairs[i])@ == rows.filter(
                |x: BinanceExchangeSymbol| row_kept(x),
            )[i].symbol@,
    ensures
        symbol_set(pairs) =~= kept_symbol_set(rows),
{
    let pred = |x: BinanceExchangeSymbol| row_kept(x);
    let kept = rows.filter(pred);
    assert forall|x: Seq<char>| symbol_set(pairs).contains(x) implies kept_symbol_set(
        rows,
    ).contains(x) by {
        let i = choose|i: int| 0 <= i < pairs.len() && (#[trigger] pairs[i])@ == x;
        rows.lemma_filter_pred(pred, i);
        assert(kept[i].symbol@ == x);
        assert(kept.contains(kept[i])) by {
            assert(kept[i] == kept[i]);
        }
        lemma_filter_elem_from_source(rows, kept[i]);
    }
    assert forall|x: Seq<char>| kept_symbol_set(rows).contains(x) implies symbol_set(
        pairs,
    ).contains(x) by {
        let i = choose|i: int|
            0 <= i < rows.len() && row_kept(#[trigger] rows[i]) && rows[i].symbol@ == x;
        rows.lemma_filter_contains(pred, i);
        let j = choose|j: int| 0 <= j < kept.len() && kept[j] == rows[i];
        assert(pairs[j]@ == x);
    }
}

/// An element of the filtered rows is itself a kept row of the source.
proof fn lemma_filter_elem_from_source(rows: Seq<BinanceExchangeSymbol>, e: BinanceExchangeSymbol)
    requires
        rows.filter(|x: BinanceExchangeSymbol| row_kept(x)).contains(e),
    ensures
        exists|i: int| 0 <= i < rows.len() && row_kept(#[trigger] rows[i]) && rows[i] == e,
    decreases rows.len(),
{
    reveal(Seq::filter);
    let pred = |x: BinanceExchangeSymbol| row_kept(x);
    if rows.len() == 0 {
    } else {
        let prefix = rows.drop_last();
        if pred(rows.last()) && e == rows.last() {
            assert(row_kept(rows[rows.len() - 1]));
        } else {
            let f = rows.filter(pred);
            let fp = prefix.filter(pred);
            if pred(rows.last()) {
                assert(f == fp.push(rows.last()));
                let k = choose|k: int| 0 <= k < f.len() && f[k] == e;
                assert(fp.contains(e)) by {
                    assert(fp[k] == e);
                }
            } else {
                assert(f == fp);
            }
            lemma_filter_elem_from_source(prefix, e);
            let i = choose|i: int| 0 <= i < prefix.len() && row_kept(#[trigger] prefix[i])
                && prefix[i] == e;
            assert(rows[i] == e);
            assert(row_kept(rows[i]));
        }
    }
}

/// Registry growth is monotone: whatever state `s0` the registry was in,
/// after refreshes contributing `a` and then `b`, the validate-visible set
/// contains all of `a` and `b`, and everything of `s0`: no refresh ever
/// removes a previously valid symbol.
pub proof fn lemma_registry_growth_monotone(
    s0: Set<Seq<char>>,
    a: Set<Seq<char>>,
    b: Set<Seq<char>>,
)
    ensures
        a.union(b).subset_of(s0.union(a).union(b)),
        s0.subset_of(s0.union(a).union(b)),
{
}

} // verus!
