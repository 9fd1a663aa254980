//! Bootstrap catalog assembly.
//!
//! The one-shot bootstrap hands over the raw exchange rows; this module
//! keeps the symbols that are trading and have a market, normalizes each
//! 24-hour volume to the reference stablecoin (going through the quote
//! asset's own stablecoin pair where needed), and sorts the catalog by
//! that volume, largest first.

use vstd::prelude::*;
use vstd::multiset::Multiset;
use crate::decimal::Dec;
use crate::market::{Info, is_usdt};

verus! {

/// One row of the exchange information: a symbol and its assets.
pub struct RawSymbol {
    pub symbol: String,
    pub base: String,
    pub quote: String,
    /// The listing status, `TRADING` for tradable symbols.
    pub status: String,
}

/// One row of the 24-hour ticker: last price and quote volume.
pub struct RawMarket {
    pub symbol: String,
    pub price: Dec,
    pub volume: Dec,
}

impl RawMarket {
    pub open spec fn wf(self) -> bool {
        self.price.wf() && self.volume.wf()
    }
}

/// The `TRADING` status, as characters.
pub open spec fn trading_chars() -> Seq<char> {
    seq!['T', 'R', 'A', 'D', 'I', 'N', 'G']
}

/// Whether a status string marks a tradable symbol.
fn is_trading(s: &String) -> (r: bool)
    ensures r == (s@ == trading_chars()),
{
    let t = s.as_str();
    let r = t.unicode_len() == 7
        && t.get_char(0) == 'T' && t.get_char(1) == 'R' && t.get_char(2) == 'A'
        && t.get_char(3) == 'D' && t.get_char(4) == 'I' && t.get_char(5) == 'N'
        && t.get_char(6) == 'G';
    proof {
        if r {
            assert(s@ =~= trading_chars());
        }
        if s@ == trading_chars() {
            assert(s@.len() == 7);
        }
    }
    r
}

/// The first market row bearing a symbol, if any.
pub open spec fn spec_find_market(ms: Seq<RawMarket>, sym: Seq<char>) -> Option<RawMarket>
    decreases ms.len(),
{
    if ms.len() == 0 {
        None
    } else if ms[0].symbol@ == sym {
        Some(ms[0])
    } else {
        spec_find_market(ms.skip(1), sym)
    }
}

/// Finds the first market row of a symbol.
fn find_market<'a>(markets: &'a Vec<RawMarket>, sym: &String) -> (r: Option<&'a RawMarket>)
    ensures
        match r {
            Some(m) => spec_find_market(markets@, sym@) == Some(*m),
            None => spec_find_market(markets@, sym@) is None,
        },
{
    let mut i: usize = 0;
    proof {
        assert(markets@.skip(0) =~= markets@);
    }
    while i < markets.len()
        invariant
            i <= markets@.len(),
            spec_find_market(markets@, sym@) == spec_find_market(markets@.skip(i as int), sym@),
        decreases markets@.len() - i,
    {
        proof {
            assert(markets@.skip(i as int)[0] == markets@[i as int]);
            assert(markets@.skip(i as int).skip(1) =~= markets@.skip(i as int + 1));
        }
        if (&markets[i].symbol).eq(sym) {
            return Some(&markets[i]);
        }
        i = i + 1;
    }
    proof {
        assert(markets@.skip(markets@.len() as int).len() == 0);
    }
    None
}

/// A found market row inherits well-formedness from the table.
proof fn lemma_find_market_wf(ms: Seq<RawMarket>, sym: Seq<char>)
    requires forall|i: int| 0 <= i < ms.len() ==> (#[trigger] ms[i]).wf(),
    ensures spec_find_market(ms, sym) is Some ==> spec_find_market(ms, sym)->0.wf(),
    decreases ms.len(),
{
    if ms.len() > 0 && ms[0].symbol@ != sym {
        assert(forall|i: int| 0 <= i < ms.skip(1).len() ==> ms.skip(1)[i] == ms[i + 1]);
        lemma_find_market_wf(ms.skip(1), sym);
    }
}

/// The catalog row an exchange row yields, if any: the row must be
/// trading and have a market; the volume is the market's quote volume,
/// taken through the quote asset's stablecoin pair when the quote is not
/// the reference stablecoin itself.
pub open spec fn spec_catalog_row(s: RawSymbol, ms: Seq<RawMarket>) -> Option<Info> {
    if s.status@ != trading_chars() {
        None
    } else {
        match spec_find_market(ms, s.symbol@) {
            None => None,
            Some(mkt) => {
                if s.quote@ == crate::market::usdt_chars() {
                    Some(Info { symbol: s.symbol, base: s.base, quote: s.quote, volume: mkt.volume })
                } else {
                    match spec_find_market(ms, s.quote@ + crate::market::usdt_chars()) {
                        None => None,
                        Some(mkt2) => Some(Info {
                            symbol: s.symbol,
                            base: s.base,
                            quote: s.quote,
                            volume: crate::decimal::spec_mul(mkt.volume, mkt2.price),
                        }),
                    }
                }
            },
        }
    }
}

/// Every catalog row, in exchange order.
pub open spec fn spec_catalog_rows(ss: Seq<RawSymbol>, ms: Seq<RawMarket>) -> Seq<Info>
    decreases ss.len(),
{
    if ss.len() == 0 {
        Seq::empty()
    } else {
        let r = spec_catalog_rows(ss.drop_last(), ms);
        match spec_catalog_row(ss.last(), ms) {
            Some(info) => r.push(info),
            None => r,
        }
    }
}

/// Descending by volume: no earlier entry is worth less than a later one.
pub open spec fn sorted_by_volume_desc(s: Seq<Info>) -> bool {
    forall|i: int, j: int| 0 <= i < j < s.len()
        ==> !(#[trigger] s[i]).volume.spec_lt((#[trigger] s[j]).volume)
}

/// Builds the catalog: trading symbols with a market row, each carrying
/// its 24-hour volume normalized to the reference stablecoin (through
/// the quote asset's stablecoin pair when the quote is something else;
/// a quote with no such pair drops the symbol), sorted by that volume
/// descending.
pub fn build_catalog(symbols: &Vec<RawSymbol>, markets: &Vec<RawMarket>) -> (r: Vec<Info>)
    requires
        forall|i: int| 0 <= i < markets@.len() ==> (#[trigger] markets@[i]).wf(),
    ensures
        forall|i: int| 0 <= i < r@.len() ==> (#[trigger] r@[i]).wf(),
        r@.to_multiset() == spec_catalog_rows(symbols@, markets@).to_multiset(),
        r@.len() == spec_catalog_rows(symbols@, markets@).len(),
        sorted_by_volume_desc(r@),
{
    let mut out: Vec<Info> = Vec::new();
    let mut i: usize = 0;
    proof {
        assert(out@ =~= spec_catalog_rows(symbols@.take(0), markets@));
        reveal_strlit("USDT");
        assert("USDT"@ =~= crate::market::usdt_chars());
    }
    while i < symbols.len()
        invariant
            i <= symbols@.len(),
            "USDT"@ == crate::market::usdt_chars(),
            forall|k: int| 0 <= k < markets@.len() ==> (#[trigger] markets@[k]).wf(),
            forall|j: int| 0 <= j < out@.len() ==> (#[trigger] out@[j]).wf(),
            out@ == spec_catalog_rows(symbols@.take(i as int), markets@),
        decreases symbols@.len() - i,
    {
        proof {
            assert(symbols@.take(i as int + 1).drop_last() =~= symbols@.take(i as int));
            assert(symbols@.take(i as int + 1).last() == symbols@[i as int]);
        }
        let s = &symbols[i];
        proof {
            lemma_find_market_wf(markets@, s.symbol@);
        }
        if is_trading(&s.status) {
            match find_market(markets, &s.symbol) {
                Some(mkt) => {
                    if is_usdt(&s.quote) {
                        out.push(Info {
                            symbol: s.symbol.clone(),
                            base: s.base.clone(),
                            quote: s.quote.clone(),
                            volume: mkt.volume,
                        });
                    } else {
                        // normalize through the quote asset's stablecoin pair
                        let mut usdt_sym = s.quote.clone();
                        usdt_sym.append("USDT");
                        proof {
                            lemma_find_market_wf(markets@, usdt_sym@);
                        }
                        let vol = mkt.volume;
                        match find_market(markets, &usdt_sym) {
                            Some(mkt2) => {
                                out.push(Info {
                                    symbol: s.symbol.clone(),
                                    base: s.base.clone(),
                                    quote: s.quote.clone(),
                                    volume: vol.mul(&mkt2.price),
                                });
                            },
                            None => {},
                        }
                    }
                },
                None => {},
            }
        }
        i = i + 1;
        proof {
            assert(out@ =~= spec_catalog_rows(symbols@.take(i as int), markets@));
        }
    }
    proof {
        assert(symbols@.take(symbols@.len() as int) =~= symbols@);
    }
    sort_by_volume(out)
}

/// Sorts a catalog by volume, largest first, by repeatedly selecting a
/// largest remaining entry; the result holds exactly the input entries.
fn sort_by_volume(v: Vec<Info>) -> (r: Vec<Info>)
    requires
        forall|i: int| 0 <= i < v@.len() ==> (#[trigger] v@[i]).wf(),
    ensures
        r@.to_multiset() == v@.to_multiset(),
        r@.len() == v@.len(),
        sorted_by_volume_desc(r@),
        forall|i: int| 0 <= i < r@.len() ==> (#[trigger] r@[i]).wf(),
{
    let mut src = v;
    let mut out: Vec<Info> = Vec::new();
    proof {
        out@.to_multiset_ensures();
        src@.to_multiset_ensures();
        assert(out@.to_multiset().add(src@.to_multiset()) =~= v@.to_multiset());
    }
    while src.len() > 0
        invariant
            out@.to_multiset().add(src@.to_multiset()) == v@.to_multiset(),
            out@.len() + src@.len() == v@.len(),
            sorted_by_volume_desc(out@),
            forall|a: int, b: int| 0 <= a < out@.len() && 0 <= b < src@.len()
                ==> !(#[trigger] out@[a]).volume.spec_lt((#[trigger] src@[b]).volume),
            forall|i: int| 0 <= i < out@.len() ==> (#[trigger] out@[i]).wf(),
            forall|i: int| 0 <= i < src@.len() ==> (#[trigger] src@[i]).wf(),
        decreases src@.len(),
    {
        // pick a largest remaining entry
        let mut best: usize = 0;
        let mut j: usize = 1;
        while j < src.len()
            invariant
                src@.len() > 0,
                j <= src@.len(),
                best < src@.len(),
                forall|i: int| 0 <= i < src@.len() ==> (#[trigger] src@[i]).wf(),
                forall|k: int| 0 <= k < j ==> !(#[trigger] src@[(best as int)]).volume.spec_lt(src@[k].volume),
            decreases src@.len() - j,
        {
            if src[best].volume.lt(&src[j].volume) {
                proof {
                    lemma_not_lt_transfer(src@, best as int, j as int);
                }
                best = j;
            }
            j = j + 1;
        }
        let ghost olds = src@;
        let ghost oldo = out@;
        let x = src.remove(best);
        out.push(x);
        proof {
            olds.to_multiset_ensures();
            oldo.to_multiset_ensures();
            assert(olds.remove(best as int) == src@);
            assert(src@.to_multiset() =~= olds.to_multiset().remove(x));
            assert(olds.to_multiset().contains(x)) by {
                assert(olds[best as int] == x);
                assert(olds.contains(x));
            }
            assert(out@ == oldo.push(x));
            assert(out@.to_multiset() =~= oldo.to_multiset().insert(x));
            assert(out@.to_multiset().add(src@.to_multiset()) =~= v@.to_multiset());
            // the removed entries keep their facts through the index shift
            assert(forall|m: int| 0 <= m < src@.len()
                ==> #[trigger] src@[m] == (if m < best as int { olds[m] } else { olds[m + 1] }));
        }
    }
    proof {
        src@.to_multiset_ensures();
        assert(src@.to_multiset() =~= Multiset::<Info>::empty()) by {
            assert(src@.to_multiset().len() == 0);
        }
        assert(out@.to_multiset().add(Multiset::<Info>::empty()) =~= out@.to_multiset());
    }
    out
}

/// Replacing the running maximum keeps it no smaller than everything
/// scanned so far.
proof fn lemma_not_lt_transfer(s: Seq<Info>, best: int, j: int)
    requires
        0 <= best < s.len(),
        0 <= j < s.len(),
        s[best].volume.spec_lt(s[j].volume),
        forall|k: int| 0 <= k < j ==> !(#[trigger] s[best]).volume.spec_lt(s[k].volume),
    ensures
        forall|k: int| 0 <= k < j + 1 ==> !(#[trigger] s[j]).volume.spec_lt(s[k].volume),
{
    assert forall|k: int| 0 <= k < j + 1 implies !(#[trigger] s[j]).volume.spec_lt(s[k].volume) by {
        if k < j && s[j].volume.spec_lt(s[k].volume) {
            // both comparisons force finite values, where the order is total
            assert(s[best].volume is Fin || s[best].volume is Inf);
            assert(false);
        }
    }
}

} // verus!
