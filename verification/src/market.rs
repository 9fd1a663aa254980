//! Per-symbol market data.
//!
//! An [`Info`] is the static catalog record of one tradable symbol; a
//! [`MarketState`] is the rolling per-symbol state fed by ticker
//! updates, keeping the current price, the price just before it (for
//! direction coloring), the 24-hour reference price and the last update
//! time.  A [`MarketMap`] holds one `MarketState` per symbol.

use vstd::prelude::*;
use crate::decimal::{
    Dec, COEF_MAX, iabs, pow10, lemma_fin_val_sign, lemma_pow10_adds,
    lemma_pow10_increases, lemma_pow10_pos, lemma_pow10_vals,
    spec_div, spec_mul100, spec_sub,
};
use crate::fmt::{
    fit6, spec_fmt_dec, plain_chars, strip0, strip0_count,
    chars_to_string, fit6_chars, fmt_dec, lemma_dec_digits_len,
};

verus! {

/// The reference stablecoin ticker, as characters.
pub open spec fn usdt_chars() -> Seq<char> {
    seq!['U', 'S', 'D', 'T']
}

/// Whether a symbol string is the reference stablecoin ticker.
pub fn is_usdt(s: &String) -> (r: bool)
    ensures r == (s@ == usdt_chars()),
{
    let t = s.as_str();
    let r = t.unicode_len() == 4
        && t.get_char(0) == 'U'
        && t.get_char(1) == 'S'
        && t.get_char(2) == 'D'
        && t.get_char(3) == 'T';
    proof {
        if r {
            assert(s@ =~= usdt_chars());
        }
        if s@ == usdt_chars() {
            assert(s@.len() == 4);
        }
    }
    r
}

/// Static descriptive record of one tradable symbol: the full pair, its
/// base and quote assets, and its 24-hour traded volume normalized to
/// the reference stablecoin for ranking.
pub struct Info {
    pub symbol: String,
    pub base: String,
    pub quote: String,
    pub volume: Dec,
}

impl Info {
    pub open spec fn wf(self) -> bool {
        self.volume.wf()
    }

    /// The display name: the base asset when quoted in the reference
    /// stablecoin, the full pair otherwise.
    pub fn short_symbol(&self) -> (r: &String)
        ensures
            r@ == if self.quote@ == usdt_chars() { self.base@ } else { self.symbol@ },
    {
        if is_usdt(&self.quote) { &self.base } else { &self.symbol }
    }
}

impl Clone for Info {
    /// An exact copy, field by field.
    fn clone(&self) -> (r: Self)
        ensures r == *self,
    {
        Info {
            symbol: self.symbol.clone(),
            base: self.base.clone(),
            quote: self.quote.clone(),
            volume: self.volume,
        }
    }
}

/// One incoming tick: symbol, event time in milliseconds, current price
/// and the price 24 hours earlier.
pub struct Update {
    pub symbol: String,
    pub ts: u64,
    pub px: Dec,
    pub px_24h: Dec,
}

impl Update {
    pub open spec fn wf(self) -> bool {
        self.px.wf() && self.px_24h.wf()
    }
}

/// Which way a price moved, for coloring.
#[derive(Clone, Copy, Debug, PartialEq, Eq, Structural)]
pub enum Direction {
    Up,
    Down,
    Flat,
}

/// The rolling market state of one symbol.
#[derive(Clone, Copy)]
pub struct MarketState {
    /// Current price.
    pub px: Dec,
    /// Event time of the latest update, milliseconds.
    pub ts: u64,
    /// The price just before the latest update.
    pub last_px: Dec,
    /// The price 24 hours before the latest update.
    pub px_24h: Dec,
}

/// What one update does to a market state: the stored price becomes the
/// previous price, and price, reference and time are taken from the tick.
pub open spec fn spec_update(s: MarketState, u: Update) -> MarketState {
    MarketState { px: u.px, ts: u.ts, last_px: s.px, px_24h: u.px_24h }
}

/// The percentage change a state shows: `(last_px - px_24h) / px_24h`
/// times one hundred, in the truncating decimal arithmetic.
pub open spec fn spec_pct_value(last: Dec, ref24: Dec) -> Dec {
    spec_mul100(spec_div(spec_sub(last, ref24), ref24))
}

/// The sentinel state before any update: prices unknown, time zero.
pub open spec fn spec_new_market() -> MarketState {
    MarketState { px: Dec::Nan, ts: 0, last_px: Dec::Nan, px_24h: Dec::Nan }
}

impl MarketState {
    pub open spec fn wf(self) -> bool {
        self.px.wf() && self.last_px.wf() && self.px_24h.wf()
    }

    /// A fresh state: all prices are the "no data yet" sentinel, so the
    /// first tick never renders a false direction.
    pub fn new() -> (r: Self)
        ensures r == spec_new_market(), r.wf(),
    {
        MarketState { px: Dec::Nan, ts: 0, last_px: Dec::Nan, px_24h: Dec::Nan }
    }

    /// Applies one tick: the current price slides into the previous
    /// price, and price, 24-hour reference and time come from the tick.
    pub fn update(&mut self, u: &Update)
        requires old(self).wf(), u.wf(),
        ensures *final(self) == spec_update(*old(self), *u), final(self).wf(),
    {
        self.last_px = self.px;
        self.px = u.px;
        self.px_24h = u.px_24h;
        self.ts = u.ts;
    }

    /// The compactly formatted current price.
    pub fn price_string(&self) -> (r: String)
        requires self.wf(),
        ensures r@ == spec_fmt_dec(self.px),
    {
        fmt_dec(self.px)
    }

    /// The percentage change since the 24-hour reference, computed from
    /// the previous price: `(last_px - px_24h) / px_24h * 100`.
    pub fn percentage_value(&self) -> (r: Dec)
        requires self.wf(),
        ensures
            r == spec_pct_value(self.last_px, self.px_24h),
            r.wf(),
            (self.last_px is Nan || self.px_24h is Nan) ==> r is Nan,
            (self.last_px is Inf || self.px_24h is Inf) ==> !(r is Fin),
            (self.last_px.is_fin() && self.px_24h.is_fin() && self.px_24h.val() == 0)
                ==> !(r is Fin),
            (self.last_px.is_fin() && self.px_24h.is_fin() && self.px_24h.val() != 0
                && -100 <= self.last_px->Fin_e <= 100 && -100 <= self.px_24h->Fin_e <= 100)
                ==> r.is_fin(),
            (self.last_px.is_fin() && self.px_24h.is_fin() && self.px_24h.val() > 0
                && -100 <= self.last_px->Fin_e <= 100 && -100 <= self.px_24h->Fin_e <= 100)
                ==> ((r.val() > 0) <==> self.last_px.val() > self.px_24h.val())
                    && ((r.val() == 0) <==> self.last_px.val() == self.px_24h.val()),
    {
        let diff = self.last_px.sub(&self.px_24h);
        proof {
            if self.last_px.is_fin() && self.px_24h.is_fin() && self.px_24h.val() != 0
                && -100 <= self.last_px->Fin_e <= 100 && -100 <= self.px_24h->Fin_e <= 100 {
                let ea = self.last_px->Fin_e as int;
                let eb = self.px_24h->Fin_e as int;
                let va = self.last_px.val();
                let vb = self.px_24h.val();
                lemma_fin_val_sign(self.last_px->Fin_m as int, ea);
                lemma_fin_val_sign(self.px_24h->Fin_m as int, eb);
                lemma_pow10_vals();
                lemma_pow10_pos((ea + 400) as nat);
                lemma_pow10_pos((eb + 400) as nat);
                lemma_pow10_pos(500);
                // the exact difference is far below the overflow bound
                assert(iabs(va) <= COEF_MAX * pow10(500)) by {
                    vstd::arithmetic::mul::lemma_mul_inequality(iabs(self.last_px->Fin_m as int), COEF_MAX as int, pow10((ea + 400) as nat));
                    vstd::arithmetic::mul::lemma_mul_unary_negation(self.last_px->Fin_m as int, pow10((ea + 400) as nat));
                    if ea + 400 < 500 {
                        lemma_pow10_increases((ea + 400) as nat, 500);
                    }
                    vstd::arithmetic::mul::lemma_mul_left_inequality(COEF_MAX as int, pow10((ea + 400) as nat), pow10(500));
                }
                assert(iabs(vb) <= COEF_MAX * pow10(500)) by {
                    vstd::arithmetic::mul::lemma_mul_inequality(iabs(self.px_24h->Fin_m as int), COEF_MAX as int, pow10((eb + 400) as nat));
                    vstd::arithmetic::mul::lemma_mul_unary_negation(self.px_24h->Fin_m as int, pow10((eb + 400) as nat));
                    if eb + 400 < 500 {
                        lemma_pow10_increases((eb + 400) as nat, 500);
                    }
                    vstd::arithmetic::mul::lemma_mul_left_inequality(COEF_MAX as int, pow10((eb + 400) as nat), pow10(500));
                }
                assert(2 * (COEF_MAX * pow10(500)) <= COEF_MAX * pow10(800)) by {
                    lemma_pow10_adds(1, 500);
                    lemma_pow10_increases(501, 800);
                    lemma_pow10_pos(800);
                    vstd::arithmetic::mul::lemma_mul_left_inequality(COEF_MAX as int, pow10(501), pow10(800));
                    assert(COEF_MAX * (10 * pow10(500)) == 10 * (COEF_MAX * pow10(500))) by (nonlinear_arith) {}
                }
                assert(iabs(va - vb) <= COEF_MAX * pow10(800));
                assert(diff.is_fin());
                if diff->Fin_m == 0 {
                } else {
                    lemma_fin_val_sign(diff->Fin_m as int, diff->Fin_e as int);
                }
            }
        }
        let p = diff.div(&self.px_24h);
        p.mul100()
    }

    /// The percentage string: always exactly six characters wide,
    /// right-justified, with a leading `+` for positive values and the
    /// placeholder dash when the percentage is not a finite number.
    pub fn percentage_string(&self) -> (r: String)
        requires self.wf(),
        ensures
            r@ == fit6(spec_pct_chars(spec_pct_value(self.last_px, self.px_24h))),
            r@.len() == 6,
            (self.last_px is Nan || self.px_24h is Nan
                || self.last_px is Inf || self.px_24h is Inf
                || (self.last_px.is_fin() && self.px_24h.is_fin() && self.px_24h.val() == 0))
                ==> r@ == fit6(seq!['-']),
            (self.last_px.is_fin() && self.px_24h.is_fin() && self.px_24h.val() != 0
                && -100 <= self.last_px->Fin_e <= 100 && -100 <= self.px_24h->Fin_e <= 100)
                ==> r@ != fit6(seq!['-']),
    {
        let p = self.percentage_value();
        let r = format_pct(p);
        proof {
            if !(p is Fin) {
                assert(spec_pct_chars(p) == seq!['-']);
            } else {
                lemma_pct_chars_not_dash(p);
            }
        }
        r
    }

    /// The direction of the latest tick: current price against the price
    /// just before it.
    pub fn style(&self) -> (r: Direction)
        requires self.wf(),
        ensures
            r == (if self.last_px.spec_lt(self.px) { Direction::Up }
                  else if self.px.spec_lt(self.last_px) { Direction::Down }
                  else { Direction::Flat }),
    {
        if self.px.gt(&self.last_px) {
            Direction::Up
        } else if self.px.lt(&self.last_px) {
            Direction::Down
        } else {
            Direction::Flat
        }
    }

    /// The direction against the 24-hour reference price, for coloring
    /// the percentage column; note the different comparison pair.
    pub fn style_percent(&self) -> (r: Direction)
        requires self.wf(),
        ensures
            r == (if self.px_24h.spec_lt(self.px) { Direction::Up }
                  else if self.px.spec_lt(self.px_24h) { Direction::Down }
                  else { Direction::Flat }),
    {
        if self.px.gt(&self.px_24h) {
            Direction::Up
        } else if self.px.lt(&self.px_24h) {
            Direction::Down
        } else {
            Direction::Flat
        }
    }
}

/// Law: after two consecutive updates carrying prices `p1` then `p2`,
/// the previous price equals `p1` and the current price equals `p2`,
/// whatever state the symbol started in.
pub proof fn lemma_previous_tracks_price(s: MarketState, u1: Update, u2: Update)
    ensures
        spec_update(spec_update(s, u1), u2).last_px == u1.px,
        spec_update(spec_update(s, u1), u2).px == u2.px,
{
}

/// Whether a symbol occurs in the static catalog.
pub open spec fn in_catalog(cat: Seq<String>, sym: Seq<char>) -> bool {
    exists|i: int| 0 <= i < cat.len() && cat[i]@ == sym
}

/// Scans the static catalog for a symbol.
pub fn catalog_contains(cat: &Vec<String>, sym: &String) -> (r: bool)
    ensures r == in_catalog(cat@, sym@),
{
    let mut i: usize = 0;
    while i < cat.len()
        invariant
            i <= cat@.len(),
            forall|j: int| 0 <= j < i ==> cat@[j]@ != sym@,
        decreases cat@.len() - i,
    {
        if (&cat[i]).eq(sym) {
            return true;
        }
        i = i + 1;
    }
    false
}

/// Looks a key up in an association sequence, front to back.
pub open spec fn assoc_lookup(s: Seq<(String, MarketState)>, k: Seq<char>) -> Option<MarketState>
    decreases s.len(),
{
    if s.len() == 0 {
        None
    } else if s[0].0@ == k {
        Some(s[0].1)
    } else {
        assoc_lookup(s.skip(1), k)
    }
}

/// No two entries share a key.
pub open spec fn assoc_unique(s: Seq<(String, MarketState)>) -> bool {
    forall|i: int, j: int| 0 <= i < j < s.len() ==> s[i].0@ != s[j].0@
}

/// A key that occurs nowhere looks up to nothing.
proof fn lemma_assoc_absent(s: Seq<(String, MarketState)>, k: Seq<char>)
    requires forall|j: int| 0 <= j < s.len() ==> s[j].0@ != k,
    ensures assoc_lookup(s, k) is None,
    decreases s.len(),
{
    if s.len() > 0 {
        assert(forall|j: int| 0 <= j < s.skip(1).len() ==> s.skip(1)[j] == s[j + 1]);
        lemma_assoc_absent(s.skip(1), k);
    }
}

/// The first entry bearing the key decides the lookup.
proof fn lemma_assoc_found(s: Seq<(String, MarketState)>, k: Seq<char>, i: int)
    requires
        0 <= i < s.len(),
        forall|j: int| 0 <= j < i ==> s[j].0@ != k,
        s[i].0@ == k,
    ensures assoc_lookup(s, k) == Some(s[i].1),
    decreases i,
{
    if i > 0 {
        assert(forall|j: int| 0 <= j < s.skip(1).len() ==> s.skip(1)[j] == s[j + 1]);
        lemma_assoc_found(s.skip(1), k, i - 1);
    }
}

/// Replacing one entry with another of the same key leaves every other
/// key's lookup unchanged.
proof fn lemma_assoc_update_other(s: Seq<(String, MarketState)>, i: int, e: (String, MarketState), k: Seq<char>)
    requires
        0 <= i < s.len(),
        e.0@ == s[i].0@,
        k != e.0@,
    ensures assoc_lookup(s.update(i, e), k) == assoc_lookup(s, k),
    decreases i,
{
    let s2 = s.update(i, e);
    if i == 0 {
        assert(s2.skip(1) =~= s.skip(1));
    } else {
        assert(s2[0] == s[0]);
        assert(s2.skip(1) =~= s.skip(1).update(i - 1, e));
        lemma_assoc_update_other(s.skip(1), i - 1, e, k);
    }
}

/// Appending an entry only affects the lookup of keys that were absent.
proof fn lemma_assoc_push(s: Seq<(String, MarketState)>, e: (String, MarketState), k: Seq<char>)
    ensures
        assoc_lookup(s.push(e), k) == (if assoc_lookup(s, k) is Some { assoc_lookup(s, k) }
            else if e.0@ == k { Some(e.1) } else { None::<MarketState> }),
    decreases s.len(),
{
    if s.len() == 0 {
        assert(s.push(e)[0] == e);
        assert(s.push(e).skip(1) =~= Seq::<(String, MarketState)>::empty());
        assert(assoc_lookup(Seq::<(String, MarketState)>::empty(), k) is None);
        assert(assoc_lookup(s.push(e).skip(1), k) is None);
        assert(assoc_lookup(s.push(e), k) == (if e.0@ == k { Some(e.1) } else { None::<MarketState> }));
    } else {
        assert(s.push(e)[0] == s[0]);
        assert(s.push(e).skip(1) =~= s.skip(1).push(e));
        lemma_assoc_push(s.skip(1), e, k);
        assert(s.push(e).len() != 0);
        if s[0].0@ == k {
            assert(assoc_lookup(s.push(e), k) == Some(s[0].1));
            assert(assoc_lookup(s, k) == Some(s[0].1));
        } else {
            assert(assoc_lookup(s.push(e), k) == assoc_lookup(s.skip(1).push(e), k));
            assert(assoc_lookup(s, k) == assoc_lookup(s.skip(1), k));
        }
    }
}

/// The per-symbol market store: one rolling state per symbol, keyed by
/// the full symbol string.
pub struct MarketMap {
    entries: Vec<(String, MarketState)>,
}

impl MarketMap {
    /// Keys are unique and every stored state is well-formed.
    pub closed spec fn wf(self) -> bool {
        assoc_unique(self.entries@)
            && forall|i: int| 0 <= i < self.entries@.len() ==> (#[trigger] self.entries@[i].1).wf()
    }

    /// What the store holds for a symbol.
    pub closed spec fn contents(self, k: Seq<char>) -> Option<MarketState> {
        assoc_lookup(self.entries@, k)
    }

    /// How many symbols hold a state.
    pub closed spec fn spec_len(self) -> nat {
        self.entries@.len()
    }

    /// An empty store.
    pub fn new() -> (r: Self)
        ensures
            r.wf(),
            forall|k: Seq<char>| #[trigger] r.contents(k) is None,
            r.spec_len() == 0,
    {
        MarketMap { entries: Vec::new() }
    }

    /// The number of symbols that hold a state.
    pub fn len(&self) -> (r: usize)
        ensures r as nat == self.spec_len(),
    {
        self.entries.len()
    }

    /// Finds the index of a symbol's entry, if any.
    fn find(&self, sym: &String) -> (r: Option<usize>)
        ensures
            r is Some ==> {
                let i = r->0 as int;
                &&& 0 <= i < self.entries@.len()
                &&& self.entries@[i].0@ == sym@
                &&& forall|j: int| 0 <= j < i ==> self.entries@[j].0@ != sym@
            },
            r is None ==> forall|j: int| 0 <= j < self.entries@.len()
                ==> self.entries@[j].0@ != sym@,
    {
        let mut i: usize = 0;
        while i < self.entries.len()
            invariant
                i <= self.entries@.len(),
                forall|j: int| 0 <= j < i ==> self.entries@[j].0@ != sym@,
            decreases self.entries@.len() - i,
        {
            if (&self.entries[i].0).eq(sym) {
                return Some(i);
            }
            i = i + 1;
        }
        None
    }

    /// Reads the state stored for a symbol.
    pub fn get(&self, sym: &String) -> (r: Option<&MarketState>)
        ensures
            match r {
                Some(st) => self.contents(sym@) == Some(*st),
                None => self.contents(sym@) is None,
            },
            self.wf() && r is Some ==> r->0.wf(),
    {
        match self.find(sym) {
            Some(i) => {
                proof {
                    lemma_assoc_found(self.entries@, sym@, i as int);
                }
                Some(&self.entries[i].1)
            },
            None => {
                proof {
                    lemma_assoc_absent(self.entries@, sym@);
                }
                None
            },
        }
    }

    /// Applies one tick to the symbol's state, starting from the sentinel
    /// state when the symbol has no entry yet.
    pub fn apply(&mut self, u: &Update)
        requires old(self).wf(), u.wf(),
        ensures
            final(self).wf(),
            final(self).contents(u.symbol@) == Some(spec_update(
                match old(self).contents(u.symbol@) {
                    Some(prev) => prev,
                    None => spec_new_market(),
                }, *u)),
            forall|k: Seq<char>| k != u.symbol@
                ==> #[trigger] final(self).contents(k) == old(self).contents(k),
    {
        match self.find(&u.symbol) {
            Some(i) => {
                proof {
                    lemma_assoc_found(self.entries@, u.symbol@, i as int);
                }
                let mut st = self.entries[i].1;
                st.update(u);
                let key = u.symbol.clone();
                let ghost olds = self.entries@;
                self.entries[i] = (key, st);
                proof {
                    let news = self.entries@;
                    assert(news == olds.update(i as int, (news[i as int].0, st)));
                    assert(news[i as int].0@ == u.symbol@);
                    lemma_assoc_found(news, u.symbol@, i as int);
                    assert forall|k: Seq<char>| k != u.symbol@
                        implies #[trigger] assoc_lookup(news, k) == assoc_lookup(olds, k) by {
                        lemma_assoc_update_other(olds, i as int, news[i as int], k);
                    }
                }
            },
            None => {
                proof {
                    lemma_assoc_absent(self.entries@, u.symbol@);
                }
                let mut st = MarketState::new();
                st.update(u);
                let key = u.symbol.clone();
                let ghost olds = self.entries@;
                self.entries.push((key, st));
                proof {
                    let news = self.entries@;
                    let e = news.last();
                    assert(news == olds.push(e));
                    assert(e.0@ == u.symbol@ && e.1 == st);
                    assert forall|k: Seq<char>| true
                        implies #[trigger] assoc_lookup(news, k) == (
                            if assoc_lookup(olds, k) is Some { assoc_lookup(olds, k) }
                            else if k == u.symbol@ { Some(st) } else { None::<MarketState> }) by {
                        lemma_assoc_push(olds, e, k);
                    }
                    assert(assoc_unique(news)) by {
                        assert(forall|j: int| 0 <= j < olds.len() ==> news[j] == olds[j]);
                    }
                }
            },
        }
    }
}

/// The characters of a rendered percentage before fitting: the
/// placeholder dash when not finite, otherwise the signed plain
/// rendering of the stripped coefficient, a `+` marking positives.
pub open spec fn spec_pct_chars(p: Dec) -> Seq<char> {
    match p {
        Dec::Nan => seq!['-'],
        Dec::Inf { .. } => seq!['-'],
        Dec::Fin { m, e } => {
            if m == 0 {
                seq!['0']
            } else {
                let sign: Seq<char> = if m < 0 { seq!['-'] } else { seq!['+'] };
                let u0 = crate::decimal::iabs(m as int) as nat;
                sign + plain_chars(strip0(u0), e + strip0_count(u0))
            }
        },
    }
}

/// A finite percentage never renders as the bare placeholder.
proof fn lemma_pct_chars_not_dash(p: Dec)
    requires p is Fin,
    ensures fit6(spec_pct_chars(p)) != fit6(seq!['-']),
{
    let s = spec_pct_chars(p);
    let dash = fit6(seq!['-']);
    assert(dash.len() == 6);
    assert(dash[0] == ' ' && dash[1] == ' ' && dash[2] == ' ' && dash[3] == ' '
        && dash[4] == ' ' && dash[5] == '-');
    if p->Fin_m == 0 {
        assert(fit6(s).len() == 6);
        assert(fit6(s)[5] == '0');
        assert(fit6(s) != dash);
    } else {
        // the rendering starts with a sign immediately left of at least
        // one more character, so some position before the last is no blank
        assert(s[0] == '-' || s[0] == '+');
        assert(s.len() >= 2) by {
            lemma_dec_digits_len(strip0(crate::decimal::iabs(p->Fin_m as int) as nat));
        }
        let t = if s.len() > 6 { s.take(6) } else { s };
        assert(2 <= t.len() <= 6);
        let p0 = 6 - t.len();
        assert(fit6(s)[p0] == t[0]);
        assert(t[0] == s[0]);
        assert(p0 <= 4);
        assert(fit6(s) != dash);
    }
}

/// Formats an already computed percentage into its fixed-width cell.
pub fn format_pct(p: Dec) -> (r: String)
    requires p.wf(),
    ensures r@ == fit6(spec_pct_chars(p)), r@.len() == 6,
{
    let mut cs: Vec<char> = Vec::new();
    match p {
        Dec::Nan => {
            cs.push('-');
            proof {
                assert(cs@ =~= spec_pct_chars(p));
            }
        },
        Dec::Inf { .. } => {
            cs.push('-');
            proof {
                assert(cs@ =~= spec_pct_chars(p));
            }
        },
        Dec::Fin { m, e } => {
            if m == 0 {
                cs.push('0');
                proof {
                    assert(cs@ =~= spec_pct_chars(p));
                }
            } else {
                if m < 0 {
                    cs.push('-');
                } else {
                    cs.push('+');
                }
                let u0: u64 = if m < 0 { (-m) as u64 } else { m as u64 };
                let (u, k) = crate::fmt::strip_zeros(u0);
                proof {
                    crate::fmt::lemma_strip0_nonzero(u0 as nat);
                    crate::fmt::lemma_strip0_le(u0 as nat);
                }
                crate::fmt::push_plain(u, e + k as i32, &mut cs);
                proof {
                    assert(cs@ =~= spec_pct_chars(p));
                }
            }
        },
    }
    let out = fit6_chars(cs);
    chars_to_string(&out)
}

} // verus!
