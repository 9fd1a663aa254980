//! The message protocol of the UI core.
//!
//! Keyboard input, feed frames and the one-shot bootstrap all reach the
//! state machine as values of one closed message type, so the reactive
//! loop is a single exhaustive dispatch.

use vstd::prelude::*;
use crate::decimal::Dec;
use crate::market::{Info, Update};

verus! {

/// One OHLC bar over a fixed time bucket, ascending by `t` in a series.
#[derive(Clone, Copy)]
pub struct Bar {
    /// Bucket-open timestamp, milliseconds.
    pub t: u64,
    pub o: Dec,
    pub h: Dec,
    pub l: Dec,
    pub c: Dec,
}

impl Bar {
    pub open spec fn wf(self) -> bool {
        self.o.wf() && self.h.wf() && self.l.wf() && self.c.wf()
    }
}

/// One raw tick as the transport hands it over: the prices still strings.
pub struct RawTick {
    pub symbol: String,
    pub ts: u64,
    pub px: String,
    pub px_24h: String,
}

/// A feed frame, already framed by the transport: either a batch of raw
/// ticks, or any other payload text (a latency echo, or garbage).
pub enum FeedPayload {
    Ticks(Vec<RawTick>),
    Text(String),
}

/// Messages that the UI state machine consumes.
pub enum Msg {
    /// A feed frame with its receive time in milliseconds.
    WS(u64, FeedPayload),
    /// The bootstrap catalog, sorted by normalized volume descending.
    Infos(Vec<Info>),
    /// A status line replacement.
    Msg(String),
    /// A freshly fetched bar series for the current symbol and scale.
    Bars(Vec<Bar>),
    /// Show the price list.
    PriceList,
    /// Show the price table.
    PriceTable,
    /// Show the graph at the given time scale, or the stored one.
    Graph(Option<u32>),
    /// Flip between price and percentage display.
    TogglePercent,
    /// Flip between the extended and the reduced table.
    ToggleExtended,
    /// Open the symbol search.
    Search,
    ArrowUp,
    ArrowDown,
    ArrowLeft,
    ArrowRight,
    /// Reset the search cursor to the top-left symbol.
    Home,
    /// Confirm the search selection.
    Enter,
    /// Show the help page.
    Help,
    /// Show the about page.
    About,
    /// Go back to the previous view.
    Esc,
    /// Terminate the message loop.
    Stop,
}

/// The update a raw tick stands for, where both prices parse.
pub open spec fn spec_tick_update(t: RawTick) -> Update {
    Update {
        symbol: t.symbol,
        ts: t.ts,
        px: crate::fmt::spec_parse_dec(t.px@)->0,
        px_24h: crate::fmt::spec_parse_dec(t.px_24h@)->0,
    }
}

/// The text of the first price field that fails to parse in a batch.
pub open spec fn first_bad_price(s: Seq<RawTick>) -> Seq<char>
    decreases s.len(),
{
    if s.len() == 0 {
        Seq::empty()
    } else if !(crate::fmt::spec_parse_dec(s[0].px@) is Some) {
        s[0].px@
    } else if !(crate::fmt::spec_parse_dec(s[0].px_24h@) is Some) {
        s[0].px_24h@
    } else {
        first_bad_price(s.skip(1))
    }
}

/// Whether every tick of a batch carries parseable prices.
pub open spec fn ticks_ok(s: Seq<RawTick>) -> bool {
    forall|i: int| 0 <= i < s.len() ==> crate::fmt::spec_parse_dec((#[trigger] s[i]).px@) is Some
        && crate::fmt::spec_parse_dec(s[i].px_24h@) is Some
}

/// Parses one raw tick into an update; the symbol carries over and both
/// prices must be decimal literals.
pub fn parse_tick(t: &RawTick) -> (r: Option<Update>)
    ensures
        r is Some <==> (crate::fmt::spec_parse_dec(t.px@) is Some
            && crate::fmt::spec_parse_dec(t.px_24h@) is Some),
        r is Some ==> r->0 == spec_tick_update(*t) && r->0.wf(),
{
    let px = match crate::fmt::parse_dec(t.px.as_str()) {
        Some(d) => d,
        None => { return None; },
    };
    let px_24h = match crate::fmt::parse_dec(t.px_24h.as_str()) {
        Some(d) => d,
        None => { return None; },
    };
    Some(Update { symbol: t.symbol.clone(), ts: t.ts, px, px_24h })
}

/// Parses a latency echo: a payload that is nothing but an unsigned
/// decimal number, the echoed send time in milliseconds.
pub open spec fn spec_parse_echo(s: Seq<char>) -> Option<u64> {
    if s.len() >= 1 && (forall|i: int| 0 <= i < s.len() ==> crate::fmt::is_digit_char(s[i]))
        && echo_val(s) <= u64::MAX {
        Some(echo_val(s) as u64)
    } else {
        None
    }
}

/// The numeric value of a digit string.
pub open spec fn echo_val(s: Seq<char>) -> nat
    decreases s.len(),
{
    if s.len() == 0 {
        0
    } else {
        echo_val(s.drop_last()) * 10 + crate::fmt::char_digit(s.last())
    }
}

/// Parses the decimal digits of a latency echo into a timestamp.
pub fn parse_echo(s: &str) -> (r: Option<u64>)
    ensures r == spec_parse_echo(s@),
{
    let n = s.unicode_len();
    if n == 0 {
        return None;
    }
    let mut i: usize = 0;
    let mut acc: u64 = 0;
    proof {
        assert(s@.take(0) =~= Seq::<char>::empty());
    }
    while i < n
        invariant
            0 <= i <= n,
            n == s@.len(),
            acc as nat == echo_val(s@.take(i as int)),
            forall|j: int| 0 <= j < i ==> crate::fmt::is_digit_char(s@[j]),
        decreases n - i,
    {
        let c = s.get_char(i);
        let d = match crate::fmt::digit_val_of(c) {
            Some(d) => d,
            None => {
                proof {
                    lemma_echo_prefix_bound(s@, i as int);
                }
                return None;
            },
        };
        if acc > (u64::MAX - d) / 10 {
            // the echoed number does not fit a timestamp
            proof {
                assert(s@.take(i as int + 1).drop_last() =~= s@.take(i as int));
                assert(s@.take(i as int + 1).last() == s@[i as int]);
                assert(echo_val(s@.take(i as int + 1)) > u64::MAX);
                lemma_echo_extends(s@, i as int + 1);
            }
            return None;
        }
        proof {
            assert(s@.take(i as int + 1).drop_last() =~= s@.take(i as int));
            assert(s@.take(i as int + 1).last() == s@[i as int]);
        }
        acc = acc * 10 + d;
        i = i + 1;
    }
    proof {
        assert(s@.take(n as int) =~= s@);
    }
    Some(acc)
}

/// The feed's interval code for a graph time scale: the ten scales run
/// from one-minute to one-day buckets; anything above the last scale
/// clamps to one day.
pub fn interval_label(scale: u32) -> (r: String)
    ensures
        scale == 0 ==> r@ == "1m"@,
        scale == 1 ==> r@ == "3m"@,
        scale == 2 ==> r@ == "5m"@,
        scale == 3 ==> r@ == "15m"@,
        scale == 4 ==> r@ == "30m"@,
        scale == 5 ==> r@ == "1h"@,
        scale == 6 ==> r@ == "2h"@,
        scale == 7 ==> r@ == "4h"@,
        scale == 8 ==> r@ == "12h"@,
        scale >= 9 ==> r@ == "1d"@,
{
    match scale {
        0 => String::from_str("1m"),
        1 => String::from_str("3m"),
        2 => String::from_str("5m"),
        3 => String::from_str("15m"),
        4 => String::from_str("30m"),
        5 => String::from_str("1h"),
        6 => String::from_str("2h"),
        7 => String::from_str("4h"),
        8 => String::from_str("12h"),
        _ => String::from_str("1d"),
    }
}

/// A digit string's value only grows as more digits arrive.
proof fn lemma_echo_extends(s: Seq<char>, i: int)
    requires 0 <= i <= s.len(),
    ensures echo_val(s) >= echo_val(s.take(i)),
    decreases s.len() - i,
{
    if i < s.len() {
        lemma_echo_extends(s, i + 1);
        assert(s.take(i + 1).drop_last() =~= s.take(i));
        assert(echo_val(s.take(i + 1)) == echo_val(s.take(i)) * 10 + crate::fmt::char_digit(s.take(i + 1).last()));
    } else {
        assert(s.take(i) =~= s);
    }
}

/// A non-digit at any position rejects the whole echo.
proof fn lemma_echo_prefix_bound(s: Seq<char>, i: int)
    requires 0 <= i < s.len(), !crate::fmt::is_digit_char(s[i]),
    ensures spec_parse_echo(s) is None,
{
}

} // verus!
