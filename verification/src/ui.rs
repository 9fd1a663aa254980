//! The UI state machine: the reactive core of the viewer.
//!
//! A single owner of all mutable state consumes one message at a time,
//! folds it into the state and tells the caller what to do next: keep
//! going (and repaint), fetch a fresh bar series, halt on a protocol
//! error, or quit.  The renderers read the state; the only mutation a
//! render pass may cause is reporting the search selection back, which
//! the caller applies through [`UIState::select_symbol`] after the pass.

use vstd::prelude::*;
use crate::market::{Info, MarketMap, Update, in_catalog};
use crate::msg::{Bar, FeedPayload, Msg, RawTick};

verus! {

/// The closed set of views.
#[derive(Clone, Copy, Debug, PartialEq, Eq, Structural)]
pub enum UIView {
    /// The price list.
    PriceList,
    /// The price table.
    PriceTable,
    /// The time/price graph.
    Graph,
    /// The symbol search grid.
    Search,
    /// The initial view, before the catalog arrives.
    Empty,
    /// The help page.
    Help,
    /// The about page.
    About,
}

/// What the caller must do after a message was folded in.
pub enum Action {
    /// Nothing special: repaint and keep going.
    Continue,
    /// Fetch a fresh bar series for the symbol at the scale, then send
    /// the result back as a `Msg::Bars`.
    FetchBars { symbol: String, scale: u32 },
    /// A protocol error: the status line holds the offending payload and
    /// the message loop must stop.
    Halt,
    /// Leave the message loop.
    Quit,
}

/// The larger timestamp.
pub open spec fn max64(a: u64, b: u64) -> u64 {
    if a >= b { a } else { b }
}

/// The latest timestamp seen across a batch, starting from `base`.
pub open spec fn spec_max_ts(s: Seq<Update>, base: u64) -> u64
    decreases s.len(),
{
    if s.len() == 0 { base } else { spec_max_ts(s.skip(1), max64(base, s[0].ts)) }
}

/// What a batch leaves behind for one symbol: the left-to-right fold of
/// the per-tick update over the ticks bearing that symbol, started from
/// the symbol's entry (or the fresh sentinel state), applied only when
/// the symbol stands in the catalog.
pub open spec fn spec_apply_ticks(prev: Option<crate::market::MarketState>, cat: Seq<String>, ups: Seq<Update>, k: Seq<char>) -> Option<crate::market::MarketState>
    decreases ups.len(),
{
    if ups.len() == 0 {
        prev
    } else {
        let next = if ups[0].symbol@ == k && in_catalog(cat, k) {
            Some(crate::market::spec_update(
                match prev {
                    Some(s) => s,
                    None => crate::market::spec_new_market(),
                }, ups[0]))
        } else {
            prev
        };
        spec_apply_ticks(next, cat, ups.skip(1), k)
    }
}

/// The catalog entries that reach the display: every quote currency but
/// the fixed denylist of stablecoins.
pub open spec fn spec_display_infos(s: Seq<Info>) -> Seq<Info>
    decreases s.len(),
{
    if s.len() == 0 {
        Seq::empty()
    } else {
        let r = spec_display_infos(s.drop_last());
        if denied_quote(s.last().quote@) { r } else { r.push(s.last()) }
    }
}

/// The denylist of stablecoin quote currencies that stay off the display.
pub open spec fn denied_quote(q: Seq<char>) -> bool {
    q == seq!['T', 'U', 'S', 'D'] || q == seq!['B', 'U', 'S', 'D'] || q == seq!['U', 'S', 'D', 'C']
}

/// Whether the quote currency belongs to the display denylist.
fn is_denied_quote(s: &String) -> (r: bool)
    ensures r == denied_quote(s@),
{
    let t = s.as_str();
    if t.unicode_len() != 4 {
        proof {
            assert(s@.len() != 4);
        }
        return false;
    }
    let c0 = t.get_char(0);
    let c1 = t.get_char(1);
    let c2 = t.get_char(2);
    let c3 = t.get_char(3);
    let r = (c0 == 'T' && c1 == 'U' && c2 == 'S' && c3 == 'D')
        || (c0 == 'B' && c1 == 'U' && c2 == 'S' && c3 == 'D')
        || (c0 == 'U' && c1 == 'S' && c2 == 'D' && c3 == 'C');
    proof {
        if r {
            assert(s@ =~= seq![c0, c1, c2, c3]);
        } else {
            assert(s@ != seq!['T', 'U', 'S', 'D'] && s@ != seq!['B', 'U', 'S', 'D']
                && s@ != seq!['U', 'S', 'D', 'C']) by {
                assert(s@[0] == c0 && s@[1] == c1 && s@[2] == c2 && s@[3] == c3);
            }
        }
    }
    r
}

/// The root of all mutable state, owned by the message loop.
pub struct UIState {
    /// The status line.
    pub message: String,
    /// Rolling market state per symbol.
    pub markets: MarketMap,
    /// Measured feed latency, milliseconds.
    pub latency: u64,
    /// The active view.
    pub ui_mode: UIView,
    /// Where `Esc` goes back to, once set.
    pub ui_mode_back: Option<UIView>,
    /// Show percentages instead of prices in the list view.
    pub show_percent: bool,
    /// Extended (rather than reduced) table view.
    pub extended: bool,
    /// Event time of the latest market update.
    pub ts_last_update: u64,
    /// The full symbol catalog, for gating feed updates.
    pub catalog: Option<Vec<String>>,
    /// The displayed catalog: sorted by volume, denylist quotes dropped.
    pub infos: Option<Vec<Info>>,
    /// The current bar series of the graph view.
    pub klines: Option<Vec<Bar>>,
    /// The selected symbol.
    pub symbol: String,
    /// The graph time scale, `0` to `9`.
    pub time_scale: u32,
    /// Search cursor column.
    pub cursor_ix: u16,
    /// Search cursor row.
    pub cursor_iy: u16,
}

impl UIState {
    /// Structural soundness: the stores and every decimal are well-formed.
    pub open spec fn wf(self) -> bool {
        &&& self.markets.wf()
        &&& (self.infos is Some ==> forall|i: int| 0 <= i < self.infos->0@.len()
                ==> (#[trigger] self.infos->0@[i]).wf())
        &&& (self.klines is Some ==> forall|i: int| 0 <= i < self.klines->0@.len()
                ==> (#[trigger] self.klines->0@[i]).wf())
    }

    /// A fresh session: no data, the empty view, extended table, the
    /// default symbol selected.
    pub fn new() -> (r: Self)
        ensures
            r.wf(),
            r.ui_mode == UIView::Empty,
            r.ui_mode_back is None,
            r.show_percent == false,
            r.extended == true,
            r.latency == 0,
            r.ts_last_update == 0,
            r.catalog is None,
            r.infos is None,
            r.klines is None,
            r.time_scale == 0,
            r.cursor_ix == 0,
            r.cursor_iy == 0,
            r.message@ == Seq::<char>::empty(),
            forall|k: Seq<char>| #[trigger] r.markets.contents(k) is None,
    {
        UIState {
            message: String::new(),
            markets: MarketMap::new(),
            latency: 0,
            ui_mode: UIView::Empty,
            ui_mode_back: None,
            show_percent: false,
            extended: true,
            ts_last_update: 0,
            catalog: None,
            infos: None,
            klines: None,
            symbol: String::from_str("BTCUSDT"),
            time_scale: 0,
            cursor_ix: 0,
            cursor_iy: 0,
        }
    }

    /// Stores the symbol the search grid reported as selected.
    pub fn select_symbol(&mut self, sym: String)
        requires old(self).wf(),
        ensures
            final(self).wf(),
            *final(self) == (UIState { symbol: final(self).symbol, ..*old(self) }),
            final(self).symbol == sym,
    {
        self.symbol = sym;
    }

    /// Applies a parsed batch to the market store.  Updates are gated by
    /// the static catalog: a symbol outside it never creates nor mutates
    /// an entry, and without a catalog the batch is dropped whole.  The
    /// last-update time advances to the latest event time seen.
    fn apply_updates(&mut self, updates: &Vec<Update>)
        requires
            old(self).wf(),
            forall|i: int| 0 <= i < updates@.len() ==> (#[trigger] updates@[i]).wf(),
        ensures
            final(self).wf(),
            *final(self) == (UIState {
                markets: final(self).markets,
                ts_last_update: final(self).ts_last_update,
                ..*old(self)
            }),
            old(self).catalog is None ==> final(self).markets == old(self).markets
                && final(self).ts_last_update == old(self).ts_last_update,
            old(self).catalog is Some ==> final(self).ts_last_update
                == spec_max_ts(updates@, old(self).ts_last_update),
            old(self).catalog is Some ==> forall|k: Seq<char>|
                #[trigger] final(self).markets.contents(k)
                    == spec_apply_ticks(old(self).markets.contents(k), old(self).catalog->0@, updates@, k),
            forall|k: Seq<char>|
                (old(self).catalog is Some ==> !in_catalog(old(self).catalog->0@, k))
                    ==> #[trigger] final(self).markets.contents(k) == old(self).markets.contents(k),
    {
        let cat = match &self.catalog {
            Some(c) => c,
            None => {
                return;
            },
        };
        let mut i: usize = 0;
        proof {
            assert(updates@.skip(0) =~= updates@);
        }
        while i < updates.len()
            invariant
                i <= updates@.len(),
                forall|j: int| 0 <= j < updates@.len() ==> (#[trigger] updates@[j]).wf(),
                self.markets.wf(),
                old(self).catalog is Some,
                cat@ == old(self).catalog->0@,
                *self == (UIState {
                    markets: self.markets,
                    ts_last_update: self.ts_last_update,
                    ..*old(self)
                }),
                spec_max_ts(updates@, old(self).ts_last_update)
                    == spec_max_ts(updates@.skip(i as int), self.ts_last_update),
                forall|k: Seq<char>|
                    #[trigger] spec_apply_ticks(old(self).markets.contents(k), cat@, updates@, k)
                        == spec_apply_ticks(self.markets.contents(k), cat@, updates@.skip(i as int), k),
                forall|k: Seq<char>| !in_catalog(cat@, k)
                    ==> #[trigger] self.markets.contents(k) == old(self).markets.contents(k),
            decreases updates@.len() - i,
        {
            proof {
                assert(updates@.skip(i as int)[0] == updates@[i as int]);
                assert(updates@.skip(i as int).skip(1) =~= updates@.skip(i as int + 1));
            }
            let u = &updates[i];
            if u.ts > self.ts_last_update {
                self.ts_last_update = u.ts;
            }
            let ghost pre = self.markets;
            if crate::market::catalog_contains(cat, &u.symbol) {
                self.markets.apply(u);
            }
            proof {
                // one step of the fold, for every symbol at once
                assert forall|k: Seq<char>|
                    #[trigger] spec_apply_ticks(pre.contents(k), cat@, updates@.skip(i as int), k)
                        == spec_apply_ticks(self.markets.contents(k), cat@, updates@.skip(i as int + 1), k) by {
                    if u.symbol@ == k && in_catalog(cat@, k) {
                        assert(self.markets.contents(k) == Some(crate::market::spec_update(
                            match pre.contents(k) {
                                Some(s) => s,
                                None => crate::market::spec_new_market(),
                            }, *u)));
                    } else {
                        if in_catalog(cat@, u.symbol@) {
                            assert(self.markets.contents(k) == pre.contents(k));
                        } else {
                            assert(self.markets.contents(k) == pre.contents(k));
                        }
                    }
                }
            }
            i = i + 1;
        }
        proof {
            assert forall|k: Seq<char>|
                #[trigger] final(self).markets.contents(k)
                    == spec_apply_ticks(old(self).markets.contents(k), cat@, updates@, k) by {
                assert(spec_apply_ticks(self.markets.contents(k), cat@, updates@.skip(updates@.len() as int), k)
                    == self.markets.contents(k));
            }
        }
    }

    /// Installs the bootstrap catalog: the full symbol list gates feed
    /// updates, the display list drops the denylisted stablecoin quotes,
    /// and the view leaves the empty page for the price list.
    fn set_catalog(&mut self, infos: Vec<Info>)
        requires
            old(self).wf(),
            forall|i: int| 0 <= i < infos@.len() ==> (#[trigger] infos@[i]).wf(),
        ensures
            final(self).wf(),
            *final(self) == (UIState {
                catalog: final(self).catalog,
                infos: final(self).infos,
                ui_mode: UIView::PriceList,
                ..*old(self)
            }),
            final(self).catalog is Some,
            final(self).catalog->0@.len() == infos@.len(),
            forall|i: int| 0 <= i < infos@.len()
                ==> (#[trigger] final(self).catalog->0@[i])@ == infos@[i].symbol@,
            final(self).infos is Some,
            final(self).infos->0@ == spec_display_infos(infos@),
    {
        let mut cat: Vec<String> = Vec::new();
        let mut shown: Vec<Info> = Vec::new();
        let mut i: usize = 0;
        proof {
            assert(infos@.take(0) =~= Seq::<Info>::empty());
        }
        while i < infos.len()
            invariant
                i <= infos@.len(),
                forall|j: int| 0 <= j < infos@.len() ==> (#[trigger] infos@[j]).wf(),
                cat@.len() == i,
                forall|j: int| 0 <= j < i ==> (#[trigger] cat@[j])@ == infos@[j].symbol@,
                shown@ == spec_display_infos(infos@.take(i as int)),
                forall|j: int| 0 <= j < shown@.len() ==> (#[trigger] shown@[j]).wf(),
            decreases infos@.len() - i,
        {
            proof {
                assert(infos@.take(i as int + 1).drop_last() =~= infos@.take(i as int));
                assert(infos@.take(i as int + 1).last() == infos@[i as int]);
            }
            cat.push(infos[i].symbol.clone());
            if !is_denied_quote(&infos[i].quote) {
                shown.push(infos[i].clone());
            }
            i = i + 1;
        }
        proof {
            assert(infos@.take(infos@.len() as int) =~= infos@);
        }
        self.catalog = Some(cat);
        self.infos = Some(shown);
        self.ui_mode = UIView::PriceList;
    }

    /// Folds one feed frame in: a tick batch updates the market store, a
    /// bare number is a latency echo, and anything else is a protocol
    /// error that stores the payload and halts the loop.
    fn handle_ws(&mut self, recv_ts: u64, payload: FeedPayload) -> (r: Action)
        requires old(self).wf(),
        ensures final(self).wf(), ws_post(*old(self), *final(self), recv_ts, payload, r),
    {
        match payload {
            FeedPayload::Text(s) => {
                match crate::msg::parse_echo(s.as_str()) {
                    Some(ts) => {
                        self.latency = if recv_ts >= ts { recv_ts - ts } else { 0 };
                        Action::Continue
                    },
                    None => {
                        self.message = s;
                        Action::Halt
                    },
                }
            },
            FeedPayload::Ticks(ticks) => {
                let mut out: Vec<Update> = Vec::new();
                let mut i: usize = 0;
                proof {
                    assert(out@ =~= ticks@.take(0).map_values(|t: RawTick| crate::msg::spec_tick_update(t)));
                    assert(ticks@.skip(0) =~= ticks@);
                }
                while i < ticks.len()
                    invariant
                        old(self).wf(),
                        payload == FeedPayload::Ticks(ticks),
                        i <= ticks@.len(),
                        forall|j: int| 0 <= j < i ==> crate::fmt::spec_parse_dec((#[trigger] ticks@[j]).px@) is Some
                            && crate::fmt::spec_parse_dec(ticks@[j].px_24h@) is Some,
                        crate::msg::first_bad_price(ticks@)
                            == crate::msg::first_bad_price(ticks@.skip(i as int)),
                        out@ == ticks@.take(i as int).map_values(|t: RawTick| crate::msg::spec_tick_update(t)),
                        forall|j: int| 0 <= j < out@.len() ==> (#[trigger] out@[j]).wf(),
                        *self == *old(self),
                    decreases ticks@.len() - i,
                {
                    proof {
                        assert(ticks@.skip(i as int)[0] == ticks@[i as int]);
                        assert(ticks@.skip(i as int).skip(1) =~= ticks@.skip(i as int + 1));
                    }
                    let px = crate::fmt::parse_dec(ticks[i].px.as_str());
                    let px_24h = crate::fmt::parse_dec(ticks[i].px_24h.as_str());
                    match (px, px_24h) {
                        (Some(a), Some(b)) => {
                            out.push(Update {
                                symbol: ticks[i].symbol.clone(),
                                ts: ticks[i].ts,
                                px: a,
                                px_24h: b,
                            });
                            proof {
                                assert(out@ =~= ticks@.take(i as int + 1).map_values(|t: RawTick| crate::msg::spec_tick_update(t)));
                            }
                        },
                        (bad_px, _) => {
                            proof {
                                assert(!(crate::fmt::spec_parse_dec(ticks@[i as int].px@) is Some
                                    && crate::fmt::spec_parse_dec(ticks@[i as int].px_24h@) is Some));
                                assert(!crate::msg::ticks_ok(ticks@));
                            }
                            // the protocol error records the offending payload
                            self.message = if bad_px.is_none() {
                                ticks[i].px.clone()
                            } else {
                                ticks[i].px_24h.clone()
                            };
                            return Action::Halt;
                        },
                    }
                    i = i + 1;
                }
                proof {
                    assert(ticks@.take(ticks@.len() as int) =~= ticks@);
                }
                self.apply_updates(&out);
                Action::Continue
            },
        }
    }

    /// Consumes one message and mutates the state as the transition table
    /// prescribes, returning what the caller must do next.
    pub fn handle_msg(&mut self, msg: Msg) -> (r: Action)
        requires old(self).wf(), msg_wf(msg),
        ensures
            final(self).wf(),
            msg is Msg ==> *final(self) == (UIState { message: final(self).message, ..*old(self) })
                && final(self).message == msg->Msg_0 && r is Continue,
            msg is PriceList ==> *final(self) == (UIState {
                ui_mode: UIView::PriceList, message: final(self).message, ..*old(self) })
                && final(self).message@ == "Show price list"@ && r is Continue,
            msg is PriceTable ==> *final(self) == (UIState {
                ui_mode: UIView::PriceTable, message: final(self).message, ..*old(self) })
                && final(self).message@ == "Show price table"@ && r is Continue,
            msg is Help ==> *final(self) == (UIState { ui_mode: UIView::Help, ..*old(self) })
                && r is Continue,
            msg is About ==> *final(self) == (UIState { ui_mode: UIView::About, ..*old(self) })
                && r is Continue,
            msg is TogglePercent ==> *final(self) == (UIState {
                show_percent: !old(self).show_percent, ..*old(self) }) && r is Continue,
            msg is ToggleExtended ==> *final(self) == (UIState {
                extended: !old(self).extended, ..*old(self) }) && r is Continue,
            msg is Search ==> *final(self) == (UIState {
                ui_mode: UIView::Search, ui_mode_back: Some(old(self).ui_mode),
                message: final(self).message, ..*old(self) })
                && final(self).message@ == "Select symbol"@ && r is Continue,
            msg is ArrowUp ==> r is Continue && *final(self) == (
                if old(self).ui_mode == UIView::Search && old(self).cursor_iy > 0 {
                    UIState { cursor_iy: (old(self).cursor_iy - 1) as u16, ..*old(self) }
                } else { *old(self) }),
            msg is ArrowDown ==> r is Continue && *final(self) == (
                if old(self).ui_mode == UIView::Search && old(self).cursor_iy < u16::MAX {
                    UIState { cursor_iy: (old(self).cursor_iy + 1) as u16, ..*old(self) }
                } else { *old(self) }),
            msg is ArrowLeft ==> r is Continue && *final(self) == (
                if old(self).ui_mode == UIView::Search && old(self).cursor_ix > 0 {
                    UIState { cursor_ix: (old(self).cursor_ix - 1) as u16, ..*old(self) }
                } else { *old(self) }),
            msg is ArrowRight ==> r is Continue && *final(self) == (
                if old(self).ui_mode == UIView::Search && old(self).cursor_ix < u16::MAX {
                    UIState { cursor_ix: (old(self).cursor_ix + 1) as u16, ..*old(self) }
                } else { *old(self) }),
            msg is Home ==> r is Continue && *final(self) == (
                if old(self).ui_mode == UIView::Search {
                    UIState { cursor_ix: 0, cursor_iy: 0, ..*old(self) }
                } else { *old(self) }),
            msg is Esc ==> r is Continue && *final(self) == (UIState {
                ui_mode: match old(self).ui_mode_back {
                    Some(v) => v,
                    None => old(self).ui_mode,
                }, ..*old(self) }),
            msg is Stop ==> *final(self) == *old(self) && r is Quit,
            msg is Graph ==> *final(self) == (UIState {
                time_scale: match msg->Graph_0 { Some(v) => v, None => old(self).time_scale },
                ui_mode: UIView::Graph,
                ..*old(self) })
                && r is FetchBars && r->FetchBars_symbol@ == old(self).symbol@
                && r->FetchBars_scale == final(self).time_scale,
            msg is Enter ==> (if old(self).ui_mode == UIView::Search {
                *final(self) == (UIState {
                    ui_mode: UIView::Graph, ui_mode_back: Some(UIView::Search),
                    message: final(self).message, ..*old(self) })
                && final(self).message@ == "Graph "@ + old(self).symbol@
                && r is FetchBars && r->FetchBars_symbol@ == old(self).symbol@
                && r->FetchBars_scale == old(self).time_scale
            } else {
                *final(self) == *old(self) && r is Continue
            }),
            msg is Bars ==> *final(self) == (UIState {
                klines: Some(msg->Bars_0), ui_mode: UIView::Graph, ..*old(self) })
                && r is Continue,
            msg is Infos ==> r is Continue
                && *final(self) == (UIState {
                    catalog: final(self).catalog, infos: final(self).infos,
                    ui_mode: UIView::PriceList, ..*old(self) })
                && final(self).catalog is Some
                && final(self).catalog->0@.len() == msg->Infos_0@.len()
                && (forall|i: int| 0 <= i < msg->Infos_0@.len()
                    ==> (#[trigger] final(self).catalog->0@[i])@ == msg->Infos_0@[i].symbol@)
                && final(self).infos is Some
                && final(self).infos->0@ == spec_display_infos(msg->Infos_0@),
            msg is WS ==> ws_post(*old(self), *final(self), msg->WS_0, msg->WS_1, r),
    {
        match msg {
            Msg::WS(recv_ts, payload) => self.handle_ws(recv_ts, payload),
            Msg::Infos(infos) => {
                self.set_catalog(infos);
                Action::Continue
            },
            Msg::Msg(s) => {
                self.message = s;
                Action::Continue
            },
            Msg::Bars(bars) => {
                self.klines = Some(bars);
                self.ui_mode = UIView::Graph;
                Action::Continue
            },
            Msg::PriceList => {
                self.ui_mode = UIView::PriceList;
                self.message = String::from_str("Show price list");
                Action::Continue
            },
            Msg::PriceTable => {
                self.ui_mode = UIView::PriceTable;
                self.message = String::from_str("Show price table");
                Action::Continue
            },
            Msg::Graph(scale) => {
                match scale {
                    Some(v) => {
                        self.time_scale = v;
                    },
                    None => {},
                }
                self.ui_mode = UIView::Graph;
                Action::FetchBars { symbol: self.symbol.clone(), scale: self.time_scale }
            },
            Msg::TogglePercent => {
                self.show_percent = !self.show_percent;
                Action::Continue
            },
            Msg::ToggleExtended => {
                self.extended = !self.extended;
                Action::Continue
            },
            Msg::Search => {
                self.ui_mode_back = Some(self.ui_mode);
                self.ui_mode = UIView::Search;
                self.message = String::from_str("Select symbol");
                Action::Continue
            },
            Msg::ArrowUp => {
                if self.ui_mode == UIView::Search && self.cursor_iy > 0 {
                    self.cursor_iy = self.cursor_iy - 1;
                }
                Action::Continue
            },
            Msg::ArrowDown => {
                if self.ui_mode == UIView::Search && self.cursor_iy < u16::MAX {
                    // the grid bounds are enforced by the renderer
                    self.cursor_iy = self.cursor_iy + 1;
                }
                Action::Continue
            },
            Msg::ArrowLeft => {
                if self.ui_mode == UIView::Search && self.cursor_ix > 0 {
                    self.cursor_ix = self.cursor_ix - 1;
                }
                Action::Continue
            },
            Msg::ArrowRight => {
                if self.ui_mode == UIView::Search && self.cursor_ix < u16::MAX {
                    self.cursor_ix = self.cursor_ix + 1;
                }
                Action::Continue
            },
            Msg::Home => {
                if self.ui_mode == UIView::Search {
                    self.cursor_ix = 0;
                    self.cursor_iy = 0;
                }
                Action::Continue
            },
            Msg::Enter => {
                if self.ui_mode == UIView::Search {
                    let mut m = String::from_str("Graph ");
                    m.append(self.symbol.as_str());
                    self.message = m;
                    self.ui_mode_back = Some(UIView::Search);
                    self.ui_mode = UIView::Graph;
                    Action::FetchBars { symbol: self.symbol.clone(), scale: self.time_scale }
                } else {
                    Action::Continue
                }
            },
            Msg::Help => {
                self.ui_mode = UIView::Help;
                Action::Continue
            },
            Msg::About => {
                self.ui_mode = UIView::About;
                Action::Continue
            },
            Msg::Esc => {
                match self.ui_mode_back {
                    Some(v) => {
                        self.ui_mode = v;
                    },
                    None => {},
                }
                Action::Continue
            },
            Msg::Stop => Action::Quit,
        }
    }
}

/// Payload soundness of a message: every decimal it carries is well-formed.
pub open spec fn msg_wf(m: Msg) -> bool {
    match m {
        Msg::Infos(infos) => forall|i: int| 0 <= i < infos@.len() ==> (#[trigger] infos@[i]).wf(),
        Msg::Bars(bars) => forall|i: int| 0 <= i < bars@.len() ==> (#[trigger] bars@[i]).wf(),
        _ => true,
    }
}

/// What folding a feed frame in guarantees, over the state before (`o`)
/// and after (`f`): a parsed batch reaches the market store gated by the
/// catalog, a latency echo updates the measured latency, and anything
/// else halts with the payload on the status line.
pub open spec fn ws_post(o: UIState, f: UIState, recv: u64, p: FeedPayload, r: Action) -> bool {
    match p {
        FeedPayload::Text(s) => {
            match crate::msg::spec_parse_echo(s@) {
                Some(ts) => f == (UIState { latency: f.latency, ..o })
                    && f.latency == (if recv >= ts { (recv - ts) as u64 } else { 0 })
                    && r is Continue,
                None => f == (UIState { message: f.message, ..o })
                    && f.message@ == s@ && r is Halt,
            }
        },
        FeedPayload::Ticks(ticks) => {
            if crate::msg::ticks_ok(ticks@) {
                let ups = ticks@.map_values(|t: RawTick| crate::msg::spec_tick_update(t));
                &&& f == (UIState { markets: f.markets, ts_last_update: f.ts_last_update, ..o })
                &&& (o.catalog is None ==> f.markets == o.markets
                        && f.ts_last_update == o.ts_last_update)
                &&& (o.catalog is Some ==> f.ts_last_update == spec_max_ts(ups, o.ts_last_update))
                &&& (o.catalog is Some ==> forall|k: Seq<char>|
                        #[trigger] f.markets.contents(k)
                            == spec_apply_ticks(o.markets.contents(k), o.catalog->0@, ups, k))
                &&& (forall|k: Seq<char>|
                        (o.catalog is Some ==> !in_catalog(o.catalog->0@, k))
                            ==> #[trigger] f.markets.contents(k) == o.markets.contents(k))
                &&& r is Continue
            } else {
                f == (UIState { message: f.message, ..o })
                    && f.message@ == crate::msg::first_bad_price(ticks@) && r is Halt
            }
        },
    }
}

} // verus!
