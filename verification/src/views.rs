//! Pure view renderers.
//!
//! Each renderer maps a slice of the state to a plain layout value; no
//! renderer mutates anything.  The terminal drawing of these layouts,
//! colors and box lines included, happens outside the verified core.

use vstd::prelude::*;
use crate::decimal::Dec;
use crate::market::{Direction, Info, MarketMap, spec_pct_value, spec_pct_chars, usdt_chars};
use crate::msg::Bar;
use crate::fmt::{fit6, spec_fmt_dec};
use crate::nice::dec_nice_range;

verus! {

/// One rendered row of the price list: the display name, the price or
/// percentage cell, and the direction that colors it.
pub struct Row {
    pub name: String,
    pub cell: String,
    pub dir: Direction,
}

/// The direction of a state's price against its previous price.
pub open spec fn spec_price_dir(st: crate::market::MarketState) -> Direction {
    if st.last_px.spec_lt(st.px) { Direction::Up }
    else if st.px.spec_lt(st.last_px) { Direction::Down }
    else { Direction::Flat }
}

/// The direction of a state's price against its 24-hour reference.
pub open spec fn spec_pct_dir(st: crate::market::MarketState) -> Direction {
    if st.px_24h.spec_lt(st.px) { Direction::Up }
    else if st.px.spec_lt(st.px_24h) { Direction::Down }
    else { Direction::Flat }
}

/// Renders the price list: one row per displayed symbol, carrying the
/// display name, the price (or six-character percentage) and a direction.
pub fn price_list_rows(infos: &Vec<Info>, markets: &MarketMap, show_percent: bool) -> (r: Vec<Row>)
    requires
        markets.wf(),
        forall|i: int| 0 <= i < infos@.len() ==> (#[trigger] infos@[i]).wf(),
    ensures
        r@.len() == infos@.len(),
        forall|i: int| 0 <= i < infos@.len() ==> {
            let info = infos@[i];
            let row = #[trigger] r@[i];
            &&& row.name@ == (if info.quote@ == usdt_chars() { info.base@ } else { info.symbol@ })
            &&& match markets.contents(info.symbol@) {
                None => row.cell@ == seq!['-'] && row.dir == Direction::Flat,
                Some(st) => {
                    &&& (!show_percent ==> row.cell@ == spec_fmt_dec(st.px)
                            && row.dir == spec_price_dir(st))
                    &&& (show_percent ==> row.cell@
                            == fit6(spec_pct_chars(spec_pct_value(st.last_px, st.px_24h)))
                            && row.dir == spec_pct_dir(st))
                },
            }
        },
{
    let mut out: Vec<Row> = Vec::new();
    let mut i: usize = 0;
    while i < infos.len()
        invariant
            markets.wf(),
            forall|j: int| 0 <= j < infos@.len() ==> (#[trigger] infos@[j]).wf(),
            i <= infos@.len(),
            out@.len() == i,
            forall|j: int| 0 <= j < i ==> {
                let info = infos@[j];
                let row = #[trigger] out@[j];
                &&& row.name@ == (if info.quote@ == usdt_chars() { info.base@ } else { info.symbol@ })
                &&& match markets.contents(info.symbol@) {
                    None => row.cell@ == seq!['-'] && row.dir == Direction::Flat,
                    Some(st) => {
                        &&& (!show_percent ==> row.cell@ == spec_fmt_dec(st.px)
                                && row.dir == spec_price_dir(st))
                        &&& (show_percent ==> row.cell@
                                == fit6(spec_pct_chars(spec_pct_value(st.last_px, st.px_24h)))
                                && row.dir == spec_pct_dir(st))
                    },
                }
            },
        decreases infos@.len() - i,
    {
        let info = &infos[i];
        let name = info.short_symbol().clone();
        proof {
            reveal_strlit("-");
            assert("-"@ =~= seq!['-']);
        }
        let row = match markets.get(&info.symbol) {
            None => Row { name, cell: String::from_str("-"), dir: Direction::Flat },
            Some(st) => {
                if show_percent {
                    Row { name, cell: st.percentage_string(), dir: st.style_percent() }
                } else {
                    Row { name, cell: st.price_string(), dir: st.style() }
                }
            },
        };
        out.push(row);
        i = i + 1;
    }
    out
}

/// First occurrences of each element, in order.
pub open spec fn spec_uniq(s: Seq<Seq<char>>) -> Seq<Seq<char>>
    decreases s.len(),
{
    if s.len() == 0 {
        Seq::empty()
    } else {
        let r = spec_uniq(s.drop_last());
        if r.contains(s.last()) { r } else { r.push(s.last()) }
    }
}

/// Deduplicates symbol strings, keeping the first occurrence order.
fn uniq_strings(src: Vec<String>) -> (r: Vec<String>)
    ensures r@.map_values(|s: String| s@) == spec_uniq(src@.map_values(|s: String| s@)),
{
    let mut out: Vec<String> = Vec::new();
    let mut i: usize = 0;
    proof {
        assert(src@.take(0).map_values(|s: String| s@) =~= Seq::<Seq<char>>::empty());
    }
    while i < src.len()
        invariant
            i <= src@.len(),
            out@.map_values(|s: String| s@) == spec_uniq(src@.take(i as int).map_values(|s: String| s@)),
        decreases src@.len() - i,
    {
        let mut seen = false;
        let mut j: usize = 0;
        while j < out.len() && !seen
            invariant
                i < src@.len(),
                j <= out@.len(),
                !seen ==> forall|k: int| 0 <= k < j ==> (#[trigger] out@[k])@ != src@[i as int]@,
                seen ==> exists|k: int| 0 <= k < out@.len() && (#[trigger] out@[k])@ == src@[i as int]@,
            decreases out@.len() - j,
        {
            if (&out[j]).eq(&src[i]) {
                seen = true;
            }
            j = j + 1;
        }
        proof {
            let om = out@.map_values(|s: String| s@);
            let pm = src@.take(i as int + 1).map_values(|s: String| s@);
            assert(src@.take(i as int + 1).drop_last() =~= src@.take(i as int));
            assert(pm.drop_last() =~= src@.take(i as int).map_values(|s: String| s@));
            assert(pm.last() == src@[i as int]@);
            assert(seen <==> om.contains(src@[i as int]@)) by {
                if seen {
                    let k = choose|k: int| 0 <= k < out@.len() && (#[trigger] out@[k])@ == src@[i as int]@;
                    assert(om[k] == src@[i as int]@);
                }
                if om.contains(src@[i as int]@) {
                    let k = choose|k: int| 0 <= k < om.len() && om[k] == src@[i as int]@;
                    assert((out@[k])@ == src@[i as int]@);
                }
            }
        }
        if !seen {
            out.push(src[i].clone());
            proof {
                assert(out@.map_values(|s: String| s@)
                    =~= spec_uniq(src@.take(i as int + 1).map_values(|s: String| s@)));
            }
        }
        i = i + 1;
        proof {
            assert(out@.map_values(|s: String| s@)
                =~= spec_uniq(src@.take(i as int).map_values(|s: String| s@)));
        }
    }
    proof {
        assert(src@.take(src@.len() as int) =~= src@);
    }
    out
}

/// Widget `PriceTable`: the cross table of base and quote assets.  The
/// rows are the base assets in catalog order, the columns the quote
/// assets; the reduced view keeps only the first four quote columns.
pub struct PriceTable {
    /// Quote assets, first occurrences in catalog order.
    pub quotes: Vec<String>,
    /// Base assets, first occurrences in catalog order.
    pub bases: Vec<String>,
    /// Show percentages instead of prices in the cells.
    pub show_percent: bool,
    /// All quote columns rather than the first four.
    pub extended: bool,
}

impl PriceTable {
    /// Lays the table out from the displayed catalog.
    pub fn new(infos: &Vec<Info>, show_percent: bool, extended: bool) -> (r: PriceTable)
        ensures
            r.show_percent == show_percent,
            r.extended == extended,
            r.bases@.map_values(|s: String| s@)
                == spec_uniq(infos@.map_values(|i: Info| i.base@)),
            ({
                let qs = spec_uniq(infos@.map_values(|i: Info| i.quote@));
                r.quotes@.map_values(|s: String| s@)
                    == if extended || qs.len() <= 4 { qs } else { qs.take(4) }
            }),
    {
        let mut quotes_src: Vec<String> = Vec::new();
        let mut bases_src: Vec<String> = Vec::new();
        let mut i: usize = 0;
        while i < infos.len()
            invariant
                i <= infos@.len(),
                quotes_src@.len() == i,
                bases_src@.len() == i,
                forall|j: int| 0 <= j < i ==> (#[trigger] quotes_src@[j])@ == infos@[j].quote@,
                forall|j: int| 0 <= j < i ==> (#[trigger] bases_src@[j])@ == infos@[j].base@,
            decreases infos@.len() - i,
        {
            quotes_src.push(infos[i].quote.clone());
            bases_src.push(infos[i].base.clone());
            i = i + 1;
        }
        proof {
            assert(quotes_src@.map_values(|s: String| s@)
                =~= infos@.map_values(|x: Info| x.quote@));
            assert(bases_src@.map_values(|s: String| s@)
                =~= infos@.map_values(|x: Info| x.base@));
        }
        let mut quotes = uniq_strings(quotes_src);
        let bases = uniq_strings(bases_src);
        if !extended && quotes.len() > 4 {
            let ghost before = quotes@;
            quotes.truncate(4);
            proof {
                assert(quotes@.map_values(|s: String| s@)
                    =~= before.map_values(|s: String| s@).take(4));
            }
        }
        PriceTable { quotes, bases, show_percent, extended }
    }

    /// The full symbol a cell stands for: the base followed by the quote.
    pub fn cell_symbol(&self, base: &String, quote: &String) -> (r: String)
        ensures r@ == base@ + quote@,
    {
        let mut s = base.clone();
        s.append(quote.as_str());
        s
    }
}

/// The symbol index under a search grid cursor: symbols fill columns top
/// to bottom, `rows` to a column, columns left to right.
pub fn search_index(ix: u16, iy: u16, rows: u16, count: usize) -> (r: Option<usize>)
    requires rows >= 1,
    ensures
        r == (if (ix as int) * (rows as int) + (iy as int) < (count as int) {
            Some(((ix as int) * (rows as int) + (iy as int)) as usize)
        } else {
            None::<usize>
        }),
{
    proof {
        assert((ix as int) * (rows as int) <= 65535 * 65535) by {
            vstd::arithmetic::mul::lemma_mul_upper_bound(ix as int, 65535, rows as int, 65535);
        }
    }
    let idx: usize = (ix as usize) * (rows as usize) + (iy as usize);
    if idx < count { Some(idx) } else { None }
}

/// Resolves the search cursor to the symbol it rests on, if any.
pub fn search_selection<'a>(infos: &'a Vec<Info>, ix: u16, iy: u16, rows: u16) -> (r: Option<&'a String>)
    requires rows >= 1,
    ensures
        r is Some <==> (ix as int) * (rows as int) + (iy as int) < infos@.len(),
        r is Some ==> *r->0 == infos@[(ix as int) * (rows as int) + (iy as int)].symbol,
{
    match search_index(ix, iy, rows, infos.len()) {
        Some(i) => Some(&infos[i].symbol),
        None => None,
    }
}

/// What the graph view draws: an explicit placeholder when there is no
/// data, otherwise the plotted points and the axis bounds.
pub enum GraphData {
    /// No bars: the renderer shows an error placeholder, never a broken
    /// or partially drawn chart.
    NoData,
    Plot {
        /// The zig-zag polyline: the first open, then for every bar its
        /// high and low (low first for falling bars), half a bucket and a
        /// bucket past the bar's open time.
        points: Vec<(u64, Dec)>,
        /// The time axis, from the first bucket to one past the last.
        t_min: u64,
        t_max: u64,
        /// The nice price axis bounds.
        p_lower: Dec,
        p_upper: Dec,
    },
}

/// The time-bucket width: the distance of the first two bucket opens.
pub open spec fn spec_delta(bars: Seq<Bar>) -> u64 {
    if bars.len() >= 2 { (bars[1].t - bars[0].t) as u64 } else { 0 }
}

/// The two plotted points of one bar: the extremes, high first when the
/// bar closed at or above its open.
pub open spec fn spec_bar_pts(b: Bar, delta: u64) -> Seq<(u64, Dec)> {
    if b.c.spec_lt(b.o) {
        seq![((b.t + delta / 2) as u64, b.l), ((b.t + delta) as u64, b.h)]
    } else {
        seq![((b.t + delta / 2) as u64, b.h), ((b.t + delta) as u64, b.l)]
    }
}

/// The whole polyline after the leading open point.
pub open spec fn spec_plot_pts(bars: Seq<Bar>, delta: u64) -> Seq<(u64, Dec)>
    decreases bars.len(),
{
    if bars.len() == 0 {
        Seq::empty()
    } else {
        spec_plot_pts(bars.drop_last(), delta) + spec_bar_pts(bars.last(), delta)
    }
}

/// Computes the graph layout from a bar series.
///
/// The price axis bounds come from `dec_nice_range` over the lows and
/// highs, so the lower bound never exceeds any low and the upper bound,
/// when finite, is never below any high.
pub fn graph_data(bars: &Vec<Bar>) -> (r: GraphData)
    requires
        forall|i: int| 0 <= i < bars@.len() ==> (#[trigger] bars@[i]).wf(),
        forall|i: int| 0 <= i < bars@.len() ==> (#[trigger] bars@[i]).l.is_fin()
            && bars@[i].h.is_fin() && bars@[i].o.is_fin() && bars@[i].c.is_fin(),
        forall|i: int| 0 <= i < bars@.len()
            ==> (#[trigger] bars@[i].t) <= bars@[bars@.len() - 1].t,
        bars@.len() >= 2 ==> bars@[0].t <= bars@[1].t,
        bars@.len() >= 1 ==> bars@[bars@.len() - 1].t + spec_delta(bars@) <= u64::MAX,
    ensures
        r is NoData <==> bars@.len() == 0,
        r is Plot ==> {
            let delta = spec_delta(bars@);
            &&& r->Plot_points@ == seq![(bars@[0].t, bars@[0].o)] + spec_plot_pts(bars@, delta)
            &&& r->Plot_t_min == bars@[0].t
            &&& r->Plot_t_max == bars@[bars@.len() - 1].t + delta
            &&& r->Plot_p_lower.wf() && r->Plot_p_lower is Fin
            &&& r->Plot_p_upper.wf()
            &&& (forall|i: int| 0 <= i < bars@.len()
                    ==> r->Plot_p_lower.val() <= (#[trigger] bars@[i]).l.val())
            &&& (r->Plot_p_upper is Fin ==> forall|i: int| 0 <= i < bars@.len()
                    ==> (#[trigger] bars@[i]).h.val() <= r->Plot_p_upper.val())
            &&& r->Plot_p_lower.spec_lt(r->Plot_p_upper)
        },
{
    if bars.len() == 0 {
        return GraphData::NoData;
    }
    let delta: u64 = if bars.len() >= 2 { bars[1].t - bars[0].t } else { 0 };
    let mut pmin: Dec = bars[0].l;
    let mut pmax: Dec = bars[0].h;
    let mut points: Vec<(u64, Dec)> = Vec::new();
    points.push((bars[0].t, bars[0].o));
    let mut i: usize = 0;
    proof {
        assert(spec_plot_pts(bars@.take(0), delta) =~= Seq::<(u64, Dec)>::empty());
        assert(points@ =~= seq![(bars@[0].t, bars@[0].o)] + spec_plot_pts(bars@.take(0), delta));
    }
    while i < bars.len()
        invariant
            i <= bars@.len(),
            bars@.len() >= 1,
            forall|j: int| 0 <= j < bars@.len() ==> (#[trigger] bars@[j]).wf(),
            forall|j: int| 0 <= j < bars@.len() ==> (#[trigger] bars@[j]).l.is_fin()
                && bars@[j].h.is_fin() && bars@[j].o.is_fin() && bars@[j].c.is_fin(),
            forall|j: int| 0 <= j < bars@.len()
                ==> (#[trigger] bars@[j].t) <= bars@[bars@.len() - 1].t,
            bars@[bars@.len() - 1].t + delta <= u64::MAX,
            delta == spec_delta(bars@),
            pmin.wf() && pmin.is_fin(),
            pmax.wf() && pmax.is_fin(),
            forall|j: int| 0 <= j < i ==> pmin.val() <= (#[trigger] bars@[j]).l.val(),
            forall|j: int| 0 <= j < i ==> (#[trigger] bars@[j]).h.val() <= pmax.val(),
            points@ == seq![(bars@[0].t, bars@[0].o)] + spec_plot_pts(bars@.take(i as int), delta),
        decreases bars@.len() - i,
    {
        let b = &bars[i];
        if b.l.lt(&pmin) {
            pmin = b.l;
        }
        if pmax.lt(&b.h) {
            pmax = b.h;
        }
        if b.c.lt(&b.o) {
            points.push((b.t + delta / 2, b.l));
            points.push((b.t + delta, b.h));
        } else {
            points.push((b.t + delta / 2, b.h));
            points.push((b.t + delta, b.l));
        }
        i = i + 1;
        proof {
            assert(bars@.take(i as int).drop_last() =~= bars@.take(i as int - 1));
            assert(bars@.take(i as int).last() == bars@[i as int - 1]);
            assert(points@ =~= seq![(bars@[0].t, bars@[0].o)]
                + spec_plot_pts(bars@.take(i as int), delta));
        }
    }
    let (lower, upper) = dec_nice_range(pmin, pmax);
    proof {
        assert(bars@.take(bars@.len() as int) =~= bars@);
    }
    GraphData::Plot {
        points,
        t_min: bars[0].t,
        t_max: bars[bars.len() - 1].t + delta,
        p_lower: lower,
        p_upper: upper,
    }
}

} // verus!
