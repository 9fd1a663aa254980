//! Tests of the market store, the UI state machine and the renderers.

use coinlive::catalog::{build_catalog, RawMarket, RawSymbol};
use coinlive::decimal::Dec;
use coinlive::fmt::parse_dec;
use coinlive::market::{Direction, Info, MarketState, Update};
use coinlive::msg::{interval_label, parse_tick, Bar, FeedPayload, Msg, RawTick};
use coinlive::ui::{Action, UIState, UIView};
use coinlive::views::{graph_data, price_list_rows, search_selection, GraphData, PriceTable};

fn dec(s: &str) -> Dec {
    parse_dec(s).expect("literal must parse")
}

fn info(symbol: &str, base: &str, quote: &str, volume: &str) -> Info {
    Info {
        symbol: symbol.to_string(),
        base: base.to_string(),
        quote: quote.to_string(),
        volume: dec(volume),
    }
}

fn update(symbol: &str, ts: u64, px: &str, px_24h: &str) -> Update {
    Update { symbol: symbol.to_string(), ts, px: dec(px), px_24h: dec(px_24h) }
}

fn bootstrap() -> UIState {
    let mut st = UIState::new();
    let infos = vec![
        info("BTCUSDT", "BTC", "USDT", "900"),
        info("ETHUSDT", "ETH", "USDT", "500"),
        info("ETHBUSD", "ETH", "BUSD", "100"),
    ];
    let act = st.handle_msg(Msg::Infos(infos));
    assert!(matches!(act, Action::Continue));
    st
}

#[test]
fn market_state_tracks_previous_price() {
    let mut st = MarketState::new();
    assert!(st.px.is_nan());
    st.update(&update("BTCUSDT", 1, "100", "90"));
    st.update(&update("BTCUSDT", 2, "105", "90"));
    assert!(st.last_px.eq_val(&dec("100")));
    assert!(st.px.eq_val(&dec("105")));
    assert_eq!(st.ts, 2);
}

#[test]
fn percentage_is_dash_before_second_update_then_numeric() {
    let mut st = MarketState::new();
    st.update(&update("BTCUSDT", 1, "100", "90"));
    // the previous price is still the sentinel, so no percentage yet
    assert_eq!(st.percentage_string(), "     -");
    st.update(&update("BTCUSDT", 2, "105", "90"));
    // (100 - 90) / 90 * 100, truncated and padded to six characters
    assert_eq!(st.percentage_string(), "+11.11");
}

#[test]
fn percentage_is_always_six_characters() {
    let mut st = MarketState::new();
    st.update(&update("X", 1, "100", "90"));
    st.update(&update("X", 2, "100", "90"));
    for (px, reference) in [
        ("100", "90"),
        ("90", "100"),
        ("0.00000001", "0.00000009"),
        ("123456789", "0.001"),
        ("5", "0"),
        ("0", "0"),
    ] {
        let mut s = MarketState::new();
        s.update(&update("X", 1, px, reference));
        s.update(&update("X", 2, px, reference));
        assert_eq!(s.percentage_string().len(), 6, "{px} vs {reference}");
    }
    // negative changes carry no plus sign
    let mut s = MarketState::new();
    s.update(&update("X", 1, "80", "100"));
    s.update(&update("X", 2, "80", "100"));
    assert_eq!(s.percentage_string(), "   -20");
}

#[test]
fn percentage_is_dash_for_zero_reference() {
    let mut st = MarketState::new();
    st.update(&update("X", 1, "5", "0"));
    st.update(&update("X", 2, "5", "0"));
    assert_eq!(st.percentage_string(), "     -");
}

#[test]
fn direction_uses_the_right_comparison_pairs() {
    let mut st = MarketState::new();
    st.update(&update("X", 1, "100", "95"));
    st.update(&update("X", 2, "98", "95"));
    // price fell against the previous tick ...
    assert_eq!(st.style(), Direction::Down);
    // ... but still sits above the 24-hour reference
    assert_eq!(st.style_percent(), Direction::Up);
    st.update(&update("X", 3, "98", "95"));
    assert_eq!(st.style(), Direction::Flat);
}

#[test]
fn catalog_arrival_shows_price_list_with_short_names() {
    let st = bootstrap();
    assert_eq!(st.ui_mode, UIView::PriceList);
    let infos = st.infos.as_ref().expect("catalog loaded");
    // the BUSD-quoted pair is on the denylist and stays off the display
    assert_eq!(infos.len(), 2);
    assert_eq!(infos[0].short_symbol().as_str(), "BTC");
    assert_eq!(infos[1].short_symbol().as_str(), "ETH");
    let rows = price_list_rows(infos, &st.markets, false);
    assert_eq!(rows.len(), 2);
    assert_eq!(rows[0].name, "BTC");
    assert_eq!(rows[1].name, "ETH");
    assert_eq!(rows[0].cell, "-");
}

#[test]
fn feed_updates_are_gated_by_the_catalog() {
    let mut st = bootstrap();
    let ticks = vec![
        RawTick { symbol: "BTCUSDT".to_string(), ts: 7, px: "100".to_string(), px_24h: "90".to_string() },
        RawTick { symbol: "UNLISTED".to_string(), ts: 9, px: "1".to_string(), px_24h: "1".to_string() },
    ];
    let act = st.handle_msg(Msg::WS(10, FeedPayload::Ticks(ticks)));
    assert!(matches!(act, Action::Continue));
    let known = st.markets.get(&"BTCUSDT".to_string());
    assert!(known.is_some());
    assert!(known.unwrap().px.eq_val(&dec("100")));
    // the unlisted symbol never created an entry
    assert!(st.markets.get(&"UNLISTED".to_string()).is_none());
    assert_eq!(st.markets.len(), 1);
    // the last-update time advanced to the largest event time seen
    assert_eq!(st.ts_last_update, 9);
}

#[test]
fn feed_before_catalog_is_dropped() {
    let mut st = UIState::new();
    let ticks = vec![RawTick {
        symbol: "BTCUSDT".to_string(), ts: 7, px: "100".to_string(), px_24h: "90".to_string(),
    }];
    let act = st.handle_msg(Msg::WS(10, FeedPayload::Ticks(ticks)));
    assert!(matches!(act, Action::Continue));
    assert_eq!(st.markets.len(), 0);
    assert_eq!(st.ts_last_update, 0);
}

#[test]
fn latency_echo_updates_latency() {
    let mut st = bootstrap();
    let act = st.handle_msg(Msg::WS(110, FeedPayload::Text("25".to_string())));
    assert!(matches!(act, Action::Continue));
    assert_eq!(st.latency, 85);
}

#[test]
fn unclassifiable_payload_halts_with_the_payload_stored() {
    let mut st = bootstrap();
    let act = st.handle_msg(Msg::WS(110, FeedPayload::Text("{\"weird\":1}".to_string())));
    assert!(matches!(act, Action::Halt));
    assert_eq!(st.message, "{\"weird\":1}");
}

#[test]
fn malformed_tick_price_halts() {
    let mut st = bootstrap();
    let ticks = vec![RawTick {
        symbol: "BTCUSDT".to_string(), ts: 7, px: "1x0".to_string(), px_24h: "90".to_string(),
    }];
    let act = st.handle_msg(Msg::WS(10, FeedPayload::Ticks(ticks)));
    assert!(matches!(act, Action::Halt));
    // the offending payload lands in the status line
    assert_eq!(st.message, "1x0");
}

#[test]
fn search_enter_goes_to_graph_and_esc_returns_to_search() {
    let mut st = bootstrap();
    st.handle_msg(Msg::Search);
    assert_eq!(st.ui_mode, UIView::Search);
    assert_eq!(st.message, "Select symbol");
    st.handle_msg(Msg::ArrowDown);
    st.handle_msg(Msg::ArrowDown);
    st.handle_msg(Msg::ArrowUp);
    assert_eq!(st.cursor_iy, 1);
    assert_eq!(st.cursor_ix, 0);
    // the renderer resolves the cursor: row one of column zero
    let selected = {
        let infos = st.infos.as_ref().unwrap();
        search_selection(infos, st.cursor_ix, st.cursor_iy, 20).unwrap().clone()
    };
    assert_eq!(selected, "ETHUSDT");
    st.select_symbol(selected);
    let act = st.handle_msg(Msg::Enter);
    assert!(matches!(act, Action::FetchBars { .. }));
    if let Action::FetchBars { symbol, scale } = act {
        assert_eq!(symbol, "ETHUSDT");
        assert_eq!(scale, 0);
    }
    assert_eq!(st.ui_mode, UIView::Graph);
    assert_eq!(st.message, "Graph ETHUSDT");
    // going back leads to the search, not to the page before it
    st.handle_msg(Msg::Esc);
    assert_eq!(st.ui_mode, UIView::Search);
}

#[test]
fn cursor_clamps_at_zero_and_home_resets() {
    let mut st = bootstrap();
    st.handle_msg(Msg::Search);
    st.handle_msg(Msg::ArrowUp);
    st.handle_msg(Msg::ArrowLeft);
    assert_eq!(st.cursor_ix, 0);
    assert_eq!(st.cursor_iy, 0);
    st.handle_msg(Msg::ArrowRight);
    st.handle_msg(Msg::ArrowDown);
    assert_eq!((st.cursor_ix, st.cursor_iy), (1, 1));
    st.handle_msg(Msg::Home);
    assert_eq!((st.cursor_ix, st.cursor_iy), (0, 0));
    // outside the search view the arrows do nothing
    st.handle_msg(Msg::Esc);
    st.handle_msg(Msg::PriceList);
    st.handle_msg(Msg::ArrowDown);
    assert_eq!(st.cursor_iy, 0);
}

#[test]
fn toggles_and_view_keys_set_the_mode() {
    let mut st = bootstrap();
    assert!(!st.show_percent);
    st.handle_msg(Msg::TogglePercent);
    assert!(st.show_percent);
    assert!(st.extended);
    st.handle_msg(Msg::ToggleExtended);
    assert!(!st.extended);
    st.handle_msg(Msg::PriceTable);
    assert_eq!(st.ui_mode, UIView::PriceTable);
    assert_eq!(st.message, "Show price table");
    st.handle_msg(Msg::Help);
    assert_eq!(st.ui_mode, UIView::Help);
    st.handle_msg(Msg::About);
    assert_eq!(st.ui_mode, UIView::About);
    st.handle_msg(Msg::PriceList);
    assert_eq!(st.ui_mode, UIView::PriceList);
    assert_eq!(st.message, "Show price list");
    assert!(matches!(st.handle_msg(Msg::Stop), Action::Quit));
}

#[test]
fn graph_message_updates_scale_and_requests_bars() {
    let mut st = bootstrap();
    let act = st.handle_msg(Msg::Graph(Some(3)));
    // the view switches at once; the bars follow as their own message
    assert_eq!(st.ui_mode, UIView::Graph);
    assert!(matches!(act, Action::FetchBars { .. }));
    if let Action::FetchBars { symbol, scale } = act {
        assert_eq!(symbol, "BTCUSDT");
        assert_eq!(scale, 3);
    }
    // without an explicit scale the stored one is kept
    let act2 = st.handle_msg(Msg::Graph(None));
    if let Action::FetchBars { scale, .. } = act2 {
        assert_eq!(scale, 3);
    }
    let bars = vec![Bar { t: 0, o: dec("1"), h: dec("2"), l: dec("1"), c: dec("2") }];
    st.handle_msg(Msg::Bars(bars));
    assert_eq!(st.ui_mode, UIView::Graph);
    assert!(st.klines.is_some());
}

#[test]
fn empty_bar_series_renders_the_placeholder() {
    let bars: Vec<Bar> = Vec::new();
    assert!(matches!(graph_data(&bars), GraphData::NoData));
}

#[test]
fn graph_points_zigzag_through_highs_and_lows() {
    let bars = vec![
        Bar { t: 0, o: dec("10"), h: dec("15"), l: dec("9"), c: dec("14") },
        Bar { t: 60, o: dec("14"), h: dec("16"), l: dec("11"), c: dec("12") },
    ];
    match graph_data(&bars) {
        GraphData::NoData => panic!("two bars must plot"),
        GraphData::Plot { points, t_min, t_max, p_lower, p_upper } => {
            assert_eq!(t_min, 0);
            assert_eq!(t_max, 120);
            assert_eq!(points.len(), 5);
            assert_eq!(points[0].0, 0);
            assert!(points[0].1.eq_val(&dec("10")));
            // the first bar rose: high first, then low
            assert_eq!(points[1].0, 30);
            assert!(points[1].1.eq_val(&dec("15")));
            assert!(points[2].1.eq_val(&dec("9")));
            // the second bar fell: low first, then high
            assert!(points[3].1.eq_val(&dec("11")));
            assert!(points[4].1.eq_val(&dec("16")));
            // axis bounds enclose all lows and highs
            assert!(!p_lower.gt(&dec("9")));
            assert!(!p_upper.lt(&dec("16")));
            assert!(p_lower.lt(&p_upper));
        },
    }
}

#[test]
fn price_table_deduplicates_assets() {
    let infos = vec![
        info("BTCUSDT", "BTC", "USDT", "900"),
        info("ETHUSDT", "ETH", "USDT", "500"),
        info("ETHBTC", "ETH", "BTC", "300"),
    ];
    let t = PriceTable::new(&infos, false, true);
    assert_eq!(t.quotes, vec!["USDT".to_string(), "BTC".to_string()]);
    assert_eq!(t.bases, vec!["BTC".to_string(), "ETH".to_string()]);
    assert_eq!(t.cell_symbol(&t.bases[1], &t.quotes[0]), "ETHUSDT");
}

#[test]
fn build_catalog_filters_and_sorts_by_normalized_volume() {
    let symbols = vec![
        RawSymbol { symbol: "BTCUSDT".to_string(), base: "BTC".to_string(),
            quote: "USDT".to_string(), status: "TRADING".to_string() },
        RawSymbol { symbol: "ETHBTC".to_string(), base: "ETH".to_string(),
            quote: "BTC".to_string(), status: "TRADING".to_string() },
        RawSymbol { symbol: "OLDCOIN".to_string(), base: "OLD".to_string(),
            quote: "USDT".to_string(), status: "BREAK".to_string() },
        RawSymbol { symbol: "GHOSTUSDT".to_string(), base: "GHOST".to_string(),
            quote: "USDT".to_string(), status: "TRADING".to_string() },
    ];
    let markets = vec![
        RawMarket { symbol: "BTCUSDT".to_string(), price: dec("100"), volume: dec("50") },
        RawMarket { symbol: "ETHBTC".to_string(), price: dec("0.05"), volume: dec("2") },
    ];
    let catalog = build_catalog(&symbols, &markets);
    // the non-trading row and the row with no market are gone; the
    // BTC-quoted volume was converted through BTCUSDT: 2 * 100 = 200
    assert_eq!(catalog.len(), 2);
    assert_eq!(catalog[0].symbol, "ETHBTC");
    assert!(catalog[0].volume.eq_val(&dec("200")));
    assert_eq!(catalog[1].symbol, "BTCUSDT");
    assert!(catalog[1].volume.eq_val(&dec("50")));
}

#[test]
fn parse_tick_converts_prices() {
    let t = RawTick { symbol: "BTCUSDT".to_string(), ts: 4,
        px: "100.5".to_string(), px_24h: "99".to_string() };
    let u = parse_tick(&t).expect("prices parse");
    assert_eq!(u.symbol, "BTCUSDT");
    assert_eq!(u.ts, 4);
    assert!(u.px.eq_val(&dec("100.5")));
    assert!(u.px_24h.eq_val(&dec("99")));
    let bad = RawTick { symbol: "X".to_string(), ts: 4,
        px: "1,5".to_string(), px_24h: "99".to_string() };
    assert!(parse_tick(&bad).is_none());
}

#[test]
fn interval_labels_cover_all_scales() {
    let expect = ["1m", "3m", "5m", "15m", "30m", "1h", "2h", "4h", "12h", "1d"];
    for (scale, label) in expect.iter().enumerate() {
        assert_eq!(interval_label(scale as u32), *label);
    }
    assert_eq!(interval_label(42), "1d");
}

#[test]
fn oversized_latency_echo_is_a_protocol_error() {
    let mut st = bootstrap();
    let act = st.handle_msg(Msg::WS(1, FeedPayload::Text("99999999999999999999999".to_string())));
    assert!(matches!(act, Action::Halt));
    assert_eq!(st.message, "99999999999999999999999");
}

#[test]
fn reduced_table_keeps_at_most_four_quote_columns() {
    let infos = vec![
        info("AB", "A", "B", "1"),
        info("AC", "A", "C", "1"),
        info("AD", "A", "D", "1"),
        info("AE", "A", "E", "1"),
        info("AF", "A", "F", "1"),
    ];
    let reduced = PriceTable::new(&infos, false, false);
    assert_eq!(reduced.quotes.len(), 4);
    let extended = PriceTable::new(&infos, false, true);
    assert_eq!(extended.quotes.len(), 5);
}
