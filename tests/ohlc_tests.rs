use ohlc::datas::{compute_tick_price, OHLCData, OHLCWindow, TickData};
use ohlc::ohlc::{make_batch_ohlc, merge_splits, OHLCMaker, TickDataRangeIndex};
use ohlc::window::update_window;
use ohlc::tick_generator::{TickGenerator, MOCK_ASK, MOCK_BID, MOCK_START_TIME};

fn tick(symbol: &str, timestamp: u64, price: u64) -> TickData {
    TickData { symbol: symbol.to_string(), timestamp, bid: price, ask: price, price }
}

fn candle(r: &OHLCData) -> (u64, u64, u64, u64) {
    (r.open, r.high, r.low, r.close)
}

fn scenario_ticks() -> Vec<TickData> {
    vec![tick("X", 0, 10), tick("X", 100, 11), tick("X", 250, 9), tick("X", 400, 12)]
}

/// Three symbols interleaved, one tick every 7 ms, prices that rise and fall.
fn mixed_ticks(n: usize) -> Vec<TickData> {
    let symbols = ["A", "B", "C"];
    (0..n)
        .map(|i| tick(symbols[i % 3], 7 * i as u64, 100 + ((i * 37) % 23) as u64))
        .collect()
}

#[test]
fn concrete_scenario_single_symbol() {
    let maker = OHLCMaker::new();
    let records = maker.make_ohlc(&scenario_ticks(), 200);
    assert_eq!(records.len(), 4);
    assert_eq!(candle(&records[0]), (10, 10, 10, 10));
    assert_eq!(candle(&records[1]), (10, 11, 10, 11));
    assert_eq!(candle(&records[2]), (11, 11, 9, 9));
    assert_eq!(candle(&records[3]), (9, 12, 9, 12));
    let stamps: Vec<u64> = records.iter().map(|r| r.timestamp).collect();
    assert_eq!(stamps, vec![0, 100, 250, 400]);
    assert!(records.iter().all(|r| r.symbol == "X"));
}

#[test]
fn concrete_scenario_through_batch() {
    let ticks = scenario_ticks();
    let records = make_batch_ohlc(&ticks, 200, 0, 3, 0);
    assert_eq!(candle(&records[2]), (11, 11, 9, 9));
    assert_eq!(candle(&records[3]), (9, 12, 9, 12));
}

#[test]
fn split_equals_serial_for_every_worker_count() {
    let ticks = mixed_ticks(40);
    let maker = OHLCMaker::new();
    let serial = maker.make_ohlc(&ticks, 30);
    for workers in 1..=40 {
        let split = maker.make_ohlc_split(&ticks, 30, workers);
        assert_eq!(split, serial, "workers = {}", workers);
    }
}

#[test]
fn split_equals_serial_single_symbol_uneven_gaps() {
    let stamps = [0u64, 3, 4, 20, 21, 50, 51, 52, 90, 130, 131, 170, 171, 172, 200];
    let ticks: Vec<TickData> =
        stamps.iter().enumerate().map(|(i, t)| tick("S", *t, 50 + ((i * 11) % 7) as u64)).collect();
    let maker = OHLCMaker::new();
    let serial = maker.make_ohlc(&ticks, 25);
    for workers in 1..=ticks.len() {
        assert_eq!(maker.make_ohlc_split(&ticks, 25, workers), serial);
    }
}

#[test]
fn threads_style_merge_equals_serial() {
    let ticks = mixed_ticks(25);
    let maker = OHLCMaker::new();
    let plan = maker.split_tick_data(&ticks, 4, 30);
    let parts: Vec<Vec<OHLCData>> = plan
        .iter()
        .map(|p| make_batch_ohlc(&ticks, 30, p.range_begin, p.range_end, p.window_begin))
        .collect();
    assert_eq!(merge_splits(parts), maker.make_ohlc(&ticks, 30));
}

#[test]
fn close_is_tick_price() {
    let ticks = mixed_ticks(30);
    let records = OHLCMaker::new().make_ohlc(&ticks, 15);
    for (r, t) in records.iter().zip(ticks.iter()) {
        assert_eq!(r.close, t.price);
        assert_eq!(r.timestamp, t.timestamp);
        assert_eq!(r.symbol, t.symbol);
        assert!(r.low <= r.open && r.open <= r.high);
        assert!(r.low <= r.close && r.close <= r.high);
    }
}

#[test]
fn first_tick_of_each_symbol() {
    let ticks = vec![tick("A", 0, 5), tick("B", 1, 9), tick("A", 2, 7), tick("C", 3, 4)];
    let records = OHLCMaker::new().make_ohlc(&ticks, 1000);
    assert_eq!(candle(&records[0]), (5, 5, 5, 5));
    assert_eq!(candle(&records[1]), (9, 9, 9, 9));
    assert_eq!(candle(&records[2]), (5, 7, 5, 7));
    assert_eq!(candle(&records[3]), (4, 4, 4, 4));
}

#[test]
fn zero_window_single_ticks() {
    let ticks = vec![tick("A", 0, 5), tick("B", 3, 9), tick("C", 7, 4), tick("A", 9, 5)];
    let records = OHLCMaker::new().make_ohlc(&ticks, 0);
    for (r, t) in records.iter().zip(ticks.iter()) {
        assert_eq!(candle(r), (t.price, t.price, t.price, t.price));
    }
}

#[test]
fn zero_window_no_candidate_keeps_window() {
    // no earlier tick can be less than 0 ms old, so the window stays where it began
    let ticks = vec![tick("X", 0, 5), tick("X", 10, 7), tick("X", 20, 3)];
    let records = OHLCMaker::new().make_ohlc(&ticks, 0);
    assert_eq!(candle(&records[0]), (5, 5, 5, 5));
    assert_eq!(candle(&records[1]), (5, 7, 5, 7));
    assert_eq!(candle(&records[2]), (5, 7, 3, 3));
}

#[test]
fn repeated_calls_agree() {
    let ticks = mixed_ticks(33);
    let maker = OHLCMaker::new();
    let first = maker.make_ohlc(&ticks, 20);
    let second = maker.make_ohlc(&ticks, 20);
    assert_eq!(first, second);
    assert_eq!(maker.make_ohlc_split(&ticks, 20, 5), maker.make_ohlc_split(&ticks, 20, 5));
}

#[test]
fn rescan_ignores_other_symbols() {
    let ticks = vec![tick("A", 0, 10), tick("A", 60, 12), tick("B", 70, 1000), tick("A", 120, 11)];
    let records = OHLCMaker::new().make_ohlc(&ticks, 100);
    assert_eq!(candle(&records[0]), (10, 10, 10, 10));
    assert_eq!(candle(&records[1]), (10, 12, 10, 12));
    assert_eq!(candle(&records[2]), (1000, 1000, 1000, 1000));
    assert_eq!(candle(&records[3]), (12, 12, 11, 11));
}

#[test]
fn window_boundary_is_inclusive_until_stale() {
    // a tick exactly the window length old keeps the window; one past it moves the begin
    let ticks = vec![tick("X", 0, 1), tick("X", 200, 2), tick("X", 401, 3)];
    let records = OHLCMaker::new().make_ohlc(&ticks, 200);
    assert_eq!(candle(&records[1]), (1, 2, 1, 2));
    assert_eq!(candle(&records[2]), (3, 3, 3, 3));
}

#[test]
fn update_window_resets_a_stale_window() {
    let ticks = scenario_ticks();
    let mut window = OHLCWindow { open: 10, high: 11, low: 10, begin_index: 0 };
    update_window(&ticks, &mut window, 9, 2, 200);
    assert_eq!(window.begin_index, 1);
    assert_eq!((window.open, window.high, window.low), (11, 11, 9));
}

#[test]
fn update_window_extends_a_fresh_window() {
    let ticks = scenario_ticks();
    let mut window = OHLCWindow { open: 10, high: 10, low: 10, begin_index: 0 };
    update_window(&ticks, &mut window, 11, 1, 200);
    assert_eq!(window.begin_index, 0);
    assert_eq!((window.open, window.high, window.low), (10, 11, 10));
}

#[test]
fn batch_skips_lookback_records() {
    let ticks = scenario_ticks();
    let records = make_batch_ohlc(&ticks, 200, 2, 3, 1);
    assert_eq!(records.len(), 2);
    assert_eq!(records[0].timestamp, 250);
    assert_eq!(candle(&records[0]), (11, 11, 9, 9));
    assert_eq!(candle(&records[1]), (9, 12, 9, 12));
}

#[test]
fn batch_empty_range() {
    let ticks = scenario_ticks();
    assert!(make_batch_ohlc(&ticks, 200, 2, 1, 2).is_empty());
}

#[test]
fn plan_splits_evenly_with_remainder_last() {
    let ticks: Vec<TickData> = (0..10).map(|i| tick("S", 10 * i as u64, 1)).collect();
    let plan = OHLCMaker::new().split_tick_data(&ticks, 3, 15);
    let ranges: Vec<(usize, usize)> = plan.iter().map(|p| (p.range_begin, p.range_end)).collect();
    assert_eq!(ranges, vec![(0, 2), (3, 5), (6, 9)]);
    // part 1 starts at t=30: t=20 is 10 ms back, t=10 is 20 ms back
    assert_eq!(plan[0].window_begin, 0);
    assert_eq!(plan[1].window_begin, 2);
    assert_eq!(plan[2].window_begin, 5);
}

#[test]
fn plan_lookback_reaches_the_first_tick() {
    let ticks: Vec<TickData> = (0..6).map(|i| tick("S", i as u64, 1)).collect();
    let plan = OHLCMaker::new().split_tick_data(&ticks, 2, 100);
    assert_eq!(plan[1], TickDataRangeIndex { range_begin: 3, range_end: 5, window_begin: 0 });
}

#[test]
fn plan_of_no_ticks_is_empty() {
    let plan = OHLCMaker::new().split_tick_data(&Vec::new(), 4, 10);
    assert!(plan.is_empty());
    assert!(OHLCMaker::new().make_ohlc(&Vec::new(), 10).is_empty());
    assert!(OHLCMaker::new().make_ohlc_split(&Vec::new(), 10, 3).is_empty());
}

#[test]
fn plan_with_more_workers_than_ticks() {
    let ticks: Vec<TickData> = (0..2).map(|i| tick("S", i as u64, 1)).collect();
    let plan = OHLCMaker::new().split_tick_data(&ticks, 4, 10);
    let ranges: Vec<(usize, usize)> = plan.iter().map(|p| (p.range_begin, p.range_end)).collect();
    assert_eq!(ranges, vec![(0, 0), (1, 1), (2, 1), (2, 1)]);
    assert_eq!(OHLCMaker::new().make_ohlc_split(&ticks, 10, 4).len(), 2);
}

#[test]
fn plan_uses_available_cpus() {
    let ticks = mixed_ticks(12);
    let maker = OHLCMaker::new();
    let plan = maker.plan(&ticks, 10);
    assert!(!plan.is_empty());
    assert_eq!(plan[0].range_begin, 0);
    assert_eq!(plan[plan.len() - 1].range_end, 11);
    assert!(maker.plan(&Vec::new(), 10).is_empty());
}

#[test]
fn merge_concatenates_in_order() {
    let a = OHLCData { symbol: "A".to_string(), timestamp: 1, open: 1, high: 1, low: 1, close: 1 };
    let b = OHLCData { symbol: "B".to_string(), timestamp: 2, open: 2, high: 2, low: 2, close: 2 };
    let c = OHLCData { symbol: "C".to_string(), timestamp: 3, open: 3, high: 3, low: 3, close: 3 };
    let merged = merge_splits(vec![vec![a.clone(), b.clone()], vec![], vec![c.clone()]]);
    assert_eq!(merged, vec![a, b, c]);
}

#[test]
fn tick_price_is_mean_of_bid_and_ask() {
    assert_eq!(compute_tick_price(1122000, 1123000), 1122500);
    assert_eq!(compute_tick_price(1, 2), 1);
    assert_eq!(compute_tick_price(u64::MAX, u64::MAX), u64::MAX);
    let t = TickData::new("EURUSD".to_string(), 2000000, 4000000, 77);
    assert_eq!(t.price, 3000000);
    assert_eq!(t.timestamp, 77);
}

#[test]
fn populate_price_recomputes() {
    let mut t = TickData::new("X".to_string(), 10, 20, 0);
    t.bid = 30;
    t.populate_price();
    assert_eq!(t.price, 25);
}

#[test]
fn mock_generator() {
    let ticks = TickGenerator::new().from_mock(5);
    assert_eq!(ticks.len(), 5);
    for (i, t) in ticks.iter().enumerate() {
        assert_eq!(t.symbol, "s");
        assert_eq!(t.timestamp, MOCK_START_TIME + i as u64);
        assert_eq!((t.bid, t.ask), (MOCK_BID, MOCK_ASK));
        assert_eq!(t.price, 1122500);
    }
    let records = OHLCMaker::new().make_ohlc_split(&ticks, 10, 2);
    assert_eq!(records.len(), 5);
    assert!(records.iter().all(|r| candle(r) == (1122500, 1122500, 1122500, 1122500)));
}

#[test]
fn gap_of_exactly_the_window_length_splits_differently() {
    // a same-symbol gap of exactly the window length keeps a window that a reset would not
    // rebuild, so a part that starts inside it sees a different history than one scan does
    let ticks = vec![tick("X", 0, 1), tick("X", 200, 2), tick("X", 400, 3)];
    let maker = OHLCMaker::new();
    let serial = maker.make_ohlc(&ticks, 200);
    let split = maker.make_ohlc_split(&ticks, 200, 3);
    assert_eq!(candle(&serial[2]), (3, 3, 3, 3));
    assert_eq!(candle(&split[2]), (2, 3, 2, 3));
    assert_eq!(candle(&serial[1]), candle(&split[1]));
}
