use rolling_ohlc::BookTicker;
use rolling_ohlc::RollingOHLC;

fn tick(symbol: &str, ask: &str, t: u64) -> BookTicker {
    BookTicker {
        event_type: String::from("bookTicker"),
        update_id: t,
        symbol: String::from(symbol),
        bid_price: String::from("1"),
        bid_qty: String::from("2"),
        ask_price: String::from(ask),
        ask_qty: String::from("3"),
        transaction_time: t,
        event_time: t,
    }
}

#[test]
fn single_chunk_scenario() {
    // window 60, one chunk: the fourth tick yields one bar over all four
    let mut agg = RollingOHLC::with_parallelism(60, 1);
    assert!(agg.update(tick("BTCUSD", "100.0", 0)).unwrap().is_none());
    assert!(agg.update(tick("BTCUSD", "102.0", 10)).unwrap().is_none());
    assert!(agg.update(tick("BTCUSD", "99.0", 20)).unwrap().is_none());
    let bar = agg.update(tick("BTCUSD", "101.0", 30)).unwrap().unwrap();
    assert_eq!(bar.symbol, "BTCUSD");
    assert_eq!(bar.timestamp, 30);
    assert_eq!(bar.open, "100.000000");
    assert_eq!(bar.high, "102.000000");
    assert_eq!(bar.low, "99.000000");
    assert_eq!(bar.close, "101.000000");
    assert_eq!(agg.get_ohlc_data().len(), 1);
}

#[test]
fn small_window_every_call_none() {
    // window 5 with gaps of 10: each call evicts all prior ticks
    let mut agg = RollingOHLC::with_parallelism(5, 1);
    for t in [0u64, 10, 20, 30] {
        let r = agg.update(tick("ETHUSD", "10.0", t)).unwrap();
        assert!(r.is_none());
    }
    assert!(agg.get_ohlc_data().is_empty());
}

#[test]
fn malformed_price_fails_only_that_call() {
    let mut agg = RollingOHLC::with_parallelism(60, 1);
    assert!(agg.update(tick("BTCUSD", "100.0", 0)).unwrap().is_none());
    assert!(agg.update(tick("BTCUSD", "102.0", 10)).unwrap().is_none());
    assert!(agg.update(tick("BTCUSD", "99.0", 20)).unwrap().is_none());
    let err = agg.update(tick("BTCUSD", "abc", 30)).unwrap_err();
    assert_eq!(err.price, "abc");
    assert_eq!(err.update_id, 30);
    // the failed call left the history untouched
    assert!(agg.get_ohlc_data().is_empty());
    // and the aggregator keeps working: the next good tick completes a window
    let bar = agg.update(tick("BTCUSD", "101.0", 40)).unwrap().unwrap();
    assert_eq!(bar.open, "100.000000");
    assert_eq!(bar.close, "101.000000");
    assert_eq!(agg.get_ohlc_data().len(), 1);
}

#[test]
fn out_of_range_price_is_an_error() {
    let mut agg = RollingOHLC::with_parallelism(60, 1);
    let err = agg.update(tick("BTCUSD", "10000000000000.0", 0)).unwrap_err();
    assert_eq!(err.price, "10000000000000.0");
    assert!(agg.get_ohlc_data().is_empty());
}

#[test]
fn three_ticks_yield_nothing() {
    let mut agg = RollingOHLC::with_parallelism(60, 1);
    for t in [0u64, 1, 2] {
        assert!(agg.update(tick("BTCUSD", "5.5", t)).unwrap().is_none());
    }
    assert!(agg.get_ohlc_data().is_empty());
}

#[test]
fn two_chunks_under_parallelism_two() {
    // five ticks at parallelism 2: chunk size 3, so chunks [1,2,3] and [4,5]
    let mut agg = RollingOHLC::with_parallelism(100, 2);
    for (p, t) in [("1.0", 0u64), ("2.0", 1), ("3.0", 2)] {
        assert!(agg.update(tick("BTCUSD", p, t)).unwrap().is_none());
    }
    // fourth tick: chunk size 2, chunks [1,2] and [3,4]
    let bar4 = agg.update(tick("BTCUSD", "4.0", 3)).unwrap().unwrap();
    assert_eq!(bar4.open, "3.000000");
    assert_eq!(bar4.close, "4.000000");
    assert_eq!(bar4.timestamp, 3);
    // fifth tick: chunk size 3, chunks [1,2,3] and [4,5]
    let bar5 = agg.update(tick("BTCUSD", "5.0", 4)).unwrap().unwrap();
    assert_eq!(bar5.open, "4.000000");
    assert_eq!(bar5.high, "5.000000");
    assert_eq!(bar5.low, "4.000000");
    assert_eq!(bar5.close, "5.000000");
    assert_eq!(bar5.timestamp, 4);
    let history = agg.get_ohlc_data();
    assert_eq!(history.len(), 4);
    // fourth call appended the bars of chunks [1,2] and [3,4]
    assert_eq!(history[0].open, "1.000000");
    assert_eq!(history[0].close, "2.000000");
    assert_eq!(history[0].timestamp, 1);
    assert_eq!(history[1].open, "3.000000");
    assert_eq!(history[1].close, "4.000000");
    // fifth call appended the bars of chunks [1,2,3] and [4,5]
    assert_eq!(history[2].open, "1.000000");
    assert_eq!(history[2].high, "3.000000");
    assert_eq!(history[2].close, "3.000000");
    assert_eq!(history[2].timestamp, 2);
    assert_eq!(history[3].open, "4.000000");
    assert_eq!(history[3].close, "5.000000");
}

#[test]
fn eviction_drops_old_extremes() {
    let mut agg = RollingOHLC::with_parallelism(20, 1);
    assert!(agg.update(tick("BTCUSD", "100.0", 0)).unwrap().is_none());
    assert!(agg.update(tick("BTCUSD", "0.5", 5)).unwrap().is_none());
    assert!(agg.update(tick("BTCUSD", "7.5", 15)).unwrap().is_none());
    // fourth tick completes a window holding all four
    let bar = agg.update(tick("BTCUSD", "8.25", 18)).unwrap().unwrap();
    assert_eq!(bar.high, "100.000000");
    assert_eq!(bar.low, "0.500000");
    // a later tick evicts the first two; too few remain for a bar
    assert!(agg.update(tick("BTCUSD", "6.125", 30)).unwrap().is_none());
    // the next one completes a window without the old extremes
    let bar2 = agg.update(tick("BTCUSD", "7.0", 33)).unwrap().unwrap();
    assert_eq!(bar2.open, "7.500000");
    assert_eq!(bar2.high, "8.250000");
    assert_eq!(bar2.low, "6.125000");
    assert_eq!(bar2.close, "7.000000");
    assert_eq!(bar2.timestamp, 33);
}

#[test]
fn zero_window_keeps_equal_timestamps() {
    // with a zero window only ticks at the newest timestamp survive
    let mut agg = RollingOHLC::with_parallelism(0, 1);
    for _ in 0..3 {
        assert!(agg.update(tick("BTCUSD", "2.0", 5)).unwrap().is_none());
    }
    let bar = agg.update(tick("BTCUSD", "3.0", 5)).unwrap().unwrap();
    assert_eq!(bar.open, "2.000000");
    assert_eq!(bar.close, "3.000000");
    // advancing time evicts everything older
    assert!(agg.update(tick("BTCUSD", "4.0", 6)).unwrap().is_none());
}

#[test]
fn default_construction_aggregates() {
    // the ambient parallelism degree varies, so use equal prices: every
    // chunking then yields the same bar values
    let mut agg = RollingOHLC::new(60);
    for t in [0u64, 1, 2] {
        assert!(agg.update(tick("SOLUSD", "25.5", t)).unwrap().is_none());
    }
    let bar = agg.update(tick("SOLUSD", "25.5", 3)).unwrap().unwrap();
    assert_eq!(bar.symbol, "SOLUSD");
    assert_eq!(bar.timestamp, 3);
    assert_eq!(bar.open, "25.500000");
    assert_eq!(bar.high, "25.500000");
    assert_eq!(bar.low, "25.500000");
    assert_eq!(bar.close, "25.500000");
    assert!(!agg.get_ohlc_data().is_empty());
}

#[test]
fn history_only_grows() {
    let mut agg = RollingOHLC::with_parallelism(100, 2);
    let mut seen: Vec<(String, u64, String, String, String, String)> = Vec::new();
    let prices = ["3.0", "1.0", "4.0", "1.5", "9.25", "2.625", "5.0", "3.5"];
    for (i, p) in prices.iter().enumerate() {
        let _ = agg.update(tick("BTCUSD", p, i as u64)).unwrap();
        let history = agg.get_ohlc_data();
        // everything recorded before is still there, unchanged and in order
        assert!(history.len() >= seen.len());
        for (j, old) in seen.iter().enumerate() {
            let b = &history[j];
            let now = (
                b.symbol.clone(),
                b.timestamp,
                b.open.clone(),
                b.high.clone(),
                b.low.clone(),
                b.close.clone(),
            );
            assert_eq!(*old, now);
        }
        seen = history
            .iter()
            .map(|b| {
                (
                    b.symbol.clone(),
                    b.timestamp,
                    b.open.clone(),
                    b.high.clone(),
                    b.low.clone(),
                    b.close.clone(),
                )
            })
            .collect();
    }
}

#[test]
fn identical_runs_produce_identical_histories() {
    let prices = ["3.0", "1.0", "4.0", "1.5", "9.25", "2.625"];
    let mut a = RollingOHLC::with_parallelism(4, 3);
    let mut b = RollingOHLC::with_parallelism(4, 3);
    for (i, p) in prices.iter().enumerate() {
        let ra = a.update(tick("BTCUSD", p, i as u64)).unwrap();
        let rb = b.update(tick("BTCUSD", p, i as u64)).unwrap();
        assert_eq!(ra.is_some(), rb.is_some());
    }
    let ha = a.get_ohlc_data();
    let hb = b.get_ohlc_data();
    assert_eq!(ha.len(), hb.len());
    for (x, y) in ha.iter().zip(hb.iter()) {
        assert_eq!(x.symbol, y.symbol);
        assert_eq!(x.timestamp, y.timestamp);
        assert_eq!(x.open, y.open);
        assert_eq!(x.high, y.high);
        assert_eq!(x.low, y.low);
        assert_eq!(x.close, y.close);
    }
}
