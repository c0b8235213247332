use rolling_ohlc::BookTicker;
use rolling_ohlc::RollingOHLC;

fn tick_at(ask: &str, t: u64) -> BookTicker {
    BookTicker {
        event_type: String::from("bookTicker"),
        update_id: t,
        symbol: String::from("BTCUSD"),
        bid_price: String::from("1"),
        bid_qty: String::from("2"),
        ask_price: String::from(ask),
        ask_qty: String::from("3"),
        transaction_time: t,
        event_time: t,
    }
}

fn bar_for(ask: &str) -> rolling_ohlc::OHLC {
    let mut agg = RollingOHLC::with_parallelism(60, 1);
    for t in 0..3u64 {
        agg.update(tick_at(ask, t)).unwrap();
    }
    agg.update(tick_at(ask, 3)).unwrap().unwrap()
}

#[test]
fn six_fraction_digits_are_appended() {
    let bar = bar_for("42");
    assert_eq!(bar.open, "42.000000");
    let bar = bar_for("0.5");
    assert_eq!(bar.open, "0.500000");
}

#[test]
fn fraction_digits_beyond_six_are_dropped() {
    let bar = bar_for("1.2345678");
    assert_eq!(bar.open, "1.234567");
    assert_eq!(bar.close, "1.234567");
}

#[test]
fn negative_prices_keep_their_sign() {
    let bar = bar_for("-2.5");
    assert_eq!(bar.open, "-2.500000");
    assert_eq!(bar.high, "-2.500000");
}

#[test]
fn leading_zeros_normalize() {
    let bar = bar_for("007.5");
    assert_eq!(bar.open, "7.500000");
}

#[test]
fn smallest_fraction_survives() {
    let bar = bar_for("0.000001");
    assert_eq!(bar.low, "0.000001");
}

#[test]
fn malformed_numbers_are_rejected() {
    for bad in ["", "-", ".", "1.", ".5", "1..2", "1.2.3", "+1", "1e3", "12a", "--1"] {
        let mut agg = RollingOHLC::with_parallelism(60, 1);
        let err = agg.update(tick_at(bad, 0)).unwrap_err();
        assert_eq!(err.price, bad);
    }
}

#[test]
fn every_emitted_price_has_six_digits_after_one_dot() {
    let mut agg = RollingOHLC::with_parallelism(100, 2);
    let prices = ["3.0", "1.0", "400.125", "1.5", "9.25", "2.625", "5.0", "0.0001"];
    for (i, p) in prices.iter().enumerate() {
        let _ = agg.update(tick_at(p, i as u64)).unwrap();
    }
    let history = agg.get_ohlc_data();
    assert!(!history.is_empty());
    for bar in history {
        for s in [&bar.open, &bar.high, &bar.low, &bar.close] {
            let dots: Vec<usize> = s.match_indices('.').map(|(i, _)| i).collect();
            assert_eq!(dots.len(), 1);
            assert_eq!(s.len() - dots[0] - 1, 6);
            assert!(s[dots[0] + 1..].chars().all(|c| c.is_ascii_digit()));
        }
    }
}
