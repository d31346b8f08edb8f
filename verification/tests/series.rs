use chrono::TimeZone;
use jump_diffusion::aggregates::Bar;
use jump_diffusion::data::build_series;
use jump_diffusion::data::partition_results;
use jump_diffusion::data::Data;
use jump_diffusion::data::FetchError;
use rust_decimal::Decimal;
use rust_decimal::MathematicalOps;

fn utc_secs(y: i32, mo: u32, d: u32, h: u32, mi: u32, s: u32) -> i64 {
    chrono::Utc
        .with_ymd_and_hms(y, mo, d, h, mi, s)
        .unwrap()
        .timestamp()
}

/// ln of a 1e-6-scaled price, at the 1e-9 scale, as the library derives it.
fn ln_nano(p: u64) -> i64 {
    let d = Decimal::new(p as i64, 6);
    let mut v = d.checked_ln().unwrap();
    v.rescale(9);
    v.mantissa() as i64
}

#[test]
fn empty_bars_fail_with_missing_bars() {
    let bars: Vec<Bar> = Vec::new();
    let r = build_series("AAPL".to_string(), &bars, Some(100_000_000));
    assert_eq!(r.err(), Some(FetchError::MissingBars));
}

#[test]
fn missing_reference_price_fails() {
    let bars = vec![Bar { t: utc_secs(2021, 5, 14, 13, 30, 0), close: 100_000_000 }];
    let r = build_series("AAPL".to_string(), &bars, None);
    assert_eq!(r.err(), Some(FetchError::MissingReferencePrice));
}

#[test]
fn series_filters_and_takes_log_differences() {
    // three in-session bars, one pre-open bar that must be dropped
    let bars = vec![
        Bar { t: utc_secs(2021, 5, 14, 13, 0, 0), close: 999_000_000 },
        Bar { t: utc_secs(2021, 5, 14, 13, 30, 0), close: 100_000_000 },
        Bar { t: utc_secs(2021, 5, 14, 13, 31, 0), close: 101_000_000 },
        Bar { t: utc_secs(2021, 5, 14, 13, 32, 0), close: 99_500_000 },
    ];
    let reference: u64 = 100_200_000;
    let d = build_series("AAPL".to_string(), &bars, Some(reference)).unwrap();
    assert_eq!(d.ticker, "AAPL");
    assert_eq!(d.current_price, reference);
    let expected: Vec<i64> = vec![
        ln_nano(101_000_000) - ln_nano(100_000_000),
        ln_nano(99_500_000) - ln_nano(101_000_000),
        ln_nano(reference) - ln_nano(99_500_000),
    ];
    assert_eq!(d.log_returns, expected);
}

#[test]
fn construction_is_repeatable() {
    let bars = vec![
        Bar { t: utc_secs(2021, 5, 14, 13, 30, 0), close: 100_000_000 },
        Bar { t: utc_secs(2021, 5, 14, 13, 31, 0), close: 100_500_000 },
    ];
    let d1 = build_series("MSFT".to_string(), &bars, Some(100_250_000)).unwrap();
    let d2 = build_series("MSFT".to_string(), &bars, Some(100_250_000)).unwrap();
    assert_eq!(d1.log_returns, d2.log_returns);
    assert_eq!(d1.current_price, d2.current_price);
}

#[test]
fn partial_failure_keeps_three_of_five() {
    let mk = |name: &str| Data {
        ticker: name.to_string(),
        log_returns: vec![1_000, -2_000, 3_000],
        current_price: 50_000_000,
    };
    let results: Vec<Result<Data, FetchError>> = vec![
        Ok(mk("A")),
        Err(FetchError::Transient),
        Ok(mk("B")),
        Err(FetchError::MissingReferencePrice),
        Ok(mk("C")),
    ];
    let (good, bad) = partition_results(results);
    assert_eq!(good.len(), 3);
    assert_eq!(bad.len(), 2);
    let names: Vec<&str> = good.iter().map(|d| d.ticker.as_str()).collect();
    assert_eq!(names, vec!["A", "B", "C"]);
    assert_eq!(bad, vec![FetchError::Transient, FetchError::MissingReferencePrice]);
}
