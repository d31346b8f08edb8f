use chrono::TimeZone;
use jump_diffusion::aggregates::Bar;
use jump_diffusion::aggregates::JumpDiffusionAggregate;

fn utc_secs(y: i32, mo: u32, d: u32, h: u32, mi: u32, s: u32) -> i64 {
    chrono::Utc
        .with_ymd_and_hms(y, mo, d, h, mi, s)
        .unwrap()
        .timestamp()
}

// 2021-05-14 is a daylight-saving date: New York runs four hours behind UTC.

#[test]
fn is_open() {
    let agg = Bar { t: utc_secs(2021, 5, 14, 13, 30, 0), close: 1_000_000 };
    assert!(agg.is_open())
}

#[test]
fn is_not_open() {
    let agg = Bar { t: utc_secs(2021, 5, 14, 13, 29, 59), close: 1_000_000 };
    assert!(!agg.is_open())
}

#[test]
fn open_at_session_start() {
    // 09:30:00 New York local is included
    let agg = Bar { t: utc_secs(2021, 5, 14, 13, 30, 0), close: 1_000_000 };
    assert!(agg.is_open())
}

#[test]
fn closed_at_session_end() {
    // 16:00:00 New York local is excluded
    let agg = Bar { t: utc_secs(2021, 5, 14, 20, 0, 0), close: 1_000_000 };
    assert!(!agg.is_open())
}

#[test]
fn open_just_before_session_end() {
    // 15:59:59 New York local is included
    let agg = Bar { t: utc_secs(2021, 5, 14, 19, 59, 59), close: 1_000_000 };
    assert!(agg.is_open())
}

#[test]
fn winter_session_uses_standard_offset() {
    // 2021-01-15 is outside daylight saving: New York runs five hours behind,
    // so 14:30:00 UTC is the 09:30:00 session start.
    let agg = Bar { t: utc_secs(2021, 1, 15, 14, 30, 0), close: 1_000_000 };
    assert!(agg.is_open());
    let early = Bar { t: utc_secs(2021, 1, 15, 14, 29, 59), close: 1_000_000 };
    assert!(!early.is_open());
}
