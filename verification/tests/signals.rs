use jump_diffusion::data::Data;
use jump_diffusion::jumps::jump_detected;
use jump_diffusion::signals::choose_stocks;

fn noise(n: usize) -> Vec<i64> {
    let mut y = Vec::new();
    for i in 0..n {
        y.push(if i % 2 == 0 { 100_000 } else { -100_000 });
    }
    y
}

/// 20 small returns followed by one jump of the given size.
fn jumpy(last: i64) -> Vec<i64> {
    let mut y = noise(20);
    y.push(last);
    y
}

fn data(name: &str, returns: Vec<i64>) -> Data {
    Data { ticker: name.to_string(), log_returns: returns, current_price: 100_000_000 }
}

#[test]
fn selects_only_live_jumps_and_ranks_by_signal_strength() {
    // a jump in the middle of the series is detected but stale
    let mut stale = jumpy(100_000);
    stale[10] = 50_000_000;
    assert!(jump_detected(&stale));

    let batch = vec![
        data("WEAK", jumpy(20_000_000)),   // |z| = 5_821_753
        data("STALE", stale),              // detected, but not at the last index
        data("STRONG", jumpy(50_000_000)), // |z| = 5_853_081
        data("NOISE", noise(21)),          // below the confidence level
        data("FLAT", vec![0; 10]),         // degenerate, no statistic
    ];

    let picked = choose_stocks(&batch, 10);
    assert_eq!(picked.len(), 2);
    assert_eq!(picked[0].ticker, "STRONG");
    assert_eq!(picked[1].ticker, "WEAK");
    assert!(picked[0].z_score.abs() >= picked[1].z_score.abs());
    assert_eq!(picked[0].z_score, 5_853_081);
    assert_eq!(picked[0].last_ret, 50_000_000);
    assert_eq!(picked[0].price, 100_000_000);
}

#[test]
fn keeps_at_most_n() {
    let batch = vec![data("A", jumpy(50_000_000)), data("B", jumpy(20_000_000))];
    let picked = choose_stocks(&batch, 1);
    assert_eq!(picked.len(), 1);
    assert_eq!(picked[0].ticker, "A");
}

#[test]
fn empty_batch_selects_nothing() {
    let picked = choose_stocks(&Vec::new(), 5);
    assert_eq!(picked.len(), 0);
}

#[test]
fn zero_selection_count_selects_nothing() {
    let batch = vec![data("A", jumpy(50_000_000))];
    assert_eq!(choose_stocks(&batch, 0).len(), 0);
}
