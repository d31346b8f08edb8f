use jump_diffusion::positions::size_positions;
use jump_diffusion::positions::Amount;
use jump_diffusion::signals::Evaluation;

fn eval(name: &str, z_score: i64, last_ret: i64, price: u64) -> Evaluation {
    Evaluation { ticker: name.to_string(), price, z_score, last_ret }
}

fn dollars(a: &Amount) -> i128 {
    match a {
        Amount::Dollars(d) => *d,
        Amount::Zero => 0,
    }
}

#[test]
fn sizing_splits_the_budget_by_signal_strength() {
    let evals = vec![
        eval("UP", 4_000_000, 50_000_000, 100_000_000),
        eval("DOWN", -6_000_000, -30_000_000, 50_000_000),
    ];
    let cash: u64 = 10_000_000_000; // 10,000 currency units at the 1e-6 scale
    let now: i64 = 1_700_000_000;
    let close_after: i64 = 1_700_010_000;
    let out = size_positions(&evals, cash, now, close_after);
    assert_eq!(out.len(), 4);

    // upward jump: sell 40% of the budget with a 0.5% sell floor
    let open_up = &out[0];
    assert_eq!(open_up.strategy, "jump-diffusion");
    assert_eq!(open_up.ticker, "UP");
    assert_eq!(dollars(&open_up.amount), -4_000_000_000);
    assert_eq!(open_up.limit_price, Some(99_500_000));
    assert_eq!(open_up.decision_price, Some(100_000_000));
    assert_eq!(open_up.after, None);
    assert_eq!(open_up.before, Some(now + 1800));

    let flatten_up = &out[1];
    assert_eq!(flatten_up.ticker, "UP");
    assert_eq!(flatten_up.amount, Amount::Zero);
    assert_eq!(flatten_up.limit_price, None);
    assert_eq!(flatten_up.after, Some(close_after));
    assert_eq!(flatten_up.before, None);

    // downward jump: buy 60% of the budget with a 0.5% buy ceiling
    let open_down = &out[2];
    assert_eq!(open_down.ticker, "DOWN");
    assert_eq!(dollars(&open_down.amount), 6_000_000_000);
    assert_eq!(open_down.limit_price, Some(50_250_000));

    // the notionals exhaust the budget exactly here
    let total: i128 = dollars(&open_up.amount).abs() + dollars(&open_down.amount).abs();
    assert_eq!(total, cash as i128);
}

#[test]
fn sizing_exhausts_the_budget_up_to_rounding() {
    let evals = vec![
        eval("A", 3_100_000, 10_000_000, 10_000_000),
        eval("B", 3_200_000, -10_000_000, 10_000_000),
        eval("C", 3_300_000, 10_000_000, 10_000_000),
    ];
    let cash: u64 = 10;
    let out = size_positions(&evals, cash, 0, 0);
    let total: i128 = out.iter().map(|p| dollars(&p.amount).abs()).sum();
    assert!(total <= cash as i128);
    assert!(total > cash as i128 - evals.len() as i128);
    // each signed notional opposes the sign of the last return
    assert!(dollars(&out[0].amount) <= 0);
    assert!(dollars(&out[2].amount) >= 0);
    assert!(dollars(&out[4].amount) <= 0);
}

#[test]
fn no_instruments_no_instructions() {
    let out = size_positions(&Vec::new(), 1_000_000, 0, 0);
    assert_eq!(out.len(), 0);
}
