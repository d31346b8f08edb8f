use jump_diffusion::settings::vec_from_str;
use jump_diffusion::settings::AppSettings;
use jump_diffusion::settings::Settings;

#[test]
fn splits_comma_separated_tickers() {
    assert_eq!(vec_from_str("AAPL,MSFT,TSLA"), vec!["AAPL", "MSFT", "TSLA"]);
}

#[test]
fn single_field_without_commas() {
    assert_eq!(vec_from_str("AAPL"), vec!["AAPL"]);
}

#[test]
fn empty_fields_are_kept() {
    assert_eq!(vec_from_str("A,,B,"), vec!["A", "", "B", ""]);
    assert_eq!(vec_from_str(""), vec![""]);
}

#[test]
fn settings_carry_the_run_inputs() {
    let s = Settings {
        app: AppSettings {
            num_stocks: 3,
            initial_equity: 10_000_000_000,
            tickers: vec_from_str("AAPL,MSFT"),
        },
    };
    assert_eq!(s.app.num_stocks, 3);
    assert_eq!(s.app.initial_equity, 10_000_000_000);
    assert_eq!(s.app.tickers.len(), 2);
}
