use pyfetcher::rational::Rational;
use pyfetcher::series::PriceData;
use pyfetcher::estimator::{covariance, covariance_checked, mean_returns};
use pyfetcher::solvers::{erc, max_sharpe_long, min_variance, min_variance_long, risk_parity,
    SolverError};
use pyfetcher::csv::{parse_price_csv, CsvError};
use pyfetcher::report::{format_fixed6, format_percent, format_report, format_scientific};

fn rat(n: i64, d: i64) -> Rational {
    Rational::new_frac(n, d)
}

fn bytes(s: &str) -> Vec<u8> {
    s.as_bytes().to_vec()
}

/// Three assets, prices [[100,50,200],[101,49,202],[99,51,198]] over d0..d2.
fn scenario_data() -> PriceData {
    PriceData {
        dates: vec![bytes("d0"), bytes("d1"), bytes("d2")],
        tickers: vec![bytes("A"), bytes("B"), bytes("C")],
        prices: vec![
            vec![rat(100, 1), rat(50, 1), rat(200, 1)],
            vec![rat(101, 1), rat(49, 1), rat(202, 1)],
            vec![rat(99, 1), rat(51, 1), rat(198, 1)],
        ],
    }
}

/// Two assets over four observations; generic returns, invertible covariance.
fn two_asset_data() -> PriceData {
    PriceData {
        dates: vec![bytes("d0"), bytes("d1"), bytes("d2"), bytes("d3")],
        tickers: vec![bytes("X"), bytes("Y")],
        prices: vec![
            vec![rat(100, 1), rat(200, 1)],
            vec![rat(110, 1), rat(202, 1)],
            vec![rat(99, 1), rat(208, 1)],
            vec![rat(105, 1), rat(210, 1)],
        ],
    }
}

fn sum_all(v: &Vec<Rational>) -> Rational {
    let mut acc = Rational::from_int(0);
    for x in v.iter() {
        acc = acc.add(x);
    }
    acc
}

#[test]
fn returns_round_trip() {
    let data = scenario_data();
    assert!(data.all_prices_positive());
    let ret = data.simple_returns();
    assert_eq!(ret.n_obs(), 2);
    assert_eq!(ret.n_assets(), 3);
    let one = Rational::from_int(1);
    for i in 0..2 {
        for j in 0..3 {
            let rebuilt = data.price(i, j).mul(&one.add(&ret.price(i, j)));
            assert!(rebuilt.eqv(&data.price(i + 1, j)));
        }
    }
}

#[test]
fn covariance_is_symmetric() {
    let ret = scenario_data().simple_returns();
    let cov = covariance(&ret);
    assert_eq!(cov.len(), 3);
    for a in 0..3 {
        assert_eq!(cov[a].len(), 3);
        for b in 0..3 {
            assert!(cov[a][b].eqv(&cov[b][a]));
        }
    }
}

#[test]
fn min_variance_weights_sum_to_one() {
    let ret = two_asset_data().simple_returns();
    let cov = covariance(&ret);
    let w = min_variance(&cov).expect("covariance should be invertible");
    assert!(sum_all(&w).eqv(&Rational::from_int(1)));
}

#[test]
fn min_variance_long_sums_to_one_and_is_nonnegative() {
    let ret = two_asset_data().simple_returns();
    let cov = covariance(&ret);
    let w = min_variance_long(&cov).expect("projection should be feasible");
    assert!(sum_all(&w).eqv(&Rational::from_int(1)));
    for x in w.iter() {
        assert!(x.num_nonneg());
    }
}

#[test]
fn risk_parity_sums_to_one_and_is_nonnegative() {
    let ret = two_asset_data().simple_returns();
    let cov = covariance(&ret);
    let w = risk_parity(&cov).expect("variances are positive");
    assert!(sum_all(&w).eqv(&Rational::from_int(1)));
    for x in w.iter() {
        assert!(x.num_nonneg());
    }
}

#[test]
fn max_sharpe_exact_on_diagonal_covariance() {
    let cov = vec![
        vec![rat(1, 100), rat(0, 1)],
        vec![rat(0, 1), rat(1, 100)],
    ];
    let means = vec![rat(1, 10), rat(1, 20)];
    let rf = rat(0, 1);
    let w = max_sharpe_long(&cov, &means, &rf).expect("feasible tangency");
    assert!(sum_all(&w).eqv(&Rational::from_int(1)));
    assert!(w[0].eqv(&rat(2, 3)));
    assert!(w[1].eqv(&rat(1, 3)));
    for x in w.iter() {
        assert!(x.num_nonneg());
    }
}

#[test]
fn max_sharpe_infeasible_when_risk_free_dominates() {
    let cov = vec![
        vec![rat(1, 100), rat(0, 1)],
        vec![rat(0, 1), rat(1, 100)],
    ];
    // Both excess returns are negative: everything is clamped away.
    let means = vec![rat(-1, 10), rat(-1, 20)];
    let rf = rat(0, 1);
    match max_sharpe_long(&cov, &means, &rf) {
        Err(SolverError::Infeasible) => {},
        other => panic!("expected infeasibility, got {:?}", other.map(|_| ())),
    }
}

#[test]
fn min_variance_exact_on_symmetric_covariance() {
    let cov = vec![
        vec![rat(2, 1), rat(1, 1)],
        vec![rat(1, 1), rat(2, 1)],
    ];
    let w = min_variance(&cov).expect("invertible");
    assert!(w[0].eqv(&rat(1, 2)));
    assert!(w[1].eqv(&rat(1, 2)));
}

#[test]
fn equal_weights_for_identical_independent_assets() {
    let cov = vec![
        vec![rat(1, 100), rat(0, 1)],
        vec![rat(0, 1), rat(1, 100)],
    ];
    let half = rat(1, 2);
    let w = risk_parity(&cov).expect("positive variances");
    assert!(w[0].eqv(&half));
    assert!(w[1].eqv(&half));
    let out = erc(&cov).expect("iteration is well defined");
    assert!(out.converged);
    assert_eq!(out.iterations, 1);
    assert!(out.weights[0].eqv(&half));
    assert!(out.weights[1].eqv(&half));
}

#[test]
fn singular_covariance_is_rejected() {
    // Three assets but only two return observations: rank-deficient.
    let ret = scenario_data().simple_returns();
    let cov = covariance(&ret);
    match min_variance(&cov) {
        Err(SolverError::SingularCovariance) => {},
        other => panic!("expected singular covariance, got {:?}", other.map(|_| ())),
    }
    let means = mean_returns(&ret);
    match max_sharpe_long(&cov, &means, &rat(0, 1)) {
        Err(SolverError::SingularCovariance) => {},
        other => panic!("expected singular covariance, got {:?}", other.map(|_| ())),
    }
}

#[test]
fn too_few_observations_are_rejected() {
    // Two assets, one return observation: the unbiased estimator is undefined.
    let data = PriceData {
        dates: vec![bytes("d0"), bytes("d1")],
        tickers: vec![bytes("A"), bytes("B")],
        prices: vec![
            vec![rat(100, 1), rat(200, 1)],
            vec![rat(101, 1), rat(199, 1)],
        ],
    };
    let ret = data.simple_returns();
    match covariance_checked(&ret) {
        Err(SolverError::SingularCovariance) => {},
        other => panic!("expected rejection, got {:?}", other.map(|_| ())),
    }
}

#[test]
fn risk_parity_with_zero_variance_is_rejected() {
    let cov = vec![
        vec![rat(0, 1), rat(0, 1)],
        vec![rat(0, 1), rat(1, 100)],
    ];
    match risk_parity(&cov) {
        Err(SolverError::NonPositiveVariance) => {},
        other => panic!("expected non-positive variance, got {:?}", other.map(|_| ())),
    }
}

#[test]
fn erc_risk_contributions_equalize() {
    let cov = vec![
        vec![rat(4, 1000), rat(1, 1000)],
        vec![rat(1, 1000), rat(9, 1000)],
    ];
    let out = erc(&cov).expect("iteration is well defined");
    assert!(out.converged);
    assert!(out.iterations <= 1000);
    let w = &out.weights;
    // rc_j = w_j * (cov w)_j must agree across assets for a converged run.
    let s0 = cov[0][0].mul(&w[0]).add(&cov[0][1].mul(&w[1]));
    let s1 = cov[1][0].mul(&w[0]).add(&cov[1][1].mul(&w[1]));
    let rc0 = w[0].mul(&s0);
    let rc1 = w[1].mul(&s1);
    let spread = rc0.sub(&rc1).abs();
    assert!(spread.le(&rat(1, 1000000)));
    assert!(sum_all(w).eqv(&Rational::from_int(1)));
}

#[test]
fn scenario_three_assets_inverse_vol_favors_low_volatility() {
    let data = scenario_data();
    let ret = data.simple_returns();
    let cov = covariance(&ret);
    let w = risk_parity(&cov).expect("positive variances");
    assert!(sum_all(&w).eqv(&Rational::from_int(1)));
    // Assets A and C have identical return series, B swings more.
    assert!(w[0].eqv(&w[2]));
    assert!(w[1].lt(&w[0]));
}

#[test]
fn csv_parses_simple_table() {
    let input = b"Date,AAA,BBB\n2020-01-01,1.5,2\n2020-01-02,1.6,2.25\n";
    let pd = parse_price_csv(input).expect("well-formed table");
    assert_eq!(pd.n_assets(), 2);
    assert_eq!(pd.n_obs(), 2);
    assert_eq!(pd.tickers[0], bytes("AAA"));
    assert_eq!(pd.tickers[1], bytes("BBB"));
    assert_eq!(pd.dates[0], bytes("2020-01-01"));
    assert!(pd.prices[0][0].eqv(&rat(3, 2)));
    assert!(pd.prices[0][1].eqv(&rat(2, 1)));
    assert!(pd.prices[1][1].eqv(&rat(9, 4)));
}

#[test]
fn csv_tolerates_blank_and_ragged_rows() {
    // One trailing blank line and one row with a stray extra field: both are
    // skipped, everything else is kept.
    let input = b"Date,AAA,BBB\n2020-01-01,1.5,2\n2020-01-02,1.6,2.25,9\n2020-01-03,1.7,2.5\n\n";
    let pd = parse_price_csv(input).expect("tolerated");
    assert_eq!(pd.n_obs(), 2);
    assert_eq!(pd.dates[0], bytes("2020-01-01"));
    assert_eq!(pd.dates[1], bytes("2020-01-03"));
    assert!(pd.prices[1][0].eqv(&rat(17, 10)));
}

#[test]
fn csv_accepts_windows_line_endings_and_negative_prices() {
    let input = b"Date,AAA\r\n2020-01-01,-0.25\r\n";
    let pd = parse_price_csv(input).expect("trimmed");
    assert_eq!(pd.n_obs(), 1);
    assert_eq!(pd.tickers[0], bytes("AAA"));
    assert!(pd.prices[0][0].eqv(&rat(-1, 4)));
}

#[test]
fn csv_rejects_empty_input() {
    match parse_price_csv(b"") {
        Err(CsvError::MissingHeader) => {},
        other => panic!("expected missing header, got {:?}", other.map(|_| ())),
    }
}

#[test]
fn csv_rejects_wrong_first_column() {
    match parse_price_csv(b"Time,AAA\n2020-01-01,1\n") {
        Err(CsvError::MissingDateHeader) => {},
        other => panic!("expected date-header error, got {:?}", other.map(|_| ())),
    }
}

#[test]
fn csv_rejects_malformed_number_in_full_row() {
    match parse_price_csv(b"Date,AAA\n2020-01-01,abc\n") {
        Err(CsvError::InvalidNumber) => {},
        other => panic!("expected invalid number, got {:?}", other.map(|_| ())),
    }
}

#[test]
fn percent_formatting_rounds_to_two_places() {
    assert_eq!(String::from_utf8(format_percent(&rat(1, 2))).unwrap(), "50.00");
    assert_eq!(String::from_utf8(format_percent(&rat(1, 3))).unwrap(), "33.33");
    assert_eq!(String::from_utf8(format_percent(&rat(-1, 8))).unwrap(), "-12.50");
    // 0.125 percent: the tie rounds away from zero.
    assert_eq!(String::from_utf8(format_percent(&rat(1, 800))).unwrap(), "0.13");
    assert_eq!(String::from_utf8(format_percent(&rat(0, 1))).unwrap(), "0.00");
    assert_eq!(String::from_utf8(format_percent(&rat(1, 1))).unwrap(), "100.00");
}

#[test]
fn report_lists_each_ticker_line() {
    let tickers = vec![bytes("AA"), bytes("BB")];
    let weights = vec![rat(1, 2), rat(1, 2)];
    let rep = format_report(b"Min-variance portfolio weights:", &tickers, &weights);
    assert_eq!(
        String::from_utf8(rep).unwrap(),
        "Min-variance portfolio weights:\n  AA: 50.00%\n  BB: 50.00%\n"
    );
}

#[test]
fn rational_arithmetic_is_exact() {
    let a = rat(1, 3);
    let b = rat(1, 6);
    assert!(a.add(&b).eqv(&rat(1, 2)));
    assert!(a.sub(&b).eqv(&rat(1, 6)));
    assert!(a.mul(&b).eqv(&rat(1, 18)));
    assert!(a.div(&b).eqv(&rat(2, 1)));
    assert!(rat(2, 4).eqv(&rat(1, 2)));
    assert!(rat(-1, 2).lt(&rat(1, 3)));
    assert!(rat(1, 3).le(&rat(1, 3)));
    assert!(rat(1, -2).eqv(&rat(-1, 2)));
}

#[test]
fn csv_accepts_exponent_notation() {
    let input = b"Date,AAA,BBB\n2020-01-01,1e2,1.5e-2\n2020-01-02,2E3,+2.5e+1\n";
    let pd = parse_price_csv(input).expect("exponents are decimals");
    assert!(pd.prices[0][0].eqv(&rat(100, 1)));
    assert!(pd.prices[0][1].eqv(&rat(3, 200)));
    assert!(pd.prices[1][0].eqv(&rat(2000, 1)));
    assert!(pd.prices[1][1].eqv(&rat(25, 1)));
}

#[test]
fn csv_rejects_malformed_exponents() {
    match parse_price_csv(b"Date,AAA\n2020-01-01,1e\n") {
        Err(CsvError::InvalidNumber) => {},
        other => panic!("expected invalid number, got {:?}", other.map(|_| ())),
    }
    match parse_price_csv(b"Date,AAA\n2020-01-01,1e123456\n") {
        Err(CsvError::InvalidNumber) => {},
        other => panic!("expected invalid number, got {:?}", other.map(|_| ())),
    }
    match parse_price_csv(b"Date,AAA\n2020-01-01,1e5x\n") {
        Err(CsvError::InvalidNumber) => {},
        other => panic!("expected invalid number, got {:?}", other.map(|_| ())),
    }
}

#[test]
fn scientific_formatting_matches_expected_digits() {
    assert_eq!(String::from_utf8(format_scientific(&rat(0, 1))).unwrap(), "0.00e0");
    assert_eq!(String::from_utf8(format_scientific(&rat(1, 2))).unwrap(), "5.00e-1");
    assert_eq!(String::from_utf8(format_scientific(&rat(-1, 8))).unwrap(), "-1.25e-1");
    assert_eq!(String::from_utf8(format_scientific(&rat(123, 1))).unwrap(), "1.23e2");
    assert_eq!(String::from_utf8(format_scientific(&rat(1, 1000000))).unwrap(), "1.00e-6");
    // 999.999 rounds up across a power of ten.
    assert_eq!(String::from_utf8(format_scientific(&rat(999999, 1000))).unwrap(), "1.00e3");
    // 1.005 is a tie in the hundredths and rounds away from zero.
    assert_eq!(String::from_utf8(format_scientific(&rat(201, 200))).unwrap(), "1.01e0");
}

#[test]
fn fixed_point_formatting_shows_six_decimals() {
    assert_eq!(String::from_utf8(format_fixed6(&rat(1, 2))).unwrap(), "0.500000");
    assert_eq!(String::from_utf8(format_fixed6(&rat(-1, 3))).unwrap(), "-0.333333");
    assert_eq!(String::from_utf8(format_fixed6(&rat(1, 1))).unwrap(), "1.000000");
    // 5e-7 is a tie in the millionths and rounds away from zero.
    assert_eq!(String::from_utf8(format_fixed6(&rat(1, 2000000))).unwrap(), "0.000001");
    assert_eq!(String::from_utf8(format_fixed6(&rat(1, 4000000))).unwrap(), "0.000000");
    assert_eq!(String::from_utf8(format_fixed6(&rat(101, 100))).unwrap(), "1.010000");
}
