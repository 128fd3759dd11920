use circllhist::{Decimal, Estimate, Fraction, Histogram, Sample};

fn assert_approx_eq(left: f64, right: f64) {
    let delta = (left / 100000.0f64).abs();
    assert!(
        left >= right - delta && left <= right + delta,
        "assertion failed: `(left ~= right)`\n  left: `{left:?}`,\n right: `{right:?}`",
    );
}

fn assert_approx_eq_msg(left: f64, right: f64, msg: &str) {
    let delta = (left / 100000.0f64).abs();
    assert!(
        left >= right - delta && left <= right + delta,
        "assertion failed: `(left ~= right)`\n  left: `{left:?}`,\n right: `{right:?}`: {}",
        msg
    );
}

fn pow10(exponent: i32) -> f64 {
    format!("1e{exponent}").parse::<f64>().unwrap()
}

fn sample(f: f64) -> Sample {
    if f.is_infinite() || f.is_nan() {
        return Sample::NotFinite;
    }
    if f == 0.0 {
        return Sample::Zero;
    }
    let negative = f.is_sign_negative();
    let f = f.abs();
    let exponent = f.log10().floor() as i64;
    let tenths = if (-128..=127).contains(&exponent) {
        (f / pow10(exponent as i32) * 10.0 + 1e-13).floor() as i64
    } else {
        0
    };
    Sample::Finite { negative, exponent, tenths }
}

fn decimal(d: Decimal) -> f64 {
    d.coefficient as f64 * pow10(d.exponent)
}

fn value(e: Estimate) -> f64 {
    if e.numerator == 0 {
        decimal(e.left)
    } else if e.numerator == e.denominator {
        decimal(e.left) + decimal(e.width)
    } else {
        decimal(e.left) + e.numerator as f64 / e.denominator as f64 * decimal(e.width)
    }
}

fn fraction(q: f64) -> Fraction {
    const SCALE: f64 = 4611686018427387904.0;
    Fraction { numerator: (q * SCALE).round() as i64, denominator: 1 << 62 }
}

fn test_quantiles<const QS: usize>(
    vals: &[f64],
    quantiles: [f64; QS],
    expected_quantiles: [f64; QS],
) {
    let mut histogram = Histogram::default();
    println!("--- quantiles: {quantiles:?} ---");
    println!("    vals: {vals:?}");

    for v in vals {
        histogram.record(sample(*v)).expect("value should be recorded successfully");
    }

    println!("expected: {expected_quantiles:?}");

    let actual_quantiles = histogram
        .approx_quantiles(&quantiles.map(fraction))
        .expect("quantiles should be calculated successfully")
        .map(value);
    println!("  actual: {actual_quantiles:?}");

    for (&quantile, (&actual, &expected)) in
        quantiles.iter().zip(actual_quantiles.iter().zip(expected_quantiles.iter()))
    {
        assert_approx_eq_msg(
            actual,
            expected,
            &format!("q({quantile}) -> {expected} != {actual}\n  hist: {histogram:#?}"),
        );
    }
    println!("--- ok!\n");
}

#[test]
fn approx_eq_succeeds() {
    assert_approx_eq(0.1 + 0.2, 0.3);
}

#[test]
#[should_panic]
fn approx_eq_fails() {
    assert_approx_eq(0.1, 0.2);
}

#[test]
fn approx_eq_msg_succeeds() {
    assert_approx_eq_msg(0.1 + 0.2, 0.3, "lol floating point");
}

#[test]
#[should_panic]
fn approx_eq_msg_fails() {
    assert_approx_eq_msg(0.1, 0.2, "lol floating point");
}

#[test]
fn quantiles_helper_runs() {
    test_quantiles(&[1.0], [0.5], [1.05]);
}
