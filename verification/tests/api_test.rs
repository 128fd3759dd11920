use circllhist::{Bin, Decimal, Estimate, Fraction, Histogram, Sample, Sum};

const S1: &[f64] = &[0.123, 0.0, 0.43, 0.41, 0.415, 0.2201, 0.3201, 0.125, 0.13];
const STRINGS: &[&str] = &[
    "H[0.0e+00]=1",
    "H[1.2e-01]=2",
    "H[1.3e-01]=1",
    "H[2.2e-01]=1",
    "H[3.2e-01]=1",
    "H[4.1e-01]=2",
    "H[4.3e-01]=1",
];

fn assert_approx_eq(left: f64, right: f64) {
    let delta = (left / 100000.0f64).abs();
    assert!(
        left >= right - delta && left <= right + delta,
        "assertion failed: `(left ~= right)`\n  left: `{left:?}`,\n right: `{right:?}`",
    );
}

fn assert_approx_eq_msg(left: f64, right: f64, msg: &str) {
    let delta = (left / 100000.0f64).abs();
    assert!(
        left >= right - delta && left <= right + delta,
        "assertion failed: `(left ~= right)`\n  left: `{left:?}`,\n right: `{right:?}`: {}",
        msg
    );
}

fn pow10(exponent: i32) -> f64 {
    format!("1e{exponent}").parse::<f64>().unwrap()
}

fn sample(f: f64) -> Sample {
    if f.is_infinite() || f.is_nan() {
        return Sample::NotFinite;
    }
    if f == 0.0 {
        return Sample::Zero;
    }
    let negative = f.is_sign_negative();
    let f = f.abs();
    let exponent = f.log10().floor() as i64;
    let tenths = if (-128..=127).contains(&exponent) {
        (f / pow10(exponent as i32) * 10.0 + 1e-13).floor() as i64
    } else {
        0
    };
    Sample::Finite { negative, exponent, tenths }
}

fn decimal(d: Decimal) -> f64 {
    d.coefficient as f64 * pow10(d.exponent)
}

fn value(e: Estimate) -> f64 {
    if e.numerator == 0 {
        decimal(e.left)
    } else if e.numerator == e.denominator {
        decimal(e.left) + decimal(e.width)
    } else {
        decimal(e.left) + e.numerator as f64 / e.denominator as f64 * decimal(e.width)
    }
}

fn fraction(q: f64) -> Fraction {
    const SCALE: f64 = 4611686018427387904.0;
    Fraction { numerator: (q * SCALE).round() as i64, denominator: 1 << 62 }
}

fn sum_value(sum: &Sum) -> f64 {
    let sign = if sum.negative { "-" } else { "" };
    let digits: String = sum.digits.iter().rev().map(|d| char::from(b'0' + d)).collect();
    format!("{sign}0{digits}e-130").parse().unwrap()
}

fn approx_sum(histogram: &Histogram) -> f64 {
    sum_value(&histogram.approx_sum())
}

fn approx_mean(histogram: &Histogram) -> f64 {
    match histogram.approx_mean() {
        Some(mean) => sum_value(&mean.sum) / mean.count as f64,
        None => f64::NAN,
    }
}

fn min(histogram: &Histogram) -> f64 {
    histogram.min().map(value).unwrap_or(f64::NAN)
}

fn max(histogram: &Histogram) -> f64 {
    histogram.max().map(value).unwrap_or(f64::NAN)
}

fn test_quantiles<const QS: usize>(
    vals: &[f64],
    quantiles: [f64; QS],
    expected_quantiles: [f64; QS],
) {
    let mut histogram = Histogram::default();
    println!("--- quantiles: {quantiles:?} ---");
    println!("    vals: {vals:?}");

    for v in vals {
        histogram.record(sample(*v)).expect("value should be recorded successfully");
    }

    println!("expected: {expected_quantiles:?}");

    let actual_quantiles = histogram
        .approx_quantiles(&quantiles.map(fraction))
        .expect("quantiles should be calculated successfully")
        .map(value);
    println!("  actual: {actual_quantiles:?}");

    for (&quantile, (&actual, &expected)) in
        quantiles.iter().zip(actual_quantiles.iter().zip(expected_quantiles.iter()))
    {
        assert_approx_eq_msg(
            actual,
            expected,
            &format!("q({quantile}) -> {expected} != {actual}\n  hist: {histogram:#?}"),
        );
    }
    println!("--- ok!\n");
}

#[test]
fn display_buckets() {
    const RUST_STRINGS: &[&str] = &[
        "H[0.0e0]=1",
        "H[1.2e-1]=2",
        "H[1.3e-1]=1",
        "H[2.2e-1]=1",
        "H[3.2e-1]=1",
        "H[4.1e-1]=2",
        "H[4.3e-1]=1",
    ];
    let mut histogram = Histogram::default();
    for v in S1 {
        histogram.record(sample(*v)).expect("value should be recorded successfully");
    }

    let shown = histogram.display_bins();
    let mut bins = shown.iter();
    for &expected in RUST_STRINGS {
        let formatted = bins.next().map(|bin| bin.to_string());
        assert_eq!(Some(expected), formatted.as_deref());
    }

    assert!(bins.next().is_none());
}

#[test]
fn from_strs() {
    let single_hist = Histogram::from_strs(STRINGS).expect("histogram should parse");

    let doubled: Vec<&str> = STRINGS.iter().chain(STRINGS.iter()).copied().collect();
    let double_hist = Histogram::from_strs(&doubled).expect("doubled histogram should parse");
    println!(
        "single_hist:\n{}\ndouble_hist:\n{}",
        single_hist.to_string_alternate(),
        double_hist.to_string_alternate()
    );

    assert_approx_eq(approx_sum(&single_hist) * 2.0, approx_sum(&double_hist));
    assert_ne!(single_hist, double_hist)
}

#[test]
fn mean() {
    let mut histogram = Histogram::default();
    for v in S1 {
        histogram.record(sample(*v)).expect("value should be recorded successfully");
    }
    assert_approx_eq(0.2444444444, approx_mean(&histogram));
}

#[test]
fn quantiles1() {
    test_quantiles(&[1.0], [0.0, 0.25, 0.5, 1.0], [1.0, 1.025, 1.05, 1.1]);
}

#[test]
fn quantiles2() {
    test_quantiles(S1, [0.0, 0.95, 0.99, 1.0], [0.0, 0.4355, 0.4391, 0.44]);
}

#[test]
fn quantiles3() {
    test_quantiles(&[1.0, 2.0], [0.5], [1.1]);
}

#[test]
fn quantiles4() {
    test_quantiles(&[1.0, 1e200], [0.0, 1.0], [1.0, 1.1]);
}

#[test]
fn quantiles5() {
    test_quantiles(
        &[1e200, 1e200, 1e200, 0.0, 0.0, 1e-20, 1e-20, 1e-20, 1e-10],
        [0.0, 1.0],
        [0.0, 1.1e-10],
    );
}

#[test]
fn quantiles6() {
    test_quantiles(&[0.0, 0.1], [0.0, 0.1], [0.0, 0.0])
}

#[test]
fn min_max_mean() {
    const MIN: usize = 0;
    const MAX: usize = 1000000;
    let mut h = Histogram::default();
    for i in MIN..MAX {
        h.record(sample(i as f64)).expect("value should be recorded successfully");
    }

    assert_eq!(min(&h), MIN as f64, "incorrect `min` value");
    assert_eq!(max(&h), MAX as f64, "incorrect `max` value");
    let round = |val: f64| -> i64 {
        let r = 0.5 * val.signum();
        (val + r) as i64
    };
    assert_eq!(round(approx_mean(&h)), round(MAX as f64 / 2.0));
}

#[test]
fn merge() {
    let mut h1 = Histogram::default();
    let mut h2 = Histogram::default();
    let mut expect = Histogram::default();

    for i in 0..100 {
        let i = i as f64;
        h1.record_f64s(sample(i), 1).unwrap();
        h2.record_f64s(sample(i), 2).unwrap();
        expect.record_f64s(sample(i), 3).unwrap();
    }

    for i in 100..200 {
        let i = i as f64;
        h1.record(sample(i)).unwrap();
        expect.record(sample(i)).unwrap();
    }
    for i in 400..600 {
        let i = i as f64;
        h2.record(sample(i)).unwrap();
        expect.record(sample(i)).unwrap();
    }

    h1.merge_from(&h2);
    assert_eq!(h1, expect);
}

#[test]
fn floats_and_integers_get_the_same_bin() {
    for i in 0..1_000_000i64 {
        assert_eq!(Bin::from_sample(sample(i as f64)), Bin::from_int_scale(i, 0), "{i}");
        assert_eq!(Bin::from_sample(sample(-i as f64)), Bin::from_int_scale(-i, 0), "-{i}");
    }
    let scaled: [(i64, i32); 12] = [
        (123, -3),
        (4159, -4),
        (2201, -4),
        (1, -20),
        (1, 20),
        (99, -129),
        (12, 126),
        (5, 127),
        (5, -128),
        (7, -129),
        (1, 200),
        (1, -200),
    ];
    for (value, scale) in scaled {
        let f: f64 = format!("{value}e{scale}").parse().unwrap();
        assert_eq!(Bin::from_sample(sample(f)), Bin::from_int_scale(value, scale), "{f:e}");
        assert_eq!(Bin::from_sample(sample(-f)), Bin::from_int_scale(-value, scale), "-{f:e}");
    }
    assert_eq!(Bin::from_sample(sample(f64::INFINITY)), Bin::nan());
    assert_eq!(Bin::from_sample(sample(f64::NEG_INFINITY)), Bin::nan());
    assert_eq!(Bin::from_sample(sample(f64::NAN)), Bin::nan());
    assert_eq!(Bin::from_sample(sample(-0.0)), Bin::zero());
    assert_eq!(Bin::from_sample(sample(f64::MIN_POSITIVE)), Bin::zero());
    assert_eq!(Bin::from_sample(sample(f64::MAX)), Bin::nan());
}
