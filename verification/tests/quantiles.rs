use circllhist::quantile::is_sorted;
use circllhist::wide::Wide;
use circllhist::{
    Bin, Decimal, Estimate, Fraction, Histogram, QuantileError, QuantilesError, Sample,
};

fn frac(numerator: i64, denominator: u64) -> Fraction {
    Fraction { numerator, denominator }
}

fn dec(coefficient: i32, exponent: i32) -> Decimal {
    Decimal { coefficient, exponent }
}

fn histogram_of(values: &[(i64, i32, i64)]) -> Histogram {
    let mut histogram = Histogram::new();
    for &(value, scale, n) in values {
        histogram.record_int_scales(value, scale, n).unwrap();
    }
    histogram
}

/// The point of the bucket with the lower edge `coefficient * 10^exponent`
/// and the width `10^exponent` that lies `numerator / denominator` of the
/// width above that edge.
fn point(coefficient: i32, exponent: i32, numerator: u128, denominator: u128) -> Estimate {
    Estimate { left: dec(coefficient, exponent), width: dec(1, exponent), numerator, denominator }
}

/// Compares two estimates as exact numbers, where both lie in one decade.
fn same_point(a: Estimate, b: Estimate) -> bool {
    a.left == b.left
        && a.width == b.width
        && a.numerator * b.denominator == b.numerator * a.denominator
}

#[test]
fn fractions_in_and_out_of_the_unit_interval() {
    assert!(frac(0, 1).is_in_unit());
    assert!(frac(1, 1).is_in_unit());
    assert!(frac(95, 100).is_in_unit());
    assert!(frac(i64::MAX, u64::MAX).is_in_unit());
    assert!(frac(i64::MAX, i64::MAX as u64).is_in_unit());
    assert!(!frac(2, 1).is_in_unit());
    assert!(!frac(-1, 1).is_in_unit());
    assert!(!frac(i64::MIN, u64::MAX).is_in_unit());
    assert!(!frac(0, 0).is_in_unit());
    assert!(!frac(1, 0).is_in_unit());
}

#[test]
fn fractions_compare_as_numbers() {
    assert!(frac(1, 2).is_le(&frac(1, 2)));
    assert!(frac(1, 2).is_le(&frac(2, 4)));
    assert!(frac(1, 3).is_le(&frac(1, 2)));
    assert!(!frac(1, 2).is_le(&frac(1, 3)));
    assert!(frac(-1, 2).is_le(&frac(0, 7)));
    assert!(frac(i64::MIN, 1).is_le(&frac(i64::MAX, 1)));
    assert!(!frac(i64::MAX, 1).is_le(&frac(i64::MIN, 1)));
    assert!(frac(i64::MIN, u64::MAX).is_le(&frac(i64::MIN, u64::MAX)));
    assert!(frac(i64::MAX, u64::MAX).is_le(&frac(i64::MAX, u64::MAX - 1)));
    assert!(!frac(i64::MAX, u64::MAX - 1).is_le(&frac(i64::MAX, u64::MAX)));
    // A fraction without a denominator compares with nothing.
    assert!(!frac(0, 0).is_le(&frac(1, 1)));
    assert!(!frac(0, 1).is_le(&frac(1, 0)));
    assert!(!frac(0, 0).is_le(&frac(0, 0)));
}

#[test]
fn sortedness_of_fractions() {
    assert!(is_sorted(&[]));
    assert!(is_sorted(&[frac(5, 1)]));
    assert!(is_sorted(&[frac(0, 0)]));
    assert!(is_sorted(&[frac(0, 1), frac(1, 2), frac(1, 2), frac(1, 1)]));
    assert!(!is_sorted(&[frac(0, 1), frac(1, 2), frac(1, 3)]));
    assert!(!is_sorted(&[frac(0, 1), frac(0, 0)]));
    assert!(!is_sorted(&[frac(0, 0), frac(0, 1)]));
}

#[test]
fn wide_products() {
    let a = Wide::product(u128::MAX, u64::MAX);
    assert_eq!(a.high, u128::MAX - (1u128 << 64));
    assert_eq!(a.low, 1);
    let b = Wide::product(u128::MAX, u64::MAX - 1);
    assert!(b.lt(&a));
    assert!(!a.lt(&b));
    assert!(!a.lt(&a));
    assert!(a.same(&a));
    assert!(!a.same(&b));
    assert_eq!(a.minus(&b), u128::MAX);
    assert_eq!(a.minus(&a), 0);
    let c = Wide::product(7, 6);
    assert_eq!((c.high, c.low), (0, 42));
    let d = Wide::product(1u128 << 64, 3);
    assert_eq!((d.high, d.low), (3, 0));
    assert_eq!(d.minus(&c), (3u128 << 64) - 42);
    assert_eq!(Wide::product(0, u64::MAX), Wide { high: 0, low: 0 });
    assert_eq!(Wide::product(u128::MAX, 0), Wide { high: 0, low: 0 });
}

#[test]
fn no_fractions_give_no_estimates() {
    assert_eq!(Histogram::new().approx_quantiles(&[]), Ok([]));
    assert_eq!(Histogram::new().quantiles(&[]), Ok(vec![]));
    assert_eq!(histogram_of(&[(1, 0, 1)]).approx_quantiles(&[]), Ok([]));
    assert_eq!(histogram_of(&[(1, 0, 1)]).quantiles(&[]), Ok(vec![]));
}

#[test]
fn unsorted_fractions_are_refused_first() {
    let empty = Histogram::new();
    let full = histogram_of(&[(1, 0, 1)]);
    let unsorted = [frac(1, 2), frac(1, 4)];
    assert_eq!(empty.approx_quantiles(&unsorted), Err(QuantilesError::NotSorted));
    assert_eq!(empty.quantiles(&unsorted), Err(QuantilesError::NotSorted));
    assert_eq!(full.approx_quantiles(&unsorted), Err(QuantilesError::NotSorted));
    let out_of_bounds_too = [frac(5, 1), frac(1, 4)];
    assert_eq!(full.approx_quantiles(&out_of_bounds_too), Err(QuantilesError::NotSorted));
    let not_a_number = [frac(1, 4), frac(0, 0)];
    assert_eq!(full.approx_quantiles(&not_a_number), Err(QuantilesError::NotSorted));
}

#[test]
fn an_empty_histogram_has_no_quantiles() {
    let empty = Histogram::new();
    let err = Err(QuantilesError::Quantile(QuantileError::EmptyHistogram));
    let none = QuantilesError::Quantile(QuantileError::EmptyHistogram);
    assert_eq!(empty.approx_quantiles(&[frac(1, 2)]), Err(none));
    assert_eq!(empty.approx_quantiles(&[frac(7, 2)]), Err(none));
    assert_eq!(empty.quantiles(&[frac(7, 2), frac(9, 2)]), err);
    assert_eq!(empty.quantile(frac(1, 2)), Err(QuantileError::EmptyHistogram));
    assert_eq!(empty.quantile(frac(0, 0)), Err(QuantileError::EmptyHistogram));
    assert_eq!(empty.min(), None);
    assert_eq!(empty.max(), None);
}

#[test]
fn a_histogram_of_sentinels_and_empty_bins_has_no_quantiles() {
    let mut histogram = Histogram::new();
    histogram.record(Sample::NotFinite).unwrap();
    histogram.record_int_scales(5, 0, 0).unwrap();
    assert_eq!(histogram.len(), 2);
    assert_eq!(histogram.quantile(frac(1, 2)), Err(QuantileError::EmptyHistogram));
    assert_eq!(histogram.min(), None);
    assert_eq!(histogram.max(), None);
}

#[test]
fn the_first_fraction_out_of_bounds_is_reported() {
    let full = histogram_of(&[(1, 0, 1)]);
    let report = |q: Fraction| QuantilesError::Quantile(QuantileError::OutOfBounds(q));
    assert_eq!(
        full.approx_quantiles(&[frac(-1, 2), frac(1, 2), frac(3, 2)]),
        Err(report(frac(-1, 2)))
    );
    assert_eq!(
        full.approx_quantiles(&[frac(1, 2), frac(3, 2), frac(4, 2)]),
        Err(report(frac(3, 2)))
    );
    assert_eq!(full.approx_quantiles(&[frac(0, 0)]), Err(report(frac(0, 0))));
    assert_eq!(full.quantiles(&[frac(1, 2), frac(3, 2)]), Err(report(frac(3, 2))));
    assert_eq!(full.quantile(frac(2, 1)), Err(QuantileError::OutOfBounds(frac(2, 1))));
    assert_eq!(full.quantile(frac(-1, 9)), Err(QuantileError::OutOfBounds(frac(-1, 9))));
    assert_eq!(full.quantile(frac(7, 0)), Err(QuantileError::OutOfBounds(frac(7, 0))));
}

#[test]
fn quantiles_of_one_sample() {
    let histogram = histogram_of(&[(1, 0, 1)]);
    let left = dec(10, -1);
    let width = dec(1, -1);
    let estimates = histogram
        .approx_quantiles(&[frac(0, 1), frac(1, 4), frac(1, 2), frac(1, 1)])
        .unwrap();
    assert_eq!(
        estimates,
        [
            Estimate { left, width, numerator: 0, denominator: 1 },
            Estimate { left, width, numerator: 1, denominator: 4 },
            Estimate { left, width, numerator: 1, denominator: 2 },
            Estimate { left, width, numerator: 1, denominator: 1 },
        ]
    );
    assert_eq!(histogram.quantile(frac(1, 4)), Ok(estimates[1]));
    assert_eq!(histogram.min(), Some(estimates[0]));
    assert_eq!(histogram.max(), Some(estimates[3]));
}

#[test]
fn quantiles_interpolate_within_the_bin_that_holds_the_rank() {
    // Three bins with 1, 2 and 1 samples: cumulative weights 1, 3, 4.
    let histogram = histogram_of(&[(1, 0, 1), (2, 0, 2), (3, 0, 1)]);
    let get = |n, d| histogram.quantile(frac(n, d)).unwrap();
    // Rank 0 is the lower edge of the first bin.
    assert_eq!(get(0, 1), point(10, -1, 0, 1));
    // Rank 1 is reached by the first bin: its upper edge.
    assert_eq!(get(1, 4), point(10, -1, 1, 1));
    // Rank 2 lies halfway through the second bin.
    assert_eq!(get(1, 2), point(20, -1, 2, 4));
    assert!(same_point(
        get(2, 4),
        point(20, -1, 1, 2)
    ));
    // Rank 3 is reached by the second bin: its upper edge.
    assert_eq!(get(3, 4), point(20, -1, 1, 1));
    // Rank 3.5 lies halfway through the third.
    assert_eq!(get(7, 8), point(30, -1, 4, 8));
    assert_eq!(get(1, 1), point(30, -1, 1, 1));
}

#[test]
fn quantiles_skip_the_sentinel_and_empty_bins() {
    let mut histogram = histogram_of(&[(1, 0, 0), (2, 0, 4), (3, 0, 0), (4, 0, 4)]);
    histogram.record_f64s(Sample::NotFinite, 100).unwrap();
    assert_eq!(histogram.len(), 5);
    let get = |n, d| histogram.quantile(frac(n, d)).unwrap();
    // The walk starts at the first regular bin, empty as it is.
    assert_eq!(get(0, 1), point(10, -1, 0, 1));
    // Rank 2 of 8, in quarters: 8 of the 16 that the second bin spans.
    assert_eq!(get(1, 4), point(20, -1, 8, 16));
    assert_eq!(get(1, 2), point(20, -1, 1, 1));
    assert_eq!(get(3, 4), point(40, -1, 24 - 16, 16));
    assert_eq!(histogram.max(), Some(point(40, -1, 1, 1)));
}

#[test]
fn quantiles_in_the_zero_bucket_have_no_width() {
    let histogram = histogram_of(&[(0, 0, 4), (1, 0, 4)]);
    let zero = dec(0, 0);
    let get = |n, d| histogram.quantile(frac(n, d)).unwrap();
    assert_eq!(get(0, 1), Estimate { left: zero, width: zero, numerator: 0, denominator: 1 });
    assert_eq!(get(1, 4), Estimate { left: zero, width: zero, numerator: 0, denominator: 1 });
    assert_eq!(get(1, 2), Estimate { left: zero, width: zero, numerator: 1, denominator: 1 });
    assert_eq!(get(3, 4), point(10, -1, 2 * 4, 4 * 4));
}

#[test]
fn quantiles_below_zero() {
    let histogram = histogram_of(&[(-12, -1, 1), (-11, -1, 1)]);
    let get = |n, d| histogram.quantile(frac(n, d)).unwrap();
    assert_eq!(get(0, 1), point(-13, -1, 0, 1));
    assert_eq!(get(1, 2), point(-13, -1, 1, 1));
    assert_eq!(get(3, 4), point(-12, -1, 2, 4));
    assert_eq!(get(1, 1), point(-12, -1, 1, 1));
}

#[test]
fn a_list_of_quantiles_equals_the_single_ones() {
    let histogram = histogram_of(&[(1, 0, 3), (17, 0, 5), (230, 0, 7), (-4, 0, 2), (0, 0, 1)]);
    let fractions: Vec<Fraction> = (0..=36).map(|n| frac(n, 36)).collect();
    let together = histogram.quantiles(&fractions).unwrap();
    assert_eq!(together.len(), fractions.len());
    for (q, estimate) in fractions.iter().zip(together.iter()) {
        assert_eq!(histogram.quantile(*q), Ok(*estimate));
    }
}

#[test]
fn quantiles_grow_with_the_fraction() {
    let histogram = histogram_of(&[
        (-45, -1, 3),
        (-41, -1, 1),
        (0, 0, 2),
        (1, -5, 3),
        (17, 0, 5),
        (18, 0, 1),
        (230, 0, 7),
    ]);
    let fractions: Vec<Fraction> = (0..=200).map(|n| frac(n, 200)).collect();
    let estimates = histogram.quantiles(&fractions).unwrap();
    let value = |e: &Estimate| {
        let scale = |d: Decimal| d.coefficient as f64 * 10f64.powi(d.exponent);
        scale(e.left) + e.numerator as f64 / e.denominator as f64 * scale(e.width)
    };
    for pair in estimates.windows(2) {
        assert!(value(&pair[0]) <= value(&pair[1]), "{:?} {:?}", pair[0], pair[1]);
    }
    for e in &estimates {
        assert!(e.denominator > 0 && e.numerator <= e.denominator);
    }
}

#[test]
fn quantiles_below_zero_need_one_exponent_to_grow() {
    // -10 and -100 stand in the order of their exponents, not of their values.
    let histogram = histogram_of(&[(-10, 0, 1), (-100, 0, 1)]);
    let low = histogram.min().unwrap();
    let high = histogram.max().unwrap();
    assert_eq!(low, point(-11, 0, 0, 1));
    assert_eq!(high, point(-11, 1, 1, 1));
}

#[test]
fn quantiles_with_counts_and_fractions_at_their_limits() {
    let mut histogram = Histogram::new();
    for value in 1..=5 {
        histogram.add_occurrences(Bin::from_int_scale(value, 0), u64::MAX);
    }
    assert_eq!(histogram.total_count(), 5 * u64::MAX as u128);
    let q = frac(i64::MAX, u64::MAX);
    let estimate = histogram.quantile(q).unwrap();
    // Just below one half of the samples: the third bin, just below its middle.
    assert_eq!(estimate.left, dec(30, -1));
    assert_eq!(estimate.denominator, u64::MAX as u128 * u64::MAX as u128);
    // The rank is 5 * (2^63 - 1) times the total of one bin, twice of which lies below.
    assert_eq!(estimate.numerator, u64::MAX as u128 * ((1u128 << 63) - 3));
    let top = histogram.quantile(frac(i64::MAX, i64::MAX as u64)).unwrap();
    assert_eq!(top, point(50, -1, 1, 1));
}

#[test]
fn min_and_max_are_the_outer_edges() {
    let histogram = histogram_of(&[(-45, -1, 3), (17, 0, 5), (230, 0, 7)]);
    assert_eq!(
        histogram.min(),
        Some(point(-46, -1, 0, 1))
    );
    assert_eq!(
        histogram.max(),
        Some(point(23, 1, 1, 1))
    );
}
