use circllhist::{Bin, Histogram, HistogramBuilder, Sample};

fn entries(histogram: &Histogram) -> Vec<(i8, i8, u64)> {
    (0..histogram.len())
        .map(|i| {
            let bin = histogram.bin(i).unwrap();
            (bin.mantissa(), bin.exponent(), bin.occurrences())
        })
        .collect()
}

fn is_strictly_sorted(histogram: &Histogram) -> bool {
    (1..histogram.len())
        .all(|i| histogram.bin(i - 1).unwrap().precedes(&histogram.bin(i).unwrap()))
}

#[test]
fn a_new_histogram_is_empty() {
    for histogram in [
        Histogram::new(),
        Histogram::default(),
        Histogram::with_capacity(0),
        Histogram::with_capacity(7),
        Histogram::build().build(),
    ] {
        assert_eq!(histogram.len(), 0);
        assert_eq!(histogram.bin_count(), 0);
        assert!(histogram.bin(0).is_none());
        assert_eq!(histogram.total_count(), 0);
        assert!(histogram.display_bins().is_empty());
    }
}

#[test]
fn builder_settings_do_not_change_the_histogram() {
    let plain = HistogramBuilder::default().build();
    let tuned = Histogram::build().with_lookup_tables(false).bins(3).build();
    let huge = Histogram::build().bins(usize::MAX).with_lookup_tables(true).build();
    assert_eq!(plain, tuned);
    assert_eq!(plain, huge);
    assert_eq!(HistogramBuilder::DEFAULT_SIZE, 100);
}

#[test]
fn recording_the_same_value_twice_gives_one_bin() {
    let mut histogram = Histogram::new();
    histogram.record_int_scale(5, 0).unwrap();
    assert!(is_strictly_sorted(&histogram));
    histogram.record_int_scale(5, 0).unwrap();
    assert!(is_strictly_sorted(&histogram));
    assert_eq!(entries(&histogram), vec![(50, 0, 2)]);
    histogram.record_int_scales(50, -1, 40).unwrap();
    assert_eq!(entries(&histogram), vec![(50, 0, 42)]);
    histogram.record(Sample::Finite { negative: false, exponent: 0, tenths: 50 }).unwrap();
    histogram
        .record_f64s(Sample::Finite { negative: false, exponent: 0, tenths: 50 }, 7)
        .unwrap();
    assert_eq!(entries(&histogram), vec![(50, 0, 50)]);
    assert_eq!(histogram.bin_count(), 1);
}

#[test]
fn bins_stay_in_order_whatever_the_order_of_recording() {
    let mut histogram = Histogram::new();
    let values: [(i64, i32); 12] = [
        (5, 0),
        (-5, 0),
        (0, 0),
        (1, 128),
        (123, -3),
        (-123, -3),
        (99, 0),
        (100, 0),
        (1, -128),
        (-1, 127),
        (7, -200),
        (5, 0),
    ];
    for (value, scale) in values {
        histogram.record_int_scale(value, scale).unwrap();
        assert!(is_strictly_sorted(&histogram));
    }
    assert_eq!(
        entries(&histogram),
        vec![
            (-1, 0, 1),
            (-12, -1, 1),
            (-50, 0, 1),
            (-10, 127, 1),
            (0, 0, 2),
            (10, -128, 1),
            (12, -1, 1),
            (50, 0, 2),
            (99, 1, 1),
            (10, 2, 1),
        ]
    );
    assert_eq!(histogram.total_count(), 11);
}

#[test]
fn recording_chains() {
    let mut histogram = Histogram::new();
    histogram
        .record_int_scale(1, 0)
        .unwrap()
        .record_int_scales(2, 0, 2)
        .unwrap()
        .record(Sample::Zero)
        .unwrap()
        .record_f64s(Sample::NotFinite, 4)
        .unwrap();
    assert_eq!(entries(&histogram), vec![(-1, 0, 4), (0, 0, 1), (10, 0, 1), (20, 0, 2)]);
}

#[test]
fn a_negative_delta_for_a_new_bucket_leaves_an_empty_bin() {
    let mut histogram = Histogram::new();
    histogram.record_int_scales(5, 0, -3).unwrap();
    assert_eq!(entries(&histogram), vec![(50, 0, 0)]);
    histogram.insert(Bin::from_int_scale(7, 0).with_count(10), -4);
    assert_eq!(entries(&histogram), vec![(50, 0, 0), (70, 0, 6)]);
    histogram.insert(Bin::from_int_scale(7, 0).with_count(1000), -4);
    assert_eq!(entries(&histogram), vec![(50, 0, 0), (70, 0, 2)]);
    histogram.insert(Bin::from_int_scale(7, 0), i64::MIN);
    assert_eq!(entries(&histogram), vec![(50, 0, 0), (70, 0, 0)]);
}

#[test]
fn counts_saturate() {
    let mut histogram = Histogram::new();
    histogram.record_int_scales(5, 0, i64::MAX).unwrap();
    histogram.record_int_scales(5, 0, i64::MAX).unwrap();
    histogram.record_int_scales(5, 0, i64::MAX).unwrap();
    assert_eq!(entries(&histogram), vec![(50, 0, u64::MAX)]);
    histogram.add_occurrences(Bin::from_int_scale(6, 0), u64::MAX);
    histogram.add_occurrences(Bin::from_int_scale(6, 0), 1);
    assert_eq!(entries(&histogram), vec![(50, 0, u64::MAX), (60, 0, u64::MAX)]);
    assert_eq!(histogram.total_count(), 2 * u64::MAX as u128);
}

#[test]
fn the_sentinel_is_counted_but_weighs_nothing() {
    let mut histogram = Histogram::new();
    histogram.record(Sample::NotFinite).unwrap();
    histogram.record_int_scale(1, 500).unwrap();
    histogram.record(Sample::Finite { negative: true, exponent: 300, tenths: 0 }).unwrap();
    assert_eq!(entries(&histogram), vec![(-1, 0, 3)]);
    assert_eq!(histogram.total_count(), 0);
    histogram.record_int_scale(1, 0).unwrap();
    assert_eq!(histogram.total_count(), 1);
    assert_eq!(histogram.len(), 2);
}

#[test]
fn clear_empties() {
    let mut histogram = Histogram::new();
    histogram.record_int_scale(1, 0).unwrap();
    histogram.record_int_scale(2, 0).unwrap();
    histogram.clear();
    assert_eq!(histogram.len(), 0);
    assert_eq!(histogram, Histogram::new());
    histogram.record_int_scale(3, 0).unwrap();
    assert_eq!(entries(&histogram), vec![(30, 0, 1)]);
}

#[test]
fn equality_looks_at_every_bin() {
    let mut a = Histogram::new();
    let mut b = Histogram::new();
    assert_eq!(a, b);
    a.record_int_scale(1, 0).unwrap();
    assert_ne!(a, b);
    b.record_int_scale(1, 0).unwrap();
    assert_eq!(a, b);
    a.record_int_scale(2, 0).unwrap();
    assert_ne!(a, b);
    assert_ne!(b, a);
    b.record_int_scales(2, 0, 2).unwrap();
    assert_ne!(a, b);
    a.record_int_scale(2, 0).unwrap();
    assert_eq!(a, b);
}

#[test]
fn merging_adds_the_counts_of_matching_bins() {
    let mut a = Histogram::new();
    a.record_int_scales(1, 0, 5).unwrap();
    a.record_int_scales(3, 0, 1).unwrap();
    let mut b = Histogram::new();
    b.record_int_scales(3, 0, 10).unwrap();
    b.record_int_scales(2, 0, 7).unwrap();
    b.record(Sample::NotFinite).unwrap();
    a.merge_from(&b);
    assert_eq!(entries(&a), vec![(-1, 0, 1), (10, 0, 5), (20, 0, 7), (30, 0, 11)]);
    assert_eq!(entries(&b), vec![(-1, 0, 1), (20, 0, 7), (30, 0, 10)]);
}

#[test]
fn merging_is_commutative() {
    let mut a = Histogram::new();
    let mut b = Histogram::new();
    for i in 0..300 {
        a.record_int_scales(i * 7 - 500, -1, i + 1).unwrap();
        b.record_int_scales(i * 11 - 900, -1, 2 * i + 1).unwrap();
    }
    let mut ab = Histogram::new();
    ab.merge_from(&a);
    ab.merge_from(&b);
    let mut ba = Histogram::new();
    ba.merge_from(&b);
    ba.merge_from(&a);
    assert_eq!(ab, ba);
    let mut direct = Histogram::new();
    for i in 0..300 {
        direct.record_int_scales(i * 11 - 900, -1, 2 * i + 1).unwrap();
        direct.record_int_scales(i * 7 - 500, -1, i + 1).unwrap();
    }
    assert_eq!(ab, direct);
}

#[test]
fn merging_is_associative() {
    let mut a = Histogram::new();
    let mut b = Histogram::new();
    let mut c = Histogram::new();
    for i in 0..100 {
        a.record_int_scales(i, 0, 1).unwrap();
        b.record_int_scales(i * 3, 0, 2).unwrap();
        c.record_int_scales(i * 5 - 100, 0, 3).unwrap();
    }
    // (a + b) + c
    let mut left = Histogram::new();
    left.merge_from(&a);
    left.merge_from(&b);
    left.merge_from(&c);
    // a + (b + c)
    let mut bc = Histogram::new();
    bc.merge_from(&b);
    bc.merge_from(&c);
    let mut right = Histogram::new();
    right.merge_from(&a);
    right.merge_from(&bc);
    assert_eq!(left, right);
}

#[test]
fn merging_an_empty_histogram_changes_nothing() {
    let mut a = Histogram::new();
    a.record_int_scales(1, 0, 5).unwrap();
    a.record_int_scales(-3, 2, u64::MAX as i64).unwrap();
    a.add_occurrences(Bin::from_int_scale(9, 9), u64::MAX);
    let before = entries(&a);
    a.merge_from(&Histogram::new());
    assert_eq!(entries(&a), before);
}

#[test]
fn one_merge_adds_at_most_the_largest_signed_count() {
    let mut big = Histogram::new();
    big.add_occurrences(Bin::from_int_scale(1, 0), u64::MAX);
    let mut into = Histogram::new();
    into.merge_from(&big);
    assert_eq!(entries(&into), vec![(10, 0, i64::MAX as u64)]);
    into.merge_from(&big);
    assert_eq!(entries(&into), vec![(10, 0, u64::MAX - 1)]);
    into.merge_from(&big);
    assert_eq!(entries(&into), vec![(10, 0, u64::MAX)]);
}

#[test]
fn merging_keeps_empty_bins() {
    let mut a = Histogram::new();
    let mut b = Histogram::new();
    b.record_int_scales(4, 0, 0).unwrap();
    a.merge_from(&b);
    assert_eq!(entries(&a), vec![(40, 0, 0)]);
}

#[test]
fn display_bins_borrow_every_bin_in_order() {
    let mut histogram = Histogram::new();
    histogram.record_int_scale(2, 0).unwrap();
    histogram.record_int_scale(1, 0).unwrap();
    let shown = histogram.display_bins();
    assert_eq!(shown.len(), 2);
    assert_eq!(*shown[0].bin(), histogram.bin(0).unwrap());
    assert_eq!(*shown[1].bin(), histogram.bin(1).unwrap());
    assert_eq!(shown[0].bin().mantissa(), 10);
}
