use circllhist::{Bin, Decimal, Sample};
use std::cmp::Ordering;

fn key(bin: &Bin) -> (i8, i8) {
    (bin.mantissa(), bin.exponent())
}

fn finite(negative: bool, exponent: i64, tenths: i64) -> Bin {
    Bin::from_sample(Sample::Finite { negative, exponent, tenths })
}

#[test]
fn int_scale_takes_the_two_leading_digits() {
    assert_eq!(key(&Bin::from_int_scale(5, 0)), (50, 0));
    assert_eq!(key(&Bin::from_int_scale(10, 0)), (10, 1));
    assert_eq!(key(&Bin::from_int_scale(99, 0)), (99, 1));
    assert_eq!(key(&Bin::from_int_scale(100, 0)), (10, 2));
    assert_eq!(key(&Bin::from_int_scale(123, 0)), (12, 2));
    assert_eq!(key(&Bin::from_int_scale(123, -3)), (12, -1));
    assert_eq!(key(&Bin::from_int_scale(4159, -4)), (41, -1));
    assert_eq!(key(&Bin::from_int_scale(999_999, 0)), (99, 5));
    assert_eq!(key(&Bin::from_int_scale(-7, 1)), (-70, 1));
    assert_eq!(key(&Bin::from_int_scale(-1999, 2)), (-19, 5));
}

#[test]
fn int_scale_of_zero_is_the_zero_bucket() {
    for scale in [i32::MIN, -129, -1, 0, 1, 128, i32::MAX] {
        let bin = Bin::from_int_scale(0, scale);
        assert_eq!(key(&bin), (0, 0));
        assert!(!bin.is_nan());
    }
}

#[test]
fn int_scale_at_the_ends_of_the_exponent_range() {
    assert_eq!(key(&Bin::from_int_scale(1, 127)), (10, 127));
    assert_eq!(key(&Bin::from_int_scale(99, 126)), (99, 127));
    assert!(Bin::from_int_scale(1, 128).is_nan());
    assert!(Bin::from_int_scale(10, 127).is_nan());
    assert!(Bin::from_int_scale(-10, 127).is_nan());
    assert_eq!(key(&Bin::from_int_scale(1, 128)), (-1, 0));
    assert_eq!(key(&Bin::from_int_scale(-1, 128)), (-1, 0));
    assert_eq!(key(&Bin::from_int_scale(1, -128)), (10, -128));
    assert_eq!(key(&Bin::from_int_scale(123, -130)), (12, -128));
    assert_eq!(key(&Bin::from_int_scale(1, -129)), (0, 0));
    assert_eq!(key(&Bin::from_int_scale(-99, -130)), (0, 0));
    assert!(Bin::from_int_scale(1, i32::MAX).is_nan());
    assert_eq!(key(&Bin::from_int_scale(-1, i32::MIN)), (0, 0));
}

#[test]
fn int_scale_of_the_largest_magnitudes() {
    assert_eq!(key(&Bin::from_int_scale(i64::MAX, 0)), (92, 18));
    assert_eq!(key(&Bin::from_int_scale(i64::MIN, 0)), (-92, 18));
    assert_eq!(key(&Bin::from_int_scale(i64::MIN + 1, -18)), (-92, 0));
    assert!(Bin::from_int_scale(i64::MIN, 110).is_nan());
}

#[test]
fn sample_special_values() {
    assert_eq!(key(&Bin::from_sample(Sample::Zero)), (0, 0));
    assert_eq!(key(&Bin::from_sample(Sample::NotFinite)), (-1, 0));
    assert!(Bin::from_sample(Sample::NotFinite).is_nan());
    assert_eq!(Bin::from_sample(Sample::NotFinite).count(), None);
    assert_eq!(Bin::from_sample(Sample::Zero).count(), Some(0));
}

#[test]
fn sample_with_digits_in_range() {
    assert_eq!(key(&finite(false, 0, 10)), (10, 0));
    assert_eq!(key(&finite(false, -1, 12)), (12, -1));
    assert_eq!(key(&finite(true, 3, 99)), (-99, 3));
    assert_eq!(key(&finite(true, -128, 10)), (-10, -128));
    assert_eq!(key(&finite(false, 127, 99)), (99, 127));
}

#[test]
fn sample_exponent_out_of_range() {
    assert_eq!(key(&finite(false, -129, 50)), (0, 0));
    assert_eq!(key(&finite(true, i64::MIN, 50)), (0, 0));
    assert_eq!(key(&finite(false, 128, 50)), (-1, 0));
    assert_eq!(key(&finite(true, 200, 0)), (-1, 0));
    assert_eq!(key(&finite(true, i64::MAX, 50)), (-1, 0));
}

#[test]
fn sample_rounding_carry() {
    assert_eq!(key(&finite(false, 2, 100)), (10, 3));
    assert_eq!(key(&finite(true, -5, 100)), (-10, -4));
    assert_eq!(key(&finite(false, 126, 100)), (10, 127));
    assert_eq!(key(&finite(false, 127, 100)), (0, 0));
    assert_eq!(key(&finite(true, 127, 100)), (0, 0));
}

#[test]
fn sample_digits_out_of_range() {
    assert_eq!(key(&finite(false, 4, 0)), (0, 0));
    assert_eq!(key(&finite(true, 4, 0)), (0, 0));
    for tenths in [1, 9, 101, 127, 128, 266, -1, -10, -50, i64::MAX, i64::MIN] {
        assert_eq!(key(&finite(false, 4, tenths)), (-1, 0), "tenths {tenths}");
        assert_eq!(key(&finite(true, -4, tenths)), (-1, 0), "tenths {tenths}");
    }
}

#[test]
fn both_encoders_agree_on_exact_digits() {
    for value in [1i64, 9, 10, 11, 99, 100, 101, 999, 1000, 12345, 99999, 100000, 4159, 7_000_001] {
        let digits = value.to_string();
        let tenths: i64 = if digits.len() == 1 {
            value * 10
        } else {
            digits[..2].parse().unwrap()
        };
        for scale in [-140i32, -129, -128, -20, -1, 0, 1, 20, 120, 127, 128, 140] {
            let exponent = scale as i64 + digits.len() as i64 - 1;
            for negative in [false, true] {
                let signed = if negative { -value } else { value };
                assert_eq!(
                    finite(negative, exponent, tenths),
                    Bin::from_int_scale(signed, scale),
                    "{signed}e{scale}"
                );
            }
        }
    }
}

#[test]
fn the_bucket_holds_the_value() {
    for value in [1i64, 7, 10, 19, 109, 110, 999, 1001, 123456, 987654321] {
        let bin = Bin::from_int_scale(value, 0);
        let tenths = bin.mantissa() as i128;
        let power = 10i128.pow(bin.exponent() as u32);
        assert!(tenths * power <= 10 * value as i128);
        assert!(10 * (value as i128) < (tenths + 1) * power);
        // The middle of the bucket is within a twentieth of the value.
        let off = (20 * value as i128 - (2 * tenths + 1) * power).abs();
        assert!(off <= value as i128);
    }
}

#[test]
fn the_value_of_a_bucket_can_miss_by_more_than_a_twentieth() {
    let bin = Bin::from_int_scale(109, 0);
    assert_eq!(key(&bin), (10, 2));
    assert!(20 * (109 - 100) > 109);
}

#[test]
fn order_of_the_shapes() {
    let nan = Bin::nan();
    let negative = Bin::from_int_scale(-5, 0);
    let zero = Bin::zero();
    let positive = Bin::from_int_scale(5, -100);
    let all = [nan, negative, zero, positive];
    for i in 0..all.len() {
        for j in 0..all.len() {
            let expected = i.cmp(&j);
            assert_eq!(all[i].cmp(&all[j]), expected, "{i} {j}");
            assert_eq!(all[i].precedes(&all[j]), expected == Ordering::Less);
            assert_eq!(all[i].same_bucket(&all[j]), expected == Ordering::Equal);
        }
    }
}

#[test]
fn order_goes_by_exponent_then_mantissa() {
    let a = Bin::from_int_scale(99, 0);
    let b = Bin::from_int_scale(100, 0);
    let c = Bin::from_int_scale(110, 0);
    assert_eq!(a.cmp(&b), Ordering::Less);
    assert_eq!(b.cmp(&c), Ordering::Less);
    assert_eq!(c.cmp(&a), Ordering::Greater);
    let x = Bin::from_int_scale(-12, 0);
    let y = Bin::from_int_scale(-11, 0);
    assert_eq!(x.cmp(&y), Ordering::Less);
    assert_eq!(y.cmp(&x), Ordering::Greater);
}

#[test]
fn order_below_zero_goes_by_exponent_first() {
    let tens = Bin::from_int_scale(-10, 0);
    let hundreds = Bin::from_int_scale(-100, 0);
    assert_eq!(key(&tens), (-10, 1));
    assert_eq!(key(&hundreds), (-10, 2));
    assert_eq!(tens.cmp(&hundreds), Ordering::Less);
    assert!(tens.precedes(&hundreds));
}

#[test]
fn order_ignores_the_count() {
    let a = Bin::from_int_scale(5, 0).with_count(3);
    let b = Bin::from_int_scale(5, 0).with_count(9);
    assert_eq!(a.cmp(&b), Ordering::Equal);
    assert!(a.same_bucket(&b));
    assert_ne!(a, b);
    assert_eq!(a, b.with_count(3));
}

#[test]
fn update_saturates_at_both_ends() {
    let mut bin = Bin::from_int_scale(5, 0);
    bin.update(7);
    assert_eq!(bin.occurrences(), 7);
    bin.update(-3);
    assert_eq!(bin.occurrences(), 4);
    bin.update(-5);
    assert_eq!(bin.occurrences(), 0);
    bin.update(i64::MIN);
    assert_eq!(bin.occurrences(), 0);
    bin.update(i64::MAX);
    bin.update(i64::MAX);
    assert_eq!(bin.occurrences(), u64::MAX - 1);
    bin.update(1);
    assert_eq!(bin.occurrences(), u64::MAX);
    bin.update(1);
    assert_eq!(bin.occurrences(), u64::MAX);
    bin.update(i64::MIN);
    assert_eq!(bin.occurrences(), (1u64 << 63) - 1);
    assert_eq!(key(&bin), (50, 0));
}

#[test]
fn count_is_none_for_the_sentinel_only() {
    assert_eq!(Bin::nan().with_count(9).count(), None);
    assert_eq!(Bin::nan().with_count(9).occurrences(), 9);
    assert_eq!(Bin::zero().with_count(9).count(), Some(9));
    assert_eq!(Bin::from_int_scale(-3, 3).with_count(2).count(), Some(2));
}

#[test]
fn geometry_of_a_positive_bucket() {
    let bin = Bin::from_int_scale(12, -2);
    assert_eq!(key(&bin), (12, -1));
    assert_eq!(bin.value(), Some(Decimal { coefficient: 12, exponent: -2 }));
    assert_eq!(bin.bin_width(), Some(Decimal { coefficient: 1, exponent: -2 }));
    assert_eq!(bin.left(), Some(Decimal { coefficient: 12, exponent: -2 }));
    assert_eq!(bin.midpoint(), Some(Decimal { coefficient: 125, exponent: -3 }));
}

#[test]
fn geometry_of_a_negative_bucket() {
    let bin = Bin::from_int_scale(-12, 3);
    assert_eq!(key(&bin), (-12, 4));
    assert_eq!(bin.value(), Some(Decimal { coefficient: -12, exponent: 3 }));
    assert_eq!(bin.bin_width(), Some(Decimal { coefficient: 1, exponent: 3 }));
    assert_eq!(bin.left(), Some(Decimal { coefficient: -13, exponent: 3 }));
    assert_eq!(bin.midpoint(), Some(Decimal { coefficient: -125, exponent: 2 }));
}

#[test]
fn geometry_of_the_zero_bucket_and_the_sentinel() {
    let zero = Decimal { coefficient: 0, exponent: 0 };
    let bin = Bin::zero();
    assert_eq!(bin.value(), Some(zero));
    assert_eq!(bin.bin_width(), Some(zero));
    assert_eq!(bin.left(), Some(zero));
    assert_eq!(bin.midpoint(), Some(zero));
    let nan = Bin::nan();
    assert_eq!(nan.value(), None);
    assert_eq!(nan.bin_width(), None);
    assert_eq!(nan.left(), None);
    assert_eq!(nan.midpoint(), None);
}

#[test]
fn geometry_at_the_ends_of_the_exponent_range() {
    let low = Bin::from_int_scale(-99, -129);
    assert_eq!(key(&low), (-99, -128));
    assert_eq!(low.left(), Some(Decimal { coefficient: -100, exponent: -129 }));
    assert_eq!(low.midpoint(), Some(Decimal { coefficient: -995, exponent: -130 }));
    let high = Bin::from_int_scale(99, 126);
    assert_eq!(high.value(), Some(Decimal { coefficient: 99, exponent: 126 }));
    assert_eq!(high.midpoint(), Some(Decimal { coefficient: 995, exponent: 125 }));
}

/// The bucket of `val * 10^scale`, found by stripping digits one by one.
fn by_digit_loop(val: i64, scale: i32) -> (bool, i128, i128) {
    let mut val = val as i128;
    let mut scale = scale as i128;
    let mut sign = 1;
    if val == 0 {
        scale = 0;
    } else {
        scale += 1;
        if val < 0 {
            val = -val;
            sign = -1;
        }
        if val < 10 {
            val *= 10;
            scale -= 1;
        }
        while val >= 100 {
            val /= 10;
            scale += 1;
        }
    }
    if scale < -128 {
        (false, 0, 0)
    } else if scale > 127 {
        (true, 0, 0)
    } else {
        (false, val * sign, scale)
    }
}

#[test]
fn int_scale_matches_the_digit_loop() {
    let mut state: u64 = 0x9e3779b97f4a7c15;
    let mut next = move || {
        state = state.wrapping_mul(6364136223846793005).wrapping_add(1442695040888963407);
        state
    };
    let mut cases: Vec<(i64, i32)> = Vec::new();
    for val in [0, 1, -1, 9, 10, 99, 100, -100, i64::MAX, i64::MIN, i64::MIN + 1] {
        for scale in [i32::MIN, -150, -129, -128, -127, 0, 108, 109, 126, 127, 128, i32::MAX] {
            cases.push((val, scale));
        }
    }
    for _ in 0..200_000 {
        let bits = next();
        let val = (bits as i64) >> (next() % 64);
        let scale = match next() % 4 {
            0 => next() as i32,
            _ => (next() % 400) as i32 - 200,
        };
        cases.push((val, scale));
    }
    for (val, scale) in cases {
        let bin = Bin::from_int_scale(val, scale);
        let (nan, mantissa, exponent) = by_digit_loop(val, scale);
        assert_eq!(bin.is_nan(), nan, "{val}e{scale}");
        if !nan {
            assert_eq!((bin.mantissa() as i128, bin.exponent() as i128), (mantissa, exponent));
        }
        assert_eq!(bin.occurrences(), 0);
    }
}
