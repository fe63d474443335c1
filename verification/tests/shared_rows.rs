use num_rational::BigRational;
use num_traits::Zero;
use skarve::dyadic::exact_sum;
use skarve::shared_rows::{RangeSummary, RowOptions, RowSummary, MAX_ROW_BYTES};

struct Band {
    values: Vec<u64>,
    valid: Vec<bool>,
}

fn band(values: &[f64]) -> Band {
    Band {
        values: values.iter().map(|v| v.to_bits()).collect(),
        valid: vec![true; values.len()],
    }
}

fn everything() -> RowOptions {
    RowOptions { eligible: true, sum: true, min: true, max: true, fixed_bytes: 136 }
}

fn exact(bits: u64) -> BigRational {
    BigRational::from_float(f64::from_bits(bits)).unwrap()
}

fn value(range: &RangeSummary) -> f64 {
    f64::from_bits(range.high) + f64::from_bits(range.low)
}

fn check_ranges(band: &Band, width: usize) {
    let summary = RowSummary::build(&band.values, &band.valid, 0, width, everything()).unwrap();
    assert_eq!(summary.bytes(), RowSummary::estimate_bytes(width, everything()).unwrap());
    assert_eq!(summary.width(), width);
    for start in 0..=width {
        for end in start..=width {
            let selected: Vec<u64> =
                (start..end).filter(|&i| band.valid[i]).map(|i| band.values[i]).collect();
            let expected: BigRational = selected.iter().map(|&x| exact(x)).sum();
            let range = summary.range(start, end).unwrap();
            assert_eq!(exact(range.high) + exact(range.low), expected, "{start}..{end}");
            assert_eq!(range.count, selected.len());
            assert_eq!(
                f64::from_bits(range.min),
                selected.iter().fold(f64::INFINITY, |a, &b| a.min(f64::from_bits(b)))
            );
            assert_eq!(
                f64::from_bits(range.max),
                selected.iter().fold(f64::NEG_INFINITY, |a, &b| a.max(f64::from_bits(b)))
            );
        }
    }
}

#[test]
fn large_prefix_tiny_interval_and_cancellation_are_exact() {
    let b = band(&[2f64.powi(80), 1., -2f64.powi(80), 0.125, -0.125, 3., -2., 0.]);
    check_ranges(&b, b.values.len());
    let row = RowSummary::build(&b.values, &b.valid, 0, b.values.len(), everything()).unwrap();
    assert_eq!(value(&row.range(1, 2).unwrap()), 1.);
    assert_eq!(value(&row.range(0, 3).unwrap()), 1.);
}

#[test]
fn subnormals_and_masks_are_exact() {
    let tiny = f64::from_bits(1);
    let mut b = band(&[
        tiny,
        -tiny,
        f64::from_bits((1u64 << 52) - 1),
        tiny * 31.,
        f64::NAN,
        0.,
    ]);
    b.valid[4] = false;
    check_ranges(&b, b.values.len());
    b.valid[4] = true;
    assert!(RowSummary::build(&b.values, &b.valid, 0, b.values.len(), everything()).is_none());
}

#[test]
fn head_rounding_and_residual_match_rational_oracle() {
    let mut state = 0x3415aa39ef782cu64;
    for exponent in [-1074, -1000, -80, 0, 900] {
        for _ in 0..200 {
            state ^= state << 13;
            state ^= state >> 7;
            state ^= state << 17;
            let magnitude = ((state as u128) << 30)
                | ((state.rotate_left(19) as u128) & ((1u128 << 30) - 1));
            let signed =
                if state & 1 == 0 { magnitude as i128 } else { -(magnitude as i128) };
            let (high, low) = exact_sum(signed, exponent).unwrap();
            let factor = if exponent >= 0 {
                BigRational::from_integer(num_bigint::BigInt::from(1u8) << exponent as usize)
            } else {
                BigRational::new(1.into(), num_bigint::BigInt::from(1u8) << (-exponent) as usize)
            };
            assert_eq!(
                exact(high) + exact(low),
                BigRational::from_integer(signed.into()) * factor
            );
        }
    }
    for coefficient in [(1i128 << 53) + 1, (1i128 << 53) + 3, (1i128 << 100) - 1, 1i128 << 100] {
        let (high, low) = exact_sum(coefficient, 0).unwrap();
        assert_eq!(exact(high) + exact(low), BigRational::from_integer(coefficient.into()));
    }
}

#[test]
fn overflow_and_wide_exponents_fall_back_without_poisoning_other_ranges() {
    let b = band(&[f64::MAX, f64::MAX, -f64::MAX]);
    let row = RowSummary::build(&b.values, &b.valid, 0, 3, everything()).unwrap();
    assert!(row.range(0, 2).is_none());
    assert_eq!(value(&row.range(0, 3).unwrap()), f64::MAX);
    assert_eq!(value(&row.range(1, 3).unwrap()), 0.);
    let wide = band(&[2f64.powi(100), 1.]);
    assert!(RowSummary::build(&wide.values, &wide.valid, 0, 2, everything()).is_none());
    let wider = band(&[f64::MAX, f64::from_bits(1)]);
    assert!(RowSummary::build(&wider.values, &wider.valid, 0, 2, everything()).is_none());
}

#[test]
fn requested_statistics_and_row_bounds_are_respected() {
    let b = band(&[1., 2., 4., 8., 16., 32.]);
    let opts = RowOptions { eligible: true, sum: false, min: false, max: false, fixed_bytes: 136 };
    let row = RowSummary::build(&b.values, &b.valid, 1, 3, opts).unwrap();
    let range = row.range(0, 3).unwrap();
    assert!((exact(range.high) + exact(range.low)).is_zero());
    assert_eq!(range.count, 3);
    assert_eq!(f64::from_bits(range.min), f64::INFINITY);
    assert_eq!(f64::from_bits(range.max), f64::NEG_INFINITY);
    assert!(row.range(2, 1).is_none());
    assert!(row.range(0, 4).is_none());
    assert!(RowSummary::build(&b.values, &b.valid, 2, 3, opts).is_none());
    assert!(RowSummary::estimate_bytes(usize::MAX, opts).is_none());
    assert!(RowSummary::estimate_bytes(MAX_ROW_BYTES, opts).is_none());
    let ineligible = RowOptions { eligible: false, ..opts };
    assert!(RowSummary::build(&b.values, &b.valid, 0, 3, ineligible).is_none());
    let wide = band(&[f64::MAX, f64::from_bits(1)]);
    assert!(RowSummary::build(&wide.values, &wide.valid, 0, 2, opts).is_some());
}

#[test]
fn neighbouring_ranges_add_up_exactly() {
    let b = band(&[0.1, 0.2, -7.5, 1e6, 3.25]);
    let row = RowSummary::build(&b.values, &b.valid, 0, 5, everything()).unwrap();
    for middle in 0..=5 {
        let left = row.range(0, middle).unwrap();
        let right = row.range(middle, 5).unwrap();
        let whole = row.range(0, 5).unwrap();
        assert_eq!(
            exact(left.high) + exact(left.low) + exact(right.high) + exact(right.low),
            exact(whole.high) + exact(whole.low)
        );
        assert_eq!(left.count + right.count, whole.count);
    }
}

#[test]
fn builds_count_their_visits() {
    let b = band(&[1., 2., 3.]);
    let mut visits = 10;
    let row = RowSummary::build_counted(&b.values, &b.valid, 0, 3, everything(), &mut visits);
    assert!(row.is_some());
    assert_eq!(visits, 16);
}

#[test]
fn an_exact_sum_may_stand_at_any_place() {
    assert_eq!(exact_sum(2, -1075), Some((1, 0)));
    assert_eq!(exact_sum(1, -1075), None);
    assert_eq!(exact_sum(-(1 << 40), -1110), Some(((1 << 63) | (1 << 4), 0)));
    assert_eq!(exact_sum(0, i32::MIN), Some((0, 0)));
    assert_eq!(exact_sum(0, i32::MAX), Some((0, 0)));
    assert_eq!(exact_sum(1, i32::MAX), None);
    assert_eq!(exact_sum(1, i32::MIN), None);
    assert_eq!(exact_sum(1, 1023), Some((2f64.powi(1023).to_bits(), 0)));
    assert_eq!(exact_sum(1, 1024), None);
    assert_eq!(exact_sum((1 << 100) + 1, 0), None);
}
