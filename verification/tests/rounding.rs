use rusty_sat::number::F64;
use rusty_sat::rounding::{cell_along, clamp_pixel_index, first_along, last_along, place_of};

fn bits(value: f64) -> F64 {
    F64::from_bits(value.to_bits())
}

/// Numbers of all kinds: signs, fractions, halves, large and tiny ones.
fn samples() -> Vec<f64> {
    let mut list = vec![
        0.0,
        -0.0,
        f64::MIN_POSITIVE,
        5e-324,
        0.25,
        0.49999999999999994,
        0.5,
        0.75,
        1.0,
        1.5,
        2.5,
        3.0,
        6.999999999999999,
        7.0,
        7.25,
        1e9,
        4503599627370495.5,
        9007199254740993.0,
        9.3e18,
        1.8446744073709552e19,
        1e300,
        f64::INFINITY,
    ];
    let below: Vec<f64> = list.iter().map(|v| -*v).collect();
    list.extend(below);
    list.push(f64::NAN);
    list
}

#[test]
fn rounding_agrees_with_the_machine() {
    for v in samples() {
        assert_eq!(bits(v).round_to_i64(), v.round() as i64, "{v}");
        if v.is_finite() {
            assert_eq!(bits(v).floor_to_i64(), v.floor() as i64, "{v}");
        }
    }
}

#[test]
fn places_agree_with_the_machine() {
    for v in samples() {
        for size in [0usize, 1, 2, 7, 8, 1000000001] {
            let floor = v.floor();
            let expected = if floor < 0.0 || floor >= size as f64 || !floor.is_finite() {
                None
            } else {
                Some(floor as usize)
            };
            assert_eq!(place_of(bits(v), size), expected, "{v} of {size}");
            let nearest = if !v.is_finite() || size == 0 {
                None
            } else {
                Some(v.round().clamp(0.0, (size - 1) as f64) as usize)
            };
            assert_eq!(clamp_pixel_index(bits(v), size), nearest, "{v} of {size}");
        }
    }
}

#[test]
fn cells_agree_with_the_machine() {
    for v in samples() {
        for size in [1usize, 2, 7, 8] {
            let expected = if !v.is_finite() || v < 0.0 || v > (size - 1) as f64 {
                None
            } else {
                Some((v.floor() as usize, v.ceil() as usize))
            };
            assert_eq!(cell_along(bits(v), size), expected, "{v} of {size}");
        }
    }
}

#[test]
fn bounds_agree_with_the_machine() {
    for v in samples() {
        for size in [1usize, 2, 7, 8] {
            let first = v.floor().max(0.0) as usize;
            let expected = if first < size { Some(first) } else { None };
            assert_eq!(first_along(bits(v), size), expected, "{v} of {size}");
            let last = v.ceil().min(size as f64 - 1.0) as usize;
            assert_eq!(last_along(bits(v), size), last, "{v} of {size}");
        }
    }
}

#[test]
fn half_way_numbers_go_away_from_zero() {
    assert_eq!(bits(2.5).round_to_i64(), 3);
    assert_eq!(bits(-2.5).round_to_i64(), -3);
    assert_eq!(bits(0.49999999999999994).round_to_i64(), 0);
}

#[test]
fn no_place_lies_in_an_empty_row() {
    assert_eq!(first_along(bits(0.0), 0), None);
    assert_eq!(first_along(bits(f64::NAN), 0), None);
    assert_eq!(first_along(bits(f64::NEG_INFINITY), 0), None);
    assert_eq!(clamp_pixel_index(bits(0.0), 0), None);
}

#[test]
fn order_of_numbers_and_of_bit_patterns() {
    let (zero, minus_zero, nan) = (bits(0.0), bits(-0.0), bits(f64::NAN));
    assert!(zero.equals(minus_zero));
    assert!(minus_zero.totally_before(zero));
    assert!(!nan.equals(nan) && !nan.lt(zero) && !zero.le(nan));
    assert!(bits(-3.0).lt(bits(-2.5)));
    assert_eq!(bits(-2.5).absolute(), bits(2.5));
}
