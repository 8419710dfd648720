use rusty_sat::array::{AnyDataArray, DataArray};
use rusty_sat::number::{F32, F64};

fn bits(value: f64) -> F64 {
    F64::from_bits(value.to_bits())
}

fn row(count: usize) -> (Vec<usize>, Vec<String>) {
    (vec![1, count], vec!["y".to_string(), "x".to_string()])
}

#[test]
fn integers_are_widened_to_their_value() {
    for n in 0..=u8::MAX {
        assert_eq!(F64::from_u8(n), bits(f64::from(n)));
    }
    for n in 0..=u16::MAX {
        assert_eq!(F64::from_u16(n), bits(f64::from(n)));
    }
    for n in i16::MIN..=i16::MAX {
        assert_eq!(F64::from_i16(n), bits(f64::from(n)));
    }
}

#[test]
fn narrow_numbers_are_widened_to_their_value() {
    let mut narrow: u32 = 0;
    while narrow < u32::MAX - 65_521 {
        let value = f32::from_bits(narrow);
        let wide = F64::from_narrow(F32::from_bits(narrow));
        if value.is_nan() {
            assert!(f64::from_bits(wide.to_bits()).is_nan());
        } else {
            assert_eq!(wide, bits(f64::from(value)));
        }
        narrow += 65_521;
    }
}

#[test]
fn narrow_numbers_at_the_edges_are_widened() {
    for value in [
        0.0f32,
        -0.0,
        1.0,
        -1.5,
        f32::MAX,
        f32::MIN,
        f32::MIN_POSITIVE,
        f32::from_bits(1),
        f32::from_bits(0x007f_ffff),
        f32::from_bits(0x8000_0001),
        f32::INFINITY,
        f32::NEG_INFINITY,
    ] {
        let wide = F64::from_narrow(F32::from_bits(value.to_bits()));
        assert_eq!(wide, bits(f64::from(value)));
    }
}

#[test]
fn arrays_give_their_values_as_numbers() {
    let (shape, dims) = row(3);
    let array = DataArray::from_vec_named(shape, dims, vec![-5i16, 0, 300]).unwrap();
    assert_eq!(AnyDataArray::I16(array).numbers(), vec![bits(-5.0), bits(0.0), bits(300.0)]);

    let (shape, dims) = row(2);
    let array = DataArray::from_vec_named(shape, dims, vec![bits(0.1), bits(-0.0)]).unwrap();
    assert_eq!(AnyDataArray::F64(array).numbers(), vec![bits(0.1), bits(-0.0)]);

    let (shape, dims) = row(2);
    let values = vec![F32::from_bits(0.1f32.to_bits()), F32::from_bits(2.5f32.to_bits())];
    let array = DataArray::from_vec_named(shape, dims, values).unwrap();
    assert_eq!(
        AnyDataArray::F32(array).numbers(),
        vec![bits(f64::from(0.1f32)), bits(2.5)]
    );
}

#[test]
fn large_integers_are_rounded_to_the_nearest_number() {
    let mut integers = vec![0u64, 1, u64::MAX, u64::MAX - 1, 1 << 53, (1 << 53) + 1, (1 << 53) + 3];
    for shift in 0..64 {
        for step in 0..4096u64 {
            integers.push((1u64 << shift).wrapping_add(step.wrapping_mul(0x9e37)));
            integers.push((1u64 << shift).wrapping_sub(step));
        }
    }
    for n in integers {
        assert_eq!(F64::from_u64(n), bits(n as f64), "{n}");
        assert_eq!(F64::from_i64(n as i64), bits(n as i64 as f64), "{n}");
    }
    assert_eq!(F64::from_i64(i64::MIN), bits(i64::MIN as f64));
}

#[test]
fn numbers_are_rounded_to_the_nearest_narrow_number() {
    let mut pattern: u64 = 1;
    for _ in 0..2_000_000 {
        pattern = pattern.wrapping_mul(6_364_136_223_846_793_005).wrapping_add(1_442_695_040_888_963_407);
        let value = f64::from_bits(pattern);
        let narrow = F64::from_bits(pattern).narrow();
        if value.is_nan() {
            assert!(f32::from_bits(narrow.to_bits()).is_nan());
        } else {
            assert_eq!(narrow.to_bits(), (value as f32).to_bits(), "{pattern:x}");
        }
    }
}

#[test]
fn numbers_near_the_bounds_of_narrow_numbers_are_rounded() {
    let mut values = vec![0.0, -0.0, f64::INFINITY, f64::NEG_INFINITY, f64::MAX, f64::MIN_POSITIVE];
    for edge in [
        f32::MAX,
        f32::MIN_POSITIVE,
        f32::from_bits(1),
        f32::from_bits(2),
        f32::from_bits(0x007f_ffff),
        1.0,
        -1.5,
    ] {
        let wide = f64::from(edge);
        let below = f64::from(f32::from_bits(edge.to_bits() - 1));
        for value in [wide, wide * 0.5, wide * 1.5, (wide + below) / 2.0] {
            for near in [value.to_bits() - 1, value.to_bits(), value.to_bits() + 1] {
                values.push(f64::from_bits(near));
            }
        }
    }
    let mut exponent = 870u64;
    while exponent < 900 {
        for fraction in [0, 1, 0x8_0000_0000_0000, 0x8_0000_0000_0001, 0xf_ffff_ffff_ffff] {
            values.push(f64::from_bits((exponent << 52) + fraction));
        }
        exponent += 1;
    }
    for value in values {
        assert_eq!(bits(value).narrow().to_bits(), (value as f32).to_bits(), "{value:e}");
    }
}

#[test]
fn narrow_numbers_survive_widening() {
    let mut pattern: u32 = 0;
    while pattern < u32::MAX - 4_099 {
        if !f32::from_bits(pattern).is_nan() {
            assert_eq!(F64::from_narrow(F32::from_bits(pattern)).narrow().to_bits(), pattern);
        }
        pattern += 4_099;
    }
}
