//! How numbers and vectors are written.

use medal::ast::{Literal, Number};

fn written(value: f64) -> String {
    let mut buffer = ryu::Buffer::new();
    let printed = buffer.format_finite(value);
    printed.strip_suffix(".0").unwrap_or(printed).to_owned()
}

fn decimal(value: f64) -> Number {
    let mut buffer = ryu::Buffer::new();
    Number::Decimal(buffer.format_finite(value).to_owned())
}

fn single(value: f32) -> Number {
    let mut buffer = ryu::Buffer::new();
    let printed = buffer.format_finite(value);
    match printed.strip_suffix(".0") {
        Some(whole) => Number::Integer(whole.parse().unwrap()),
        None => Number::Decimal(printed.to_owned()),
    }
}

fn whole(value: i128) -> Literal {
    Literal::Number(Number::Integer(value))
}

/// Whole numbers of every size, among them those around powers of two and ten.
fn wholes() -> Vec<i128> {
    let mut values = Vec::new();
    let mut state: u64 = 0x9E37_79B9_7F4A_7C15;
    for shift in 0..127u32 {
        let power = 1i128 << shift;
        for near in -3..=3 {
            values.push(power + near);
        }
        for _ in 0..8 {
            state = state.wrapping_mul(6364136223846793005).wrapping_add(1442695040888963407);
            let high = (state as i128) << 63;
            state = state.wrapping_mul(6364136223846793005).wrapping_add(1442695040888963407);
            values.push((high | state as i128) >> (126 - shift));
        }
    }
    let mut power: i128 = 1;
    for _ in 0..38 {
        for near in -2..=2 {
            values.push(power + near);
        }
        power *= 10;
    }
    values.push(i128::MAX);
    values
}

#[test]
fn whole_numbers_are_written_by_their_shortest_digits() {
    assert_eq!(whole(9_007_199_254_740_993).to_string(), "9007199254740992");
    assert_eq!(whole(9_999_999_999_999_998).to_string(), "9999999999999998");
    assert_eq!(whole(10_000_000_000_000_000).to_string(), "1e16");
    assert_eq!(whole(-10_000_000_000_000_002).to_string(), "-1.0000000000000002e16");
    assert_eq!(whole(1 << 60).to_string(), "1.152921504606847e18");
    assert_eq!(whole(99_999_999_999_999_991_611_392).to_string(), "1e23");
    assert_eq!(whole(i128::MIN).to_string(), written(i128::MIN as f64));
    for value in wholes() {
        assert_eq!(whole(value).to_string(), written(value as f64));
        assert_eq!(whole(-value).to_string(), written(-value as f64));
    }
}

#[test]
fn a_whole_number_equals_the_number_of_its_text() {
    for value in wholes() {
        let text = whole(value).to_string();
        assert_eq!(Number::Integer(value), Number::Decimal(text));
        assert_eq!(
            Number::Integer(value) == Number::Integer(value + 1 - 2 * (value % 2)),
            value as f64 == (value + 1 - 2 * (value % 2)) as f64
        );
    }
    assert_eq!(Number::Integer(10_000_000_000_000_000), decimal(1e16));
    assert_eq!(Number::Integer(0), Number::NegativeZero);
    assert_ne!(Number::NotANumber, Number::NotANumber);
    assert_ne!(decimal(1e-7), decimal(1e-8));
}

#[test]
fn vector_components_are_written_without_an_exponent() {
    let texts = [1e-7, -2.5e-10, 1.5e300, 1e16, 123.456, 5e-324, 1.7976931348623157e308];
    for value in texts {
        assert_eq!(
            Literal::VectorD(decimal(value), Number::NegativeZero, Number::Infinity).to_string(),
            format!("Vector3.new({}, {}, {})", value, -0.0, f64::INFINITY)
        );
    }
    let singles: [f32; 7] = [1e-7, 16777216.0, 123456792.0, 1e10, 3.4e38, -0.1, 1e-45];
    for value in singles {
        assert_eq!(
            Literal::Vector(single(value), Number::NotANumber, Number::NegativeInfinity).to_string(),
            format!("Vector3.new({}, {}, {})", value, f32::NAN, f32::NEG_INFINITY)
        );
    }
    for value in wholes() {
        let number = Number::Integer(value);
        assert_eq!(
            Literal::Vector(number.clone(), number.clone(), number.clone()).to_string(),
            format!("Vector3.new({0}, {0}, {0})", value as f32)
        );
        assert_eq!(
            Literal::VectorD(number.clone(), number.clone(), number).to_string(),
            format!("Vector3.new({0}, {0}, {0})", value as f64)
        );
    }
}

#[test]
fn vectors_are_equal_as_their_components_are_held() {
    let vector = |value: i128| {
        Literal::Vector(Number::Integer(value), Number::Integer(0), Number::NegativeZero)
    };
    let double = |value: i128| {
        Literal::VectorD(Number::Integer(value), Number::Integer(0), Number::NegativeZero)
    };
    assert_eq!(vector(16_777_216), vector(16_777_217));
    assert_ne!(double(16_777_216), double(16_777_217));
    assert_ne!(vector(16_777_215), vector(16_777_216));
}
