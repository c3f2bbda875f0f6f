use yarnspinner::program::FloatBits;

fn bits(x: f32) -> FloatBits {
    FloatBits(x.to_bits())
}

fn value(b: FloatBits) -> f32 {
    f32::from_bits(b.0)
}

#[test]
fn rounds_places() {
    for (num, places, expected) in [
        (1.0f32, 0u32, 1.0f32),
        (1.2, 1, 1.2),
        (0.4, 0, 0.0),
        (43.132, 0, 43.0),
        (1.1, 2, 1.1),
        (123.123, 3, 123.123),
        (-10.3, 1, -10.3),
        (-11.99, 1, -12.0),
    ] {
        assert_eq!(expected, value(bits(num).round_places(places)));
    }
}

#[test]
fn round_places_matches_float_arithmetic() {
    let samples = [0.0f32, -0.0, 0.5, -0.5, 2.5, 1.0e-40, 3.4e38, -7.777_7, 1234.5678, 0.049_999, 16_777_217.0];
    for x in samples {
        for places in 0u32..=9 {
            let factor = 10u32.pow(places) as f32;
            let expected = (x * factor).round() / factor;
            assert_eq!(expected.to_bits(), bits(x).round_places(places).0, "{x} {places}");
        }
    }
}

#[test]
fn converts_integers_to_numbers() {
    for v in [0i64, 1, -1, 7, 16_777_216, 16_777_217, 16_777_219, -123_456_789, i32::MAX as i64, i32::MIN as i64] {
        assert_eq!((v as f32).to_bits(), FloatBits::from_integer(v).0, "{v}");
    }
}

#[test]
fn converts_numbers_to_integers() {
    for x in [0.0f32, -0.0, 0.99, -0.99, 1.5, -2.5, 3.0e9, -3.0e9, f32::INFINITY, f32::NEG_INFINITY, f32::NAN, 1.0e-30] {
        assert_eq!(x as i32, bits(x).to_i32(), "{x}");
        assert_eq!(x as usize, bits(x).to_usize(), "{x}");
    }
}

#[test]
fn multiplies_divides_and_rounds() {
    assert_eq!(value(bits(1.5).times(3)), 4.5);
    assert_eq!(value(bits(1.0).divided_by(3)), 1.0f32 / 3.0);
    assert_eq!(value(bits(2.5).round()), 3.0);
    assert_eq!(value(bits(-2.5).round()), -3.0);
    assert_eq!(value(bits(3.0e38).times(10)), f32::INFINITY);
    assert!(value(bits(f32::NAN).round()).is_nan());
}
