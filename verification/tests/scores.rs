use rag_core::decimal::{decimal_chars, fixed4_chars, min_width_chars, zero_padded_chars};
use rag_core::score::{blend, from_ieee_bits, normalize, similarity, SCALE};

fn text(v: Vec<char>) -> String {
    v.into_iter().collect()
}

#[test]
fn similarity_is_one_over_one_plus_distance() {
    assert_eq!(similarity(0), 1_000_000);
    assert_eq!(similarity(1_000_000), 500_000);
    assert_eq!(similarity(3_000_000), 250_000);
    assert_eq!(similarity(500_000), 666_666);
    assert_eq!(similarity(u64::MAX), 0);
}

#[test]
fn normalize_maps_the_range_to_zero_and_one() {
    assert_eq!(normalize(10, 10, 30), 0);
    assert_eq!(normalize(30, 10, 30), SCALE);
    assert_eq!(normalize(15, 10, 30), 250_000);
    assert_eq!(normalize(7, 7, 7), 0);
    assert_eq!(normalize(u64::MAX, 0, u64::MAX), SCALE);
}

#[test]
fn blend_weighs_both_parts() {
    assert_eq!(blend(600_000, 1_000_000, 500_000), 800_000);
    assert_eq!(blend(600_000, 0, 500_000), 200_000);
    assert_eq!(blend(SCALE, 123, 456), 123);
    assert_eq!(blend(0, 123, 456), 456);
    assert_eq!(blend(500_000, u64::MAX, u64::MAX), u64::MAX);
}

#[test]
fn scores_are_read_from_single_precision_bits() {
    assert_eq!(from_ieee_bits(0.0f32.to_bits()), 0);
    assert_eq!(from_ieee_bits(1.0f32.to_bits()), 1_000_000);
    assert_eq!(from_ieee_bits(0.5f32.to_bits()), 500_000);
    assert_eq!(from_ieee_bits(2.5f32.to_bits()), 2_500_000);
    assert_eq!(from_ieee_bits(0.1f32.to_bits()), 100_000);
    assert_eq!(from_ieee_bits(0.75f32.to_bits()), 750_000);
    assert_eq!(from_ieee_bits(1e-7f32.to_bits()), 0);
    assert_eq!(from_ieee_bits(f32::MIN_POSITIVE.to_bits()), 0);
    assert_eq!(from_ieee_bits(1u32), 0);
    assert_eq!(from_ieee_bits(16_777_216.0f32.to_bits()), 16_777_216_000_000);
    assert_eq!(from_ieee_bits(1e13f32.to_bits()), 9_999_999_827_968_000_000);
}

#[test]
fn scores_outside_the_range_are_clamped() {
    assert_eq!(from_ieee_bits((-1.0f32).to_bits()), 0);
    assert_eq!(from_ieee_bits((-0.0f32).to_bits()), 0);
    assert_eq!(from_ieee_bits(f32::NAN.to_bits()), 0);
    assert_eq!(from_ieee_bits(f32::INFINITY.to_bits()), u64::MAX);
    assert_eq!(from_ieee_bits(f32::MAX.to_bits()), u64::MAX);
    assert_eq!(from_ieee_bits(1e14f32.to_bits()), u64::MAX);
}

#[test]
fn scores_read_from_bits_agree_with_double_precision() {
    let mut bits: u32 = 0x3000_0000;
    while bits < 0x5000_0000 {
        let x = f32::from_bits(bits) as f64;
        let expected = (x * 1_000_000.0).floor();
        if expected < 9.0e15 {
            assert_eq!(from_ieee_bits(bits), expected as u64, "bits {:#x}", bits);
        }
        bits += 0x0001_2345;
    }
}

#[test]
fn decimal_notation() {
    assert_eq!(text(decimal_chars(0)), "0");
    assert_eq!(text(decimal_chars(7)), "7");
    assert_eq!(text(decimal_chars(1234567890)), "1234567890");
    assert_eq!(text(decimal_chars(u64::MAX)), format!("{}", u64::MAX));
    assert_eq!(text(zero_padded_chars(42, 4)), "0042");
    assert_eq!(text(zero_padded_chars(123456, 4)), "3456");
    assert_eq!(text(zero_padded_chars(5, 0)), "");
}

#[test]
fn minimum_width_notation_matches_the_standard_formatter() {
    let values: [i64; 12] = [0, 1, -1, 9, 10, -10, 99, 100, -999, 1970, 123456, i64::MIN];
    for v in values {
        assert_eq!(text(min_width_chars(v, 2)), format!("{:02}", v));
        assert_eq!(text(min_width_chars(v, 4)), format!("{:04}", v));
        assert_eq!(text(min_width_chars(v, 0)), format!("{}", v));
    }
    assert_eq!(text(min_width_chars(i64::MAX, 25)), format!("{:025}", i64::MAX));
}

#[test]
fn scores_with_four_decimal_places() {
    assert_eq!(text(fixed4_chars(0)), "0.0000");
    assert_eq!(text(fixed4_chars(500_000)), "0.5000");
    assert_eq!(text(fixed4_chars(1_000_000)), "1.0000");
    assert_eq!(text(fixed4_chars(666_666)), "0.6667");
    assert_eq!(text(fixed4_chars(123_449)), "0.1234");
    assert_eq!(text(fixed4_chars(123_450)), "0.1235");
    assert_eq!(text(fixed4_chars(12_345_678_901)), "12345.6789");
    assert_eq!(text(fixed4_chars(999_950)), "1.0000");
    assert_eq!(text(fixed4_chars(u64::MAX)), "18446744073709.5516");
}
