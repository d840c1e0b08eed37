use shared_exponent::custom_shared_format::SharedExponentFormat;
use shared_exponent::rgb9e5::{rgb9e5_to_vec3, vec3_to_rgb9e5};
use shared_exponent::xyz13e6::{vec3_to_xyz13e6, xyz13e6_to_vec3};
use shared_exponent::xyz18e7::{vec3_to_xyz18e7, xyz18e7_to_vec3};
use shared_exponent::xyz8e5::{vec3_to_xyz8e5, xyz8e5_to_vec3};
use shared_exponent::{xyz14e3, xyz18e7_f64test, xyz9e2};
use shared_exponent::{bitfield_extract, bitfield_extract_u16, max, min, nan_to_zero, nan_to_zero64};

fn bits(v: [f32; 3]) -> [u32; 3] {
    [v[0].to_bits(), v[1].to_bits(), v[2].to_bits()]
}

fn floats(b: [u32; 3]) -> [f32; 3] {
    [f32::from_bits(b[0]), f32::from_bits(b[1]), f32::from_bits(b[2])]
}

#[test]
fn rgb9e5_word_of_ones() {
    assert_eq!(vec3_to_rgb9e5(bits([1.0; 3])), 0x8402_0100);
    assert_eq!(floats(rgb9e5_to_vec3(0x8402_0100)), [1.0; 3]);
}

#[test]
fn rgb9e5_carry_moves_exponent_up() {
    // 511.75 rounds to mantissa 512 at its first exponent, one past the range
    let w = vec3_to_rgb9e5(bits([511.75, 0.0, 0.0]));
    assert_eq!(w, 0xc800_0100);
    assert_eq!(floats(rgb9e5_to_vec3(w)), [512.0, 0.0, 0.0]);
}

#[test]
fn rgb9e5_rounds_half_up() {
    // at exponent 25 the step is 2, so 3 lies half way between 2 and 4
    let d = floats(rgb9e5_to_vec3(vec3_to_rgb9e5(bits([3.0, 0.0, 600.0]))));
    assert_eq!(d, [4.0, 0.0, 600.0]);
}

#[test]
fn carry_never_overflows_mantissa_field() {
    // every power-of-two boundary, approached from below by one f32 step
    let mut x: f32 = 1.0 / 65536.0;
    while x <= 32768.0 {
        for v in [x, f32::from_bits(x.to_bits() - 1)] {
            let w = vec3_to_rgb9e5(bits([v, v, v]));
            for shift in [0u32, 9, 18] {
                assert!((w >> shift) & 0x1ff < 512);
            }
            let d = floats(rgb9e5_to_vec3(w));
            let step = f32::from_bits((((w >> 27) as i32 - 15 - 9 + 127) as u32) << 23);
            assert!((d[0] - v).abs() <= step / 2.0);
        }
        x *= 2.0;
    }
}

#[test]
fn xyz8e5_word_keeps_signs() {
    let w = vec3_to_xyz8e5(bits([-1.0, 0.5, 2.0]));
    assert_eq!(w, 0x8a00_4140);
    assert_eq!(floats(xyz8e5_to_vec3(w)), [-1.0, 0.5, 2.0]);
}

#[test]
fn xyz13e6_words() {
    let w = vec3_to_xyz13e6(bits([1.0, -2.0, 3.0]));
    assert_eq!(w, (0x8600_0800, 0x5800));
    assert_eq!(floats(xyz13e6_to_vec3(w)), [1.0, -2.0, 3.0]);
}

#[test]
fn xyz18e7_words_split_y() {
    let w = vec3_to_xyz18e7(bits([1.0, -2.0, 3.0]));
    assert_eq!(w, (0x0001_0000, 0x82b0_0008));
    assert_eq!(floats(xyz18e7_to_vec3(w)), [1.0, -2.0, 3.0]);
}

#[test]
fn encode_is_deterministic() {
    let v = bits([0.3, 7.25, 1234.5]);
    assert_eq!(vec3_to_rgb9e5(v), vec3_to_rgb9e5(v));
    assert_eq!(vec3_to_xyz13e6(v), vec3_to_xyz13e6(v));
}

#[test]
fn negative_nan_decodes_to_zero() {
    let d = floats(xyz8e5_to_vec3(vec3_to_xyz8e5(bits([-f32::NAN; 3]))));
    assert_eq!(d, [0.0; 3]);
}

#[test]
fn subnormal_input_encodes_to_zero() {
    let tiny = f32::from_bits(1);
    assert_eq!(floats(rgb9e5_to_vec3(vec3_to_rgb9e5(bits([tiny; 3])))), [0.0; 3]);
}

#[test]
fn format_constants() {
    let f = SharedExponentFormat::new(5, 9);
    assert_eq!(f.max_valid_biased_exp, 31);
    assert_eq!(f.exp_bias, 15);
    assert_eq!(f.mantissa_values, 512);
    assert_eq!(f.max_mantissa, 511);
    assert_eq!(f.max_exp, 16);
    assert_eq!(f32::from_bits(f.max_value()), 65408.0);
    let g = SharedExponentFormat::new(1, 2);
    assert_eq!(g.exp_bias, 0);
    assert_eq!(g.max_exp, 1);
    assert_eq!(f32::from_bits(g.max_value()), 1.5);
    let h = SharedExponentFormat::new(7, 19);
    assert_eq!(f32::from_bits(h.max_value()), 524287.0 * 35184372088832.0);
}

#[test]
fn format_get_exp_norm_apply_exp() {
    let f = SharedExponentFormat::new(5, 9);
    assert_eq!(f.get_exp(1.0f32.to_bits()), (-8, 16));
    assert_eq!(f.get_exp(0.0f32.to_bits()), (-24, 0));
    assert_eq!(f.get_exp(511.75f32.to_bits()), (1, 25));
    assert_eq!(f.norm(-8, 1.0f32.to_bits()), 256);
    assert_eq!(f.norm(-8, 0.75f32.to_bits()), 192);
    assert_eq!(f.norm(-8, (-3.0f32).to_bits()), 0);
    assert_eq!(f.norm(-149, 1.0f32.to_bits()), u32::MAX);
    assert_eq!(f32::from_bits(f.apply_exp(256, 16)), 1.0);
    assert_eq!(f32::from_bits(f.apply_exp(511, 31)), 65408.0);
}

#[test]
fn format_round_trip_error_within_half_step() {
    let f = SharedExponentFormat::new(3, 6);
    let v = [0.1f32, 2.5, 7.0];
    let (enc, e) = f.encode3(bits(v));
    let step = 2f32.powi(e as i32 - f.exp_bias - f.mantissa_bits as i32);
    let d = floats(f.decode3(enc, e));
    for i in 0..3 {
        assert!((d[i] - v[i]).abs() <= step / 2.0);
    }
}

#[test]
fn min_max_and_nan() {
    assert_eq!(max(3, -4), 3);
    assert_eq!(min(3, -4), -4);
    assert_eq!(max(2, 2), 2);
    assert_eq!(nan_to_zero(f32::NAN.to_bits()), 0);
    assert_eq!(nan_to_zero(1.5f32.to_bits()), 1.5f32.to_bits());
    assert_eq!(nan_to_zero(f32::INFINITY.to_bits()), f32::INFINITY.to_bits());
    assert_eq!(nan_to_zero64(f64::NAN.to_bits()), 0);
    assert_eq!(nan_to_zero64(2.0f64.to_bits()), 2.0f64.to_bits());
}

#[test]
fn bitfields() {
    assert_eq!(bitfield_extract(0x8402_0100, 27, 5), 16);
    assert_eq!(bitfield_extract(0x8402_0100, 9, 9), 256);
    assert_eq!(bitfield_extract_u16(0x5800, 14, 1), 1);
    assert_eq!(bitfield_extract_u16(0x5800, 0, 13), 6144);
}

#[test]
fn xyz9e2_normalized_word() {
    let w = xyz9e2::encode_normalized(bits([0.5, -0.25, 0.0]));
    assert_eq!(w, 0xc00a_0100);
    assert_eq!(floats(xyz9e2::decode_normalized(w)), [0.5, -0.25, 0.0]);
}

#[test]
fn xyz14e3_normalized_words_split_exponent() {
    let w = xyz14e3::encode_normalized(bits([1.0, -2.0, 3.0]));
    assert_eq!(w, (0xa800_1000, 0xb000));
    assert_eq!(floats(xyz14e3::decode_normalized(w)), [1.0, -2.0, 3.0]);
}

#[test]
fn xyz18e7_f64_round_trip() {
    let v = [1.0f64 + 1.0 / 65536.0, -3.0, 0.0];
    let w = xyz18e7_f64test::vec3_to_xyz18e7([v[0].to_bits(), v[1].to_bits(), v[2].to_bits()]);
    assert_eq!(w, vec3_to_xyz18e7(bits([v[0] as f32, -3.0, 0.0])));
    let d = xyz18e7_f64test::xyz18e7_to_vec3(w);
    assert_eq!([f64::from_bits(d[0]), f64::from_bits(d[1]), f64::from_bits(d[2])], v);
}

#[test]
fn format_saturates_at_exact_maximum() {
    let f = SharedExponentFormat::new(1, 2);
    let (enc, e) = f.encode3(bits([f32::INFINITY, 1.4, 1.5]));
    let d = floats(f.decode3(enc, e));
    assert_eq!(d, [1.5, 1.5, 1.5]);
    let (enc, e) = f.encode3(bits([1.4, 0.0, 0.0]));
    let d = floats(f.decode3(enc, e));
    assert!((d[0] - 1.4).abs() <= 0.25);
}

#[test]
fn rgb9e5_carry_at_every_exponent() {
    for k in -15i32..=15 {
        let c = 2f32.powi(k) * (1.0 - 1.0 / 2048.0);
        let w = vec3_to_rgb9e5(bits([c, 0.0, 0.0]));
        assert_eq!(w, (((k + 16) as u32) << 27) | 256);
    }
    assert_eq!(vec3_to_rgb9e5(bits([0.99951171875, 0.0, 0.0])), 0x8000_0100);
}
