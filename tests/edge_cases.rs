use shared_exponent::custom_shared_format::SharedExponentFormat;
use shared_exponent::rgb9e5::{rgb9e5_to_vec3, vec3_to_rgb9e5};
use shared_exponent::xyz13e6::{vec3_to_xyz13e6, xyz13e6_to_vec3};
use shared_exponent::xyz14e3;
use shared_exponent::xyz18e7::{vec3_to_xyz18e7, xyz18e7_to_vec3};
use shared_exponent::xyz18e7_f64test;
use shared_exponent::xyz8e5::{vec3_to_xyz8e5, xyz8e5_to_vec3};
use shared_exponent::xyz9e2;

const ONE: [f32; 3] = [1.0; 3];
const NEG_ONE: [f32; 3] = [-1.0; 3];
const ZERO: [f32; 3] = [0.0; 3];
const INFINITY: [f32; 3] = [f32::INFINITY; 3];
const NEG_INFINITY: [f32; 3] = [f32::NEG_INFINITY; 3];
const MAX: [f32; 3] = [f32::MAX; 3];
const NEG_MAX: [f32; 3] = [-f32::MAX; 3];
const NAN: [f32; 3] = [f32::NAN; 3];

fn bits(v: [f32; 3]) -> [u32; 3] {
    [v[0].to_bits(), v[1].to_bits(), v[2].to_bits()]
}

fn floats(b: [u32; 3]) -> [f32; 3] {
    [f32::from_bits(b[0]), f32::from_bits(b[1]), f32::from_bits(b[2])]
}

fn splat(x: f32) -> [f32; 3] {
    [x; 3]
}

fn rgb9e5(v: [f32; 3]) -> [f32; 3] {
    floats(rgb9e5_to_vec3(vec3_to_rgb9e5(bits(v))))
}

fn xyz8e5(v: [f32; 3]) -> [f32; 3] {
    floats(xyz8e5_to_vec3(vec3_to_xyz8e5(bits(v))))
}

fn xyz13e6(v: [f32; 3]) -> [f32; 3] {
    floats(xyz13e6_to_vec3(vec3_to_xyz13e6(bits(v))))
}

fn xyz18e7(v: [f32; 3]) -> [f32; 3] {
    floats(xyz18e7_to_vec3(vec3_to_xyz18e7(bits(v))))
}

fn xyz18e7_f64(v: [f64; 3]) -> [f64; 3] {
    let b = xyz18e7_f64test::xyz18e7_to_vec3(xyz18e7_f64test::vec3_to_xyz18e7([
        v[0].to_bits(),
        v[1].to_bits(),
        v[2].to_bits(),
    ]));
    [f64::from_bits(b[0]), f64::from_bits(b[1]), f64::from_bits(b[2])]
}

const XYZ9E2_NORM_MULT: f32 = 1.0019569;
const XYZ9E2_MAX: f32 = 511.0 / 512.0 * 1.0 * XYZ9E2_NORM_MULT;
const XYZ14E3_NORM_MULT: f32 = 1.000061;
const XYZ14E3_MAX: f32 = 16383.0 / 16384.0 * 16.0 * XYZ14E3_NORM_MULT;

/// Scales channels into a normalized format's range, keeping each sign.
fn normalized(v: [f32; 3], max: f32, norm_mult: f32) -> [u32; 3] {
    let one = |c: f32| {
        let magnitude = if c.is_nan() { 0.0 } else { c.abs() }.min(max) / norm_mult;
        magnitude.to_bits() | (c.to_bits() & 0x8000_0000)
    };
    [one(v[0]), one(v[1]), one(v[2])]
}

fn denormalized(b: [u32; 3], norm_mult: f32) -> [f32; 3] {
    let f = floats(b);
    [f[0] * norm_mult, f[1] * norm_mult, f[2] * norm_mult]
}

fn xyz9e2(v: [f32; 3]) -> [f32; 3] {
    let enc = xyz9e2::encode_normalized(normalized(v, XYZ9E2_MAX, XYZ9E2_NORM_MULT));
    denormalized(xyz9e2::decode_normalized(enc), XYZ9E2_NORM_MULT)
}

fn xyz14e3(v: [f32; 3]) -> [f32; 3] {
    let enc = xyz14e3::encode_normalized(normalized(v, XYZ14E3_MAX, XYZ14E3_NORM_MULT));
    denormalized(xyz14e3::decode_normalized(enc), XYZ14E3_NORM_MULT)
}

#[test]
fn custom_shared_format_test_edge_cases() {
    for exponent_bits in 1..=7u8 {
        for mantissa_bits in 1..=19u8 {
            if exponent_bits * mantissa_bits > 133 {
                continue;
            }
            let format = SharedExponentFormat::new(exponent_bits, mantissa_bits);
            let round_trip = |v: [f32; 3]| {
                let (enc, exp_shared) = format.encode3(bits(v));
                floats(format.decode3(enc, exp_shared))
            };
            let max = (format.max_mantissa as f32) / format.mantissa_values as f32
                * (1u128 << format.max_exp) as f32;
            assert_eq!(f32::from_bits(format.max_value()), max);
            assert_eq!(ONE, round_trip(ONE));
            assert_eq!(splat(max), round_trip(INFINITY));
            assert_eq!(ZERO, round_trip(NEG_INFINITY));
            assert_eq!(splat(max), round_trip(MAX));
            assert_eq!(ZERO, round_trip(NEG_MAX));
            assert_eq!(ZERO, round_trip([-0.0; 3]));
            assert_eq!(ZERO, round_trip([-f32::NAN; 3]));
        }
    }
}

#[test]
fn rgb9e5_test_edge_cases() {
    let max = 65408.0;
    assert_eq!(ONE, rgb9e5(ONE));
    assert_eq!(splat(max), rgb9e5(INFINITY));
    assert_eq!(ZERO, rgb9e5(NEG_INFINITY));
    assert_eq!(splat(max), rgb9e5(MAX));
    assert_eq!(ZERO, rgb9e5(NEG_MAX));
    assert_eq!(ZERO, rgb9e5(ZERO));
    assert_eq!(ZERO, rgb9e5(NAN));
}

#[test]
fn xyz8e5_test_edge_cases() {
    let max = 65280.0;
    assert_eq!(NEG_ONE, xyz8e5(NEG_ONE));
    assert_eq!(ONE, xyz8e5(ONE));
    assert_eq!(splat(max), xyz8e5(INFINITY));
    assert_eq!(splat(-max), xyz8e5(NEG_INFINITY));
    assert_eq!(splat(max), xyz8e5(MAX));
    assert_eq!(splat(-max), xyz8e5(NEG_MAX));
    assert_eq!(ZERO, xyz8e5(ZERO));
    assert_eq!(ZERO, xyz8e5(NAN));
}

#[test]
fn xyz9e2_test_edge_cases() {
    assert_eq!(NEG_ONE, xyz9e2(NEG_ONE));
    assert_eq!(ONE, xyz9e2(ONE));
    assert_eq!(splat(-XYZ9E2_MAX), xyz9e2(splat(-1.0)));
    assert_eq!(splat(XYZ9E2_MAX), xyz9e2(INFINITY));
    assert_eq!(splat(-XYZ9E2_MAX), xyz9e2(NEG_INFINITY));
    assert_eq!(splat(XYZ9E2_MAX), xyz9e2(MAX));
    assert_eq!(splat(-XYZ9E2_MAX), xyz9e2(NEG_MAX));
    assert_eq!(ZERO, xyz9e2(ZERO));
    assert_eq!(ZERO, xyz9e2(NAN));
}

#[test]
fn xyz13e6_test_edge_cases() {
    let max = 4294443008.0;
    assert_eq!(NEG_ONE, xyz13e6(NEG_ONE));
    assert_eq!(ONE, xyz13e6(ONE));
    assert_eq!(splat(max), xyz13e6(INFINITY));
    assert_eq!(splat(-max), xyz13e6(NEG_INFINITY));
    assert_eq!(splat(max), xyz13e6(MAX));
    assert_eq!(splat(-max), xyz13e6(NEG_MAX));
    assert_eq!(ZERO, xyz13e6(ZERO));
    assert_eq!(ZERO, xyz13e6(NAN));
}

#[test]
fn xyz14e3_test_edge_cases() {
    assert_eq!(NEG_ONE, xyz14e3(NEG_ONE));
    assert_eq!(ONE, xyz14e3(ONE));
    assert_eq!(splat(XYZ14E3_MAX), xyz14e3(INFINITY));
    assert_eq!(splat(-XYZ14E3_MAX), xyz14e3(NEG_INFINITY));
    assert_eq!(splat(XYZ14E3_MAX), xyz14e3(MAX));
    assert_eq!(splat(-XYZ14E3_MAX), xyz14e3(NEG_MAX));
    assert_eq!(ZERO, xyz14e3(ZERO));
    assert_eq!(ZERO, xyz14e3(NAN));
}

#[test]
fn xyz18e7_test_edge_cases() {
    let max = 262143.0 / 262144.0 * 18446744073709551616.0f32;
    assert_eq!(NEG_ONE, xyz18e7(NEG_ONE));
    assert_eq!(ONE, xyz18e7(ONE));
    assert_eq!(splat(max), xyz18e7(INFINITY));
    assert_eq!(splat(-max), xyz18e7(NEG_INFINITY));
    assert_eq!(splat(max), xyz18e7(MAX));
    assert_eq!(splat(-max), xyz18e7(NEG_MAX));
    assert_eq!(ZERO, xyz18e7(ZERO));
    assert_eq!(ZERO, xyz18e7(NAN));
}

#[test]
fn xyz18e7_f64test_test_edge_cases() {
    let max = 262143.0 / 262144.0 * 18446744073709551616.0f64;
    let splat64 = |x: f64| [x; 3];
    assert_eq!([-1.0; 3], xyz18e7_f64([-1.0; 3]));
    assert_eq!([1.0; 3], xyz18e7_f64([1.0; 3]));
    assert_eq!(splat64(max), xyz18e7_f64([f64::INFINITY; 3]));
    assert_eq!(splat64(-max), xyz18e7_f64([f64::NEG_INFINITY; 3]));
    assert_eq!(splat64(max), xyz18e7_f64([f64::MAX; 3]));
    assert_eq!(splat64(-max), xyz18e7_f64([-f64::MAX; 3]));
    assert_eq!([0.0; 3], xyz18e7_f64([0.0; 3]));
    assert_eq!([0.0; 3], xyz18e7_f64([f64::NAN; 3]));
}

#[test]
fn print_table_row() {
    let max = xyz18e7(INFINITY)[0];
    println!("| xyz18e7 | 8 | {} | true | ", max);
}
