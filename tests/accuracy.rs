use shared_exponent::rgb9e5::{rgb9e5_to_vec3, vec3_to_rgb9e5};
use shared_exponent::xyz13e6::{vec3_to_xyz13e6, xyz13e6_to_vec3};
use shared_exponent::xyz14e3;
use shared_exponent::xyz18e7::{vec3_to_xyz18e7, xyz18e7_to_vec3};
use shared_exponent::xyz8e5::{vec3_to_xyz8e5, xyz8e5_to_vec3};

/// Samples per range where a bound is asserted.
const ITERATIONS: usize = 1_000_000;

/// Samples per range for `rgb9e5`: its ceiling at 100.0 lies just under the
/// worst case a correct encoder can reach there, `sqrt(3) * 0.25 / 2`, which
/// a long enough run meets.
const RGB9E5_ITERATIONS: usize = 20_000;

/// Samples per range where a table is only printed.
const PLOT_ITERATIONS: usize = 20000;

/// A small xorshift generator, so that every run samples the same vectors.
struct Sampler(u64);

impl Sampler {
    fn next_u32(&mut self) -> u32 {
        self.0 ^= self.0 << 13;
        self.0 ^= self.0 >> 7;
        self.0 ^= self.0 << 17;
        (self.0 >> 32) as u32
    }

    /// Uniform in `[min, max)`: a value in `[1, 2)` with 23 random fraction
    /// bits, less one, scaled.
    fn range(&mut self, min: f32, max: f32) -> f32 {
        let unit = f32::from_bits((self.next_u32() >> 9) | 1.0f32.to_bits()) - 1.0;
        unit * (max - min) + min
    }
}

fn bits(v: [f32; 3]) -> [u32; 3] {
    [v[0].to_bits(), v[1].to_bits(), v[2].to_bits()]
}

fn floats(b: [u32; 3]) -> [f32; 3] {
    [f32::from_bits(b[0]), f32::from_bits(b[1]), f32::from_bits(b[2])]
}

fn distance(a: [f32; 3], b: [f32; 3]) -> f32 {
    let d = [a[0] - b[0], a[1] - b[1], a[2] - b[2]];
    (d[0] * d[0] + d[1] * d[1] + d[2] * d[2]).sqrt()
}

/// Largest and average distance between random vectors in `[min, max)^3`
/// and their round trips.
fn conversion_error<F>(distance_to: f32, iterations: usize, signed: bool, proc: F) -> (f32, f32)
where
    F: Fn([f32; 3]) -> [f32; 3],
{
    let mut sampler = Sampler(0x9e37_79b9_7f4a_7c15);
    let min = if signed { -distance_to } else { 0.0 };
    let mut max_dist: f32 = 0.0;
    let mut total: f64 = 0.0;
    for _ in 0..iterations {
        let orig = [
            sampler.range(min, distance_to),
            sampler.range(min, distance_to),
            sampler.range(min, distance_to),
        ];
        let dist = distance(orig, proc(orig));
        max_dist = max_dist.max(dist);
        total += dist as f64;
    }
    (max_dist, (total / iterations as f64) as f32)
}

#[test]
fn rgb9e5_test_accuracy() {
    for (dist, max) in [
        (0.01, 2.64e-5),
        (0.1, 2.11e-4),
        (1.0, 2.91e-3),
        (10.0, 2.70e-2),
        (100.0, 2.16e-1),
        (1000.0, 1.73),
    ] {
        let (max_dist, _) = conversion_error(dist, RGB9E5_ITERATIONS, false, |v| {
            floats(rgb9e5_to_vec3(vec3_to_rgb9e5(bits(v))))
        });
        assert!(max_dist < max);
    }
}

#[test]
fn xyz13e6_test_accuracy() {
    for (dist, max) in [
        (0.01, 1.65e-6),
        (0.1, 1.32e-5),
        (1.0, 1.82e-4),
        (10.0, 1.69e-3),
        (100.0, 1.36e-2),
        (1000.0, 1.09e-1),
    ] {
        let (max_dist, _) = conversion_error(dist, ITERATIONS, true, |v| {
            floats(xyz13e6_to_vec3(vec3_to_xyz13e6(bits(v))))
        });
        assert!(max_dist < max);
    }
}

#[test]
fn xyz8e5_test_accuracy() {
    for (dist, max) in [
        (0.01, 5.28e-5),
        (0.1, 4.23e-4),
        (1.0, 5.82e-3),
        (10.0, 5.40e-2),
        (100.0, 4.33e-1),
        (1000.0, 3.46),
    ] {
        let (max_dist, _) = conversion_error(dist, ITERATIONS, true, |v| {
            floats(xyz8e5_to_vec3(vec3_to_xyz8e5(bits(v))))
        });
        assert!(max_dist < max);
    }
}

#[test]
fn xyz14e3_get_data_for_plot() {
    let norm_mult: f32 = 1.000061;
    let top: f32 = 16383.0 / 16384.0 * 16.0 * norm_mult;
    println!("RANGE   \tMAX      \tAVG");
    for i in 1..20 {
        let mut n = i as f32 * 0.25;
        n = n.exp2() - 1.0;
        let (max, avg) = conversion_error(n, PLOT_ITERATIONS, false, |v| {
            let scaled = [v[0].min(top) / norm_mult, v[1].min(top) / norm_mult, v[2].min(top) / norm_mult];
            let d = floats(xyz14e3::decode_normalized(xyz14e3::encode_normalized(bits(scaled))));
            [d[0] * norm_mult, d[1] * norm_mult, d[2] * norm_mult]
        });
        println!("{:.8}\t{:.8}\t{:.8}", n, max, avg);
    }
}

#[test]
fn xyz18e7_get_data_for_plot() {
    println!("RANGE   \tMAX      \tAVG");
    for i in 1..65 {
        let mut n = i as f32 * 0.25;
        n = n.exp2() - 1.0;
        let (max, avg) = conversion_error(n, PLOT_ITERATIONS, false, |v| {
            floats(xyz18e7_to_vec3(vec3_to_xyz18e7(bits(v))))
        });
        println!("{:.8}\t{:.8}\t{:.8}", n, max, avg);
    }
}

/// Average error grows roughly in step with the sampled range.
#[test]
fn error_scales_with_magnitude() {
    let avg_at = |d: f32| conversion_error(d, PLOT_ITERATIONS, false, |v| floats(rgb9e5_to_vec3(vec3_to_rgb9e5(bits(v))))).1;
    for d in [0.01f32, 1.0, 100.0, 1000.0] {
        let relative = avg_at(d) / d;
        assert!(relative > 0.0);
        assert!(relative < 2.0 / 512.0);
    }
}
