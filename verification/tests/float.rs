use vision_core::bits::{double_from_bits, double_to_bits, single_from_bits, single_to_bits};
use vision_core::detect::det_target_size;
use vision_core::float::{double, single, Float, Format};

/// A stream of bits without pattern.
struct Stream {
    state: u64,
}

impl Stream {
    fn next(&mut self) -> u64 {
        self.state = self
            .state
            .wrapping_mul(6364136223846793005)
            .wrapping_add(1442695040888963407);
        let x = self.state;
        (x ^ (x >> 29)).wrapping_mul(0x9e37_79b9_7f4a_7c15)
    }
}

fn same_single(x: Float, y: f32) -> bool {
    if y.is_nan() {
        matches!(x, Float::Nan)
    } else {
        single_to_bits(x) == y.to_bits()
    }
}

fn same_double(x: Float, y: f64) -> bool {
    if y.is_nan() {
        matches!(x, Float::Nan)
    } else {
        double_to_bits(x) == y.to_bits()
    }
}

fn check_single(a: u32, b: u32) {
    let f: Format = single();
    let (x, y) = (f32::from_bits(a), f32::from_bits(b));
    let (p, q) = (single_from_bits(a), single_from_bits(b));
    assert!(same_single(p.plus(f, q), x + y), "{x:?} + {y:?}");
    assert!(same_single(p.minus(f, q), x - y), "{x:?} - {y:?}");
    assert!(same_single(p.times(f, q), x * y), "{x:?} * {y:?}");
    assert!(same_single(p.over(f, q), x / y), "{x:?} / {y:?}");
    assert_eq!(p.below(f, q), x < y, "{x:?} < {y:?}");
    assert_eq!(p.reaches(f, q), x >= y, "{x:?} >= {y:?}");
    assert_eq!(p.floor_to_u32(f), x.floor() as u32);
    assert_eq!(p.ceil_to_u32(f), x.ceil() as u32);
    assert_eq!(p.round_to_u32(f), x.round() as u32);
}

fn check_double(a: u64, b: u64) {
    let f: Format = double();
    let (x, y) = (f64::from_bits(a), f64::from_bits(b));
    let (p, q) = (double_from_bits(a), double_from_bits(b));
    assert!(same_double(p.plus(f, q), x + y), "{x:?} + {y:?}");
    assert!(same_double(p.minus(f, q), x - y), "{x:?} - {y:?}");
    assert!(same_double(p.times(f, q), x * y), "{x:?} * {y:?}");
    assert!(same_double(p.over(f, q), x / y), "{x:?} / {y:?}");
    assert_eq!(p.below(f, q), x < y, "{x:?} < {y:?}");
    assert_eq!(p.reaches(f, q), x >= y, "{x:?} >= {y:?}");
    assert_eq!(p.floor_to_u32(f), x.floor() as u32);
    assert_eq!(p.ceil_to_u32(f), x.ceil() as u32);
    assert_eq!(p.round_to_u32(f), x.round() as u32);
}

#[test]
fn single_arithmetic_is_that_of_the_machine() {
    let edges: [f32; 22] = [
        0.0, -0.0, 1.0, -1.0, 0.3, 0.5, 1.5, 2.5, 254.5, 255.0, 960.0, 0.485, 1e-40, -1e-45, 3e-39,
        1.1754944e-38, 3.4028235e38, 4294967296.0, 4294967040.0, f32::INFINITY, f32::NEG_INFINITY,
        f32::NAN,
    ];
    for a in edges {
        for b in edges {
            check_single(a.to_bits(), b.to_bits());
        }
    }
    let mut s = Stream { state: 7 };
    for _ in 0..60000 {
        let (a, b) = (s.next() as u32, s.next() as u32);
        check_single(a, b);
        // Two numbers of about the same size.
        check_single(a, (a & 0xff80_0000) ^ (b & 0x81ff_ffff));
    }
}

#[test]
fn double_arithmetic_is_that_of_the_machine() {
    let edges: [f64; 22] = [
        0.0, -0.0, 1.0, -1.0, 0.1, 0.8, 2.0, 10.0, 100.0, 765.0, 0.5, 1.5, 2.5, 5e-324, -1e-310,
        2.2250738585072014e-308, 1.7976931348623157e308, 4294967296.0, 4294967295.5, f64::INFINITY,
        f64::NEG_INFINITY, f64::NAN,
    ];
    for a in edges {
        for b in edges {
            check_double(a.to_bits(), b.to_bits());
        }
    }
    let mut s = Stream { state: 11 };
    for _ in 0..40000 {
        let (a, b) = (s.next(), s.next());
        check_double(a, b);
        check_double(a, (a & 0xfff0_0000_0000_0000) ^ (b & 0x803f_ffff_ffff_ffff));
    }
}

#[test]
fn integers_and_ratios_round_as_literals_do() {
    let (f, g) = (single(), double());
    for (n, d, x) in [(485, 1000, 0.485f32), (456, 1000, 0.456), (406, 1000, 0.406), (3, 10, 0.3)] {
        assert_eq!(single_to_bits(Float::from_ratio(f, n, d)), x.to_bits());
    }
    for (n, d, x) in [(8, 10, 0.8f64), (2, 1, 2.0), (1, 10, 0.1)] {
        assert_eq!(double_to_bits(Float::from_ratio(g, n, d)), x.to_bits());
    }
    let mut s = Stream { state: 3 };
    for _ in 0..20000 {
        let v = s.next() >> (s.next() % 64);
        assert_eq!(single_to_bits(Float::from_natural(f, v)), (v as f32).to_bits());
        assert_eq!(double_to_bits(Float::from_natural(g, v)), (v as f64).to_bits());
    }
}

#[test]
fn encodings_read_back() {
    let mut s = Stream { state: 5 };
    for _ in 0..20000 {
        let (a, b) = (s.next() as u32, s.next());
        if !f32::from_bits(a).is_nan() {
            assert_eq!(single_to_bits(single_from_bits(a)), a);
        }
        if !f64::from_bits(b).is_nan() {
            assert_eq!(double_to_bits(double_from_bits(b)), b);
        }
    }
    assert_eq!(single_to_bits(Float::Nan), f32::NAN.to_bits());
    assert_eq!(double_to_bits(Float::Nan), f64::NAN.to_bits());
}

/// The same sizes, in machine arithmetic.
fn sizes(src_w: u32, src_h: u32) -> (u32, u32) {
    let longest = src_w.max(src_h) as f32;
    let scale = if longest > 960.0 { 960.0 / longest } else { 1.0 };
    let round = |v: u32| -> u32 {
        let r = ((v as f32 * scale).round() as u32).max(1);
        (r.div_ceil(32) * 32).max(32)
    };
    (round(src_w), round(src_h))
}

#[test]
fn detector_sizes_are_bounded_multiples() {
    assert_eq!(det_target_size(1920, 1080), (960, 544));
    assert_eq!(det_target_size(640, 480), (640, 480));
    assert_eq!(det_target_size(641, 481), (672, 512));
    assert_eq!(det_target_size(960, 1), (960, 32));
    assert_eq!(det_target_size(0, 0), (32, 32));
    assert_eq!(det_target_size(1920, 65), (960, 64));
    assert_eq!(det_target_size(u32::MAX, 1), (960, 32));
    assert_eq!(det_target_size(u32::MAX, u32::MAX), (960, 960));
    let mut s = Stream { state: 1 };
    for _ in 0..40000 {
        let w = (s.next() as u32) >> (s.next() % 32);
        let h = (s.next() as u32) >> (s.next() % 32);
        let r = det_target_size(w, h);
        assert_eq!(r, sizes(w, h), "{w} by {h}");
        assert!(r.0 % 32 == 0 && r.1 % 32 == 0 && r.0.max(r.1) <= 960);
    }
}
