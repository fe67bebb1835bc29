//! Geometry of text detection.
use vstd::prelude::*;
use crate::float;
use crate::rounding;
use crate::single;
use crate::float::Float;

verus! {

/// The detector takes images whose sides are multiples of this.
pub const DET_SIDE_MULTIPLE: u32 = 32;

/// Upper bound on the longest side of the detector's input.
pub const DET_MAX_SIDE: u32 = 960;

/// The factor by which an image is shrunk for the detector.
pub open spec fn det_scale(longest: u32) -> float::Value {
    let f = float::single_format();
    if float::less(float::natural(f, DET_MAX_SIDE as nat), float::natural(f, longest as nat)) {
        float::quotient(
            f,
            float::natural(f, DET_MAX_SIDE as nat),
            float::natural(f, longest as nat),
        )
    } else {
        float::natural(f, 1)
    }
}

/// `v` pixels after shrinking, at least one.
pub open spec fn det_shrunk(v: u32, scale: float::Value) -> u32 {
    let f = float::single_format();
    let r = float::round_u32(f, float::product(f, float::natural(f, v as nat), scale));
    if r >= 1 {
        r
    } else {
        1
    }
}

/// The next multiple of the detector's stride.
pub open spec fn next_multiple(v: int) -> int {
    ((v + DET_SIDE_MULTIPLE - 1) / (DET_SIDE_MULTIPLE as int)) * DET_SIDE_MULTIPLE
}

/// A side of the detector's input.
pub open spec fn det_side(v: u32, longest: u32) -> int {
    next_multiple(det_shrunk(v, det_scale(longest)) as int)
}

pub open spec fn larger(a: u32, b: u32) -> u32 {
    if a >= b {
        a
    } else {
        b
    }
}

/// What rounding does to an integer and how far.
pub proof fn lemma_natural(v: u32)
    ensures
        ({
            let one = rounding::pow2(149);
            let r = rounding::nearest(v as nat * one, 1, 24);
            &&& float::natural(float::single_format(), v as nat) == float::Value::Finite(false, r)
            &&& r * 0x100_0000 <= (v as nat * one) * 0x100_0001
            &&& r * 0x100_0000 >= (v as nat * one) * 0xff_ffff
            &&& r <= rounding::pow2(181)
        }),
{
    let one = rounding::pow2(149);
    single::lemma_one();
    let n = v as nat * one;
    rounding::lemma_pow2_adds(32, 149);
    assert(n <= 1 * rounding::pow2(181)) by (nonlinear_arith)
        requires
            n == v as nat * one,
            v <= 0x1_0000_0000,
            rounding::pow2(181) == 0x1_0000_0000 * one,
    ;
    rounding::lemma_nearest_at_most(n, 1, 24, 181);
    rounding::lemma_pow2_monotone(182, 277);
    rounding::lemma_pow2_pos(181);
    let r = rounding::nearest(n, 1, 24);
    if v == 0 {
        single::lemma_small_natural(0);
        assert(0 * one == 0);
    } else {
        rounding::lemma_pow2_monotone(23, 149);
        assert(n >= 1 * rounding::pow2(23)) by (nonlinear_arith)
            requires
                n == v as nat * one,
                v >= 1,
                one >= rounding::pow2(23),
        ;
        rounding::lemma_nearest_error(n, 1, 24);
        assert(r * 1 == r);
    }
}

/// The shrinking factor: what it is, and how far rounding takes it.
proof fn lemma_scale(longest: u32)
    requires
        longest > DET_MAX_SIDE,
    ensures
        ({
            let one = rounding::pow2(149);
            let l = rounding::nearest(longest as nat * one, 1, 24);
            let s = rounding::nearest((DET_MAX_SIDE as nat * one) * one, l, 24);
            &&& l > 0
            &&& det_scale(longest) == float::Value::Finite(false, s)
            &&& (s * l) * 0x100_0000 <= ((DET_MAX_SIDE as nat * one) * one) * 0x100_0001
            &&& s >= 0x100_0000
        }),
{
    let one = rounding::pow2(149);
    single::lemma_one();
    single::lemma_small_natural(DET_MAX_SIDE as nat);
    lemma_natural(longest);
    let l = rounding::nearest(longest as nat * one, 1, 24);
    let top = DET_MAX_SIDE as nat * one;
    let n = top * one;
    // The longest side stays longer than the bound after rounding.
    single::lemma_small_natural(961);
    assert(l > top) by (nonlinear_arith)
        requires
            l * 0x100_0000 >= (longest as nat * one) * 0xff_ffff,
            longest >= 961,
            top == 960 * one,
            one >= 1,
    ;
    let s = rounding::nearest(n, l, 24);
    rounding::lemma_pow2_adds(32, 149);
    rounding::lemma_pow2_adds(149, 149);
    rounding::lemma_pow2_monotone(149, 181);
    // The factor lies below one.
    assert(n <= l * rounding::pow2(149)) by (nonlinear_arith)
        requires
            n == top * one,
            l > top,
            one == rounding::pow2(149),
    ;
    rounding::lemma_nearest_at_most(n, l, 24, 149);
    rounding::lemma_pow2_monotone(150, 277);
    rounding::lemma_pow2_pos(149);
    // It is large enough to have its full digits.
    rounding::lemma_pow2_monotone(55, 149);
    rounding::lemma_pow2_adds(32, 23);
    assert(n >= l * rounding::pow2(23)) by (nonlinear_arith)
        requires
            n == top * one,
            top == 960 * one,
            l <= rounding::pow2(181),
            rounding::pow2(181) == 0x1_0000_0000 * one,
            one >= 0x1_0000_0000 * rounding::pow2(23),
    ;
    rounding::lemma_nearest_error(n, l, 24);
    assert(one >= 0x80_0000_0000_0000);
    if s < 0x100_0000 {
        assert(s * l <= 0x100_0000 * (0x1_0000_0000 * one)) by (nonlinear_arith)
            requires
                0 <= s < 0x100_0000,
                0 < l <= 0x1_0000_0000 * one,
        ;
        assert(n >= (960 * one) * 0x80_0000_0000_0000) by (nonlinear_arith)
            requires
                n == (960 * one) * one,
                one >= 0x80_0000_0000_0000,
        ;
    }
}

/// The shrunk side, in full: it never passes the bound.
proof fn lemma_shrunk(v: u32, longest: u32)
    requires
        v <= longest,
    ensures
        det_shrunk(v, det_scale(longest)) <= DET_MAX_SIDE,
        longest <= DET_MAX_SIDE ==> det_shrunk(v, det_scale(longest)) == larger(v, 1),
{
    let f = float::single_format();
    let one = rounding::pow2(149);
    single::lemma_one();
    lemma_natural(v);
    let a = rounding::nearest(v as nat * one, 1, 24);
    if longest <= DET_MAX_SIDE {
        single::lemma_small_natural(v as nat);
        single::lemma_small_natural(longest as nat);
        single::lemma_small_natural(DET_MAX_SIDE as nat);
        single::lemma_small_natural(1);
        assert(DET_MAX_SIDE as nat * one >= longest as nat * one) by (nonlinear_arith)
            requires
                DET_MAX_SIDE >= longest,
        ;
        assert(1 * one == one);
        let n = (v as nat * one) * one;
        // Dividing out the factor one leaves the integer as it was.
        assert(n == one * (v as nat * one)) by (nonlinear_arith)
            requires
                n == (v as nat * one) * one,
        ;
        assert(one == one * 1);
        rounding::lemma_nearest_scale(v as nat * one, 1, 24, one);
        lemma_round_integral(v as nat);
    } else {
        lemma_scale(longest);
        let l = rounding::nearest(longest as nat * one, 1, 24);
        let s = rounding::nearest((DET_MAX_SIDE as nat * one) * one, l, 24);
        lemma_natural(longest);
        let n = a * s;
        let q = rounding::nearest(n, one, 24);
        if v == 0 {
            single::lemma_small_natural(0);
            assert(0 * one == 0);
            assert(n == 0) by (nonlinear_arith)
                requires
                    n == a * s,
                    a == 0,
            ;
            single::lemma_small_natural(0);
            assert(one * 0 == 0);
            rounding::lemma_nearest_scale(0, 1, 24, one);
            lemma_round_integral(0);
        } else {
            assert(n >= one * rounding::pow2(23)) by (nonlinear_arith)
                requires
                    n == a * s,
                    a * 0x100_0000 >= (v as nat * one) * 0xff_ffff,
                    v >= 1,
                    s >= 0x100_0000,
                    rounding::pow2(23) == 0x80_0000,
                    one >= 1,
            ;
            rounding::lemma_nearest_error(n, one, 24);
            lemma_chain(v as nat, longest as nat, one, a, l, s, q);
            rounding::lemma_pow2_adds(32, 149);
            rounding::lemma_pow2_monotone(181, 277);
            assert(q < rounding::pow2(277));
            assert((2 * q + one) / (2 * one) <= 960) by (nonlinear_arith)
                requires
                    2 * q < 1921 * one,
                    one >= 1,
            ;
        }
    }
}

/// The rounding errors of the three steps, together, stay under half a pixel.
proof fn lemma_chain(v: nat, longest: nat, one: nat, a: nat, l: nat, s: nat, q: nat)
    requires
        1 <= v <= longest,
        one >= 1,
        l >= 1,
        a * 0x100_0000 <= (v * one) * 0x100_0001,
        l * 0x100_0000 >= (longest * one) * 0xff_ffff,
        (s * l) * 0x100_0000 <= ((960 * one) * one) * 0x100_0001,
        (q * one) * 0x100_0000 <= (a * s) * 0x100_0001,
    ensures
        2 * q < 1921 * one,
{
    let t: nat = 0x100_0000;
    let u: nat = 0x100_0001;
    let w: nat = 0xff_ffff;
    // a / l is at most one, but for two errors.
    assert(a * w * t <= l * u * t) by (nonlinear_arith)
        requires
            a * t <= (v * one) * u,
            l * t >= (longest * one) * w,
            v <= longest,
            one >= 1,
            w >= 0,
            u >= 0,
    ;
    assert(a * w <= l * u);
    // Neither is a s / 960, in units of one squared, but for three.
    assert((a * s) * w * t <= ((960 * one) * one) * u * u) by (nonlinear_arith)
        requires
            a * w <= l * u,
            (s * l) * t <= ((960 * one) * one) * u,
            s >= 0,
            u >= 0,
            t >= 0,
    ;
    assert((q * one) * t * w * t <= ((960 * one) * one) * u * u * u) by (nonlinear_arith)
        requires
            (q * one) * t <= (a * s) * u,
            (a * s) * w * t <= ((960 * one) * one) * u * u,
            u >= 0,
            w >= 0,
            t >= 0,
    ;
    assert(q * (t * w * t) <= (960 * one) * (u * u * u)) by (nonlinear_arith)
        requires
            (q * one) * t * w * t <= ((960 * one) * one) * u * u * u,
            one >= 1,
    ;
    assert(2 * 960 * (u * u * u) < 1921 * (t * w * t) && t * w * t > 0) by (nonlinear_arith)
        requires
            t == 0x100_0000,
            u == 0x100_0001,
            w == 0xff_ffff,
    ;
    assert(2 * q < 1921 * one) by (nonlinear_arith)
        requires
            q * (t * w * t) <= (960 * one) * (u * u * u),
            2 * 960 * (u * u * u) < 1921 * (t * w * t),
            one >= 1,
            t * w * t > 0,
    ;
}

/// An integral number rounds to itself.
proof fn lemma_round_integral(v: nat)
    requires
        v <= u32::MAX,
    ensures
        float::round_u32(
            float::single_format(),
            float::Value::Finite(false, v * rounding::pow2(149)),
        ) == v,
{
    let one = rounding::pow2(149);
    single::lemma_one();
    let u = v * one;
    assert(2 * u + one == v * (2 * one) + one) by (nonlinear_arith)
        requires
            u == v * one,
    ;
    vstd::arithmetic::div_mod::lemma_fundamental_div_mod_converse(
        (2 * u + one) as int,
        (2 * one) as int,
        v as int,
        one as int,
    );
}

/// The size of the detector's input for an image of `src_w` by `src_h`
/// pixels: the longest side is brought down to `DET_MAX_SIDE`, and both sides
/// up to a multiple of `DET_SIDE_MULTIPLE`.
pub fn det_target_size(src_w: u32, src_h: u32) -> (r: (u32, u32))
    ensures
        r.0 == det_side(src_w, larger(src_w, src_h)),
        r.1 == det_side(src_h, larger(src_w, src_h)),
        DET_SIDE_MULTIPLE <= r.0 <= DET_MAX_SIDE && r.0 % DET_SIDE_MULTIPLE == 0,
        DET_SIDE_MULTIPLE <= r.1 <= DET_MAX_SIDE && r.1 % DET_SIDE_MULTIPLE == 0,
{
    let f = float::single();
    let longest: u32 = if src_w >= src_h {
        src_w
    } else {
        src_h
    };
    let bound = Float::from_natural(f, DET_MAX_SIDE as u64);
    let length = Float::from_natural(f, longest as u64);
    let scale = if bound.below(f, length) {
        bound.over(f, length)
    } else {
        Float::from_natural(f, 1)
    };
    proof {
        lemma_shrunk(src_w, longest);
        lemma_shrunk(src_h, longest);
    }
    (det_side_of(src_w, scale, longest), det_side_of(src_h, scale, longest))
}

/// One side of the detector's input, given the shrinking factor.
fn det_side_of(v: u32, scale: Float, longest: u32) -> (r: u32)
    requires
        scale.valid(float::single_format()),
        scale.value(float::single_format()) == det_scale(longest),
        det_shrunk(v, det_scale(longest)) <= DET_MAX_SIDE,
    ensures
        r == det_side(v, longest),
        DET_SIDE_MULTIPLE <= r <= DET_MAX_SIDE && r % DET_SIDE_MULTIPLE == 0,
{
    let f = float::single();
    let shrunk = Float::from_natural(f, v as u64).times(f, scale).round_to_u32(f);
    let kept: u32 = if shrunk >= 1 {
        shrunk
    } else {
        1
    };
    (kept + (DET_SIDE_MULTIPLE - 1)) / DET_SIDE_MULTIPLE * DET_SIDE_MULTIPLE
}

/// An image that fits the bound is not shrunk: each side is only brought up
/// to the next multiple, and an empty side to the first.
pub proof fn det_target_size_keeps_small_images(src_w: u32, src_h: u32)
    requires
        src_w <= DET_MAX_SIDE,
        src_h <= DET_MAX_SIDE,
    ensures
        det_side(src_w, larger(src_w, src_h)) == next_multiple(larger(src_w, 1) as int),
        det_side(src_h, larger(src_w, src_h)) == next_multiple(larger(src_h, 1) as int),
{
    lemma_shrunk(src_w, larger(src_w, src_h));
    lemma_shrunk(src_h, larger(src_w, src_h));
}

/// The detector's input keeps the proportions of the image: each side is the
/// first multiple of the stride from its shrunk length on, rounded to whole
/// pixels, but for a thousandth of a pixel. The shrunk length is that of the image where it fits the bound, and else such that
/// the longest side comes to the bound.
pub proof fn the_detector_input_keeps_the_proportions(v: u32, longest: u32)
    requires
        v <= longest <= 0x100_0000,
    ensures
        ({
            let side = det_side(v, longest);
            &&& side % 32 == 0
            &&& side >= 32
            &&& longest <= 960 ==> v <= side && (side < v + 32 || side == 32)
            &&& longest > 960 ==> 1000 * (v * 960) <= 1000 * (side * longest) + 501 * longest
            &&& longest > 960 && side > 32 ==> 1000 * ((side - 32) * longest) + 499 * longest
                <= 1000 * (v * 960)
        }),
{
    let shrunk = det_shrunk(v, det_scale(longest)) as int;
    let side = det_side(v, longest);
    lemma_shrunk(v, longest);
    assert(shrunk <= side < shrunk + 32 && side % 32 == 0 && side >= 32) by {
        let q = (shrunk + 31) / 32;
        assert(side == q * 32);
    }
    if longest > 960 {
        let f = float::single_format();
        let one = rounding::pow2(149);
        let n = longest as nat;
        single::lemma_one();
        single::lemma_small_natural(v as nat);
        single::lemma_small_natural(n);
        single::lemma_small_natural(960);
        lemma_scale(longest);
        let top = (960 * one) * one;
        let l = n * one;
        let s = rounding::nearest(top, l, 24);
        rounding::lemma_pow2_monotone(55, 149);
        rounding::lemma_pow2_adds(32, 23);
        assert(top >= l * rounding::pow2(23)) by (nonlinear_arith)
            requires
                top == (960 * one) * one,
                l == n * one,
                n <= 0x100_0000,
                one >= 0x1_0000_0000 * rounding::pow2(23),
                rounding::pow2(23) >= 1,
        ;
        rounding::lemma_nearest_error(top, l, 24);
        let exact = (v as nat * one) * s;
        let q = rounding::nearest(exact, one, 24);
        if v == 0 {
            assert(0 * one == 0) by (nonlinear_arith);
            assert(exact == 0) by (nonlinear_arith)
                requires
                    exact == (v as nat * one) * s,
                    v == 0,
            ;
            assert(one * 0 == 0);
            single::lemma_small_natural(0);
            rounding::lemma_nearest_scale(0, 1, 24, one);
            lemma_round_integral(0);
            assert(one * 1 == one);
            assert(shrunk == 1);
        } else {
            assert(exact >= one * rounding::pow2(23)) by (nonlinear_arith)
                requires
                    exact == (v as nat * one) * s,
                    v >= 1,
                    s >= 0x100_0000,
                    rounding::pow2(23) == 0x80_0000,
                    one >= 1,
            ;
            rounding::lemma_nearest_error(exact, one, 24);
            single::lemma_three_errors(v as nat, n, 960, one, 960 * one, s, q);
            lemma_rounded(q, one, v as nat, n, shrunk);
        }
        lemma_side_bounds(side, shrunk, v as int, n as int);
    }
}

/// A scaled length rounded to the nearest pixel.
proof fn lemma_rounded(q: nat, one: nat, v: nat, longest: nat, shrunk: int)
    requires
        one >= 1,
        v <= longest,
        longest > 960,
        (q * longest - (v * 960) * one) * 0x100_0000 <= 4 * ((v * 960) * one),
        ((v * 960) * one - q * longest) * 0x100_0000 <= 4 * ((v * 960) * one),
        shrunk == (if (2 * q + one) / (2 * one) >= 1 {
            ((2 * q + one) / (2 * one)) as int
        } else {
            1
        }),
    ensures
        1000 * (v * 960) <= 1000 * (shrunk * longest) + 501 * longest,
        shrunk > 1 ==> 1000 * (shrunk * longest) <= 1000 * (v * 960) + 501 * longest,
{
    let goal = (v * 960) * one;
    let r = (2 * q + one) / (2 * one);
    let rest = (2 * q + one) % (2 * one);
    vstd::arithmetic::div_mod::lemma_fundamental_div_mod((2 * q + one) as int, (2 * one) as int);
    let ql = q * longest;
    assert(goal <= (longest * one) * 960) by (nonlinear_arith)
        requires
            goal == (v * 960) * one,
            v <= longest,
    ;
    let unit = longest * one;
    assert(4000 * (ql - goal) <= unit && 4000 * (goal - ql) <= unit) by (nonlinear_arith)
        requires
            (ql - goal) * 0x100_0000 <= 4 * goal,
            (goal - ql) * 0x100_0000 <= 4 * goal,
            goal <= unit * 960,
    ;
    let rl = r * longest;
    assert(2 * ql + unit == 2 * (rl * one) + rest * longest) by (nonlinear_arith)
        requires
            2 * q + one == (2 * one) * r + rest,
            ql == q * longest,
            unit == longest * one,
            rl == r * longest,
    ;
    assert(0 <= rest * longest <= 2 * unit) by (nonlinear_arith)
        requires
            0 <= rest < 2 * one,
            unit == longest * one,
    ;
    let vk = v * 960;
    assert(1000 * vk <= 1000 * rl + 501 * longest) by (nonlinear_arith)
        requires
            1000 * (vk * one) <= 1000 * (rl * one) + 501 * (longest * one),
            one >= 1,
    ;
    assert(1000 * rl <= 1000 * vk + 501 * longest) by (nonlinear_arith)
        requires
            1000 * (rl * one) <= 1000 * (vk * one) + 501 * (longest * one),
            one >= 1,
    ;
    assert(shrunk >= r);
    assert(shrunk * longest >= rl) by (nonlinear_arith)
        requires
            shrunk >= r,
            rl == r * longest,
    ;
}

proof fn lemma_side_bounds(side: int, shrunk: int, v: int, longest: int)
    requires
        shrunk <= side < shrunk + 32,
        side % 32 == 0,
        1 <= shrunk,
        longest > 960,
        v >= 0,
        1000 * (v * 960) <= 1000 * (shrunk * longest) + 501 * longest,
        shrunk > 1 ==> 1000 * (shrunk * longest) <= 1000 * (v * 960) + 501 * longest,
    ensures
        1000 * (v * 960) <= 1000 * (side * longest) + 501 * longest,
        side > 32 ==> 1000 * ((side - 32) * longest) + 499 * longest <= 1000 * (v * 960),
{
    assert(shrunk * longest <= side * longest) by (nonlinear_arith)
        requires
            shrunk <= side,
            longest >= 0,
    ;
    if side > 32 {
        assert(shrunk > 1);
        assert((side - 32) * longest + longest <= shrunk * longest) by (nonlinear_arith)
            requires
                side - 32 < shrunk,
                longest >= 0,
        ;
    }
}

/// The longest of two sides.
pub proof fn the_longest_side_is_the_larger(a: u32, b: u32)
    ensures
        larger(a, b) >= a && larger(a, b) >= b,
        larger(a, b) == a || larger(a, b) == b,
{
}

} // verus!
