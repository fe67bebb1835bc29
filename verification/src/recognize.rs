//! What the models are given: the image for the detector, a strip of it for
//! the recognizer.
use vstd::prelude::*;
use crate::arithmetic;
use crate::detect;
use crate::float;
use crate::normalize;
use crate::raster;
use crate::rounding;
use crate::single;
use crate::float::Float;
use crate::raster::RgbImage;
use crate::tensor::Tensor;

verus! {

/// The recognizer takes strips of this height.
pub const REC_IMG_HEIGHT: u32 = 48;

/// Upper bound on the width of a strip; what is longer is squeezed.
pub const REC_MAX_WIDTH: u32 = 320;

/// The width of a strip of `cw` by `ch` pixels at the recognizer's height.
pub open spec fn rec_scaled(cw: u32, ch: u32) -> u32 {
    let f = float::single_format();
    let area = float::product(
        f,
        float::natural(f, cw as nat),
        float::natural(f, REC_IMG_HEIGHT as nat),
    );
    float::ceil_u32(f, float::quotient(f, area, float::natural(f, ch as nat)))
}

/// The width of the recognizer's input for a strip of `cw` by `ch` pixels.
pub open spec fn rec_width(cw: u32, ch: u32) -> u32 {
    let scaled = rec_scaled(cw, ch);
    if scaled < 1 {
        1
    } else if scaled > REC_MAX_WIDTH {
        REC_MAX_WIDTH
    } else {
        scaled
    }
}

/// The width of the recognizer's input for a strip of `cw` by `ch` pixels: the
/// one that keeps the proportions, at least one and at most `REC_MAX_WIDTH`.
pub fn rec_target_width(cw: u32, ch: u32) -> (r: u32)
    ensures
        r == rec_width(cw, ch),
        1 <= r <= REC_MAX_WIDTH,
{
    let f = float::single();
    let area = Float::from_natural(f, cw as u64).times(
        f,
        Float::from_natural(f, REC_IMG_HEIGHT as u64),
    );
    let scaled = area.over(f, Float::from_natural(f, ch as u64)).ceil_to_u32(f);
    if scaled < 1 {
        1
    } else if scaled > REC_MAX_WIDTH {
        REC_MAX_WIDTH
    } else {
        scaled
    }
}

/// `resized` is what the triangle filter makes of `img` at its size.
pub open spec fn resized_from(resized: RgbImage, img: RgbImage) -> bool {
    &&& resized.valid()
    &&& resized.data@ == raster::triangle_resized(
        img.data@,
        img.width,
        img.height,
        resized.width,
        resized.height,
    )
}

/// The detector's input for an image: its numbers, its width and its height.
pub fn detector_input(rgb: &RgbImage) -> (r: (Tensor, u32, u32))
    requires
        rgb.valid(),
        rgb.width > 0,
        rgb.height > 0,
        rgb.width * detect::DET_MAX_SIDE * 16 <= isize::MAX,
    ensures
        r.1 == detect::det_side(rgb.width, detect::larger(rgb.width, rgb.height)),
        r.2 == detect::det_side(rgb.height, detect::larger(rgb.width, rgb.height)),
        exists|resized: RgbImage|
            {
                &&& resized.width == r.1 && resized.height == r.2
                &&& #[trigger] resized_from(resized, *rgb)
                &&& normalize::holds_image(
                    r.0,
                    resized,
                    r.1,
                    r.2,
                    normalize::Model::Detector,
                )
            },
{
    let (net_w, net_h) = detect::det_target_size(rgb.width, rgb.height);
    proof {
        assert(rgb.width * net_h * 16 <= rgb.width * 960 * 16 && net_w * net_h <= 960 * 960)
            by (nonlinear_arith)
            requires
                rgb.width >= 0,
                net_w <= 960,
                net_h <= 960,
        ;
        assert(3 * net_w * net_h == 3 * (net_w * net_h)) by (nonlinear_arith);
    }
    let resized = raster::resize_rgb(rgb, net_w, net_h);
    assert(resized_from(resized, *rgb));
    let input = normalize::to_nchw_normalized(&resized, net_w, net_h);
    (input, net_w, net_h)
}

/// The recognizer's input for a strip; none where the strip has no pixels.
pub fn recognizer_input(crop: &RgbImage) -> (r: Option<Tensor>)
    requires
        crop.valid(),
        crop.width * REC_IMG_HEIGHT * 16 <= isize::MAX,
    ensures
        r is None <==> crop.width == 0 || crop.height == 0,
        r matches Some(t) ==> exists|resized: RgbImage|
            {
                &&& resized.width == rec_width(crop.width, crop.height)
                &&& resized.height == REC_IMG_HEIGHT
                &&& #[trigger] resized_from(resized, *crop)
                &&& normalize::holds_image(
                    t,
                    resized,
                    resized.width,
                    resized.height,
                    normalize::Model::Recognizer,
                )
            },
{
    if crop.width == 0 || crop.height == 0 {
        return None;
    }
    let width = rec_target_width(crop.width, crop.height);
    proof {
        assert(width * REC_IMG_HEIGHT <= 320 * 48) by (nonlinear_arith)
            requires
                width <= 320,
                REC_IMG_HEIGHT == 48,
        ;
        assert(3 * width * REC_IMG_HEIGHT == 3 * (width * REC_IMG_HEIGHT)) by (nonlinear_arith);
    }
    let resized = raster::resize_rgb(crop, width, REC_IMG_HEIGHT);
    assert(resized_from(resized, *crop));
    Some(normalize::to_nchw_rec_normalized(&resized, width, REC_IMG_HEIGHT))
}

/// A strip of the recognizer's height keeps its width, up to the bound.
pub proof fn a_strip_of_full_height_keeps_its_width(cw: u32)
    requires
        1 <= cw <= REC_MAX_WIDTH,
    ensures
        rec_width(cw, REC_IMG_HEIGHT) == cw,
{
    let f = float::single_format();
    let one = rounding::pow2(149);
    single::lemma_one();
    single::lemma_small_natural(cw as nat);
    single::lemma_small_natural(48);
    single::lemma_small_natural(cw as nat * 48);
    let w = cw as nat;
    assert((w * one) * (48 * one) == one * ((w * 48) * one)) by (nonlinear_arith);
    rounding::lemma_nearest_scale((w * 48) * one, 1, 24, one);
    assert(one * 1 == one);
    assert(((w * 48) * one) * one == (48 * one) * (w * one)) by (nonlinear_arith);
    assert((48 * one) * 1 == 48 * one);
    rounding::lemma_nearest_scale(w * one, 1, 24, 48 * one);
    assert(w * one + one - 1 == w * one + (one - 1));
    vstd::arithmetic::div_mod::lemma_fundamental_div_mod_converse(
        w * one + one - 1,
        one as int,
        w as int,
        one - 1,
    );
}

/// A strip keeps its proportions: at the recognizer's height its width is the
/// least whole number that is not too small, at most the bound and at least one.
pub proof fn a_strip_keeps_its_proportions(cw: u32, ch: u32)
    requires
        1 <= cw <= 0x5_0000,
        1 <= ch <= 0x100_0000,
    ensures
        ({
            let w = rec_width(cw, ch);
            &&& 1 <= w <= 320
            &&& w < 320 ==> cw * 48 <= w * ch
            &&& w > 1 ==> (w - 1) * ch < cw * 48
        }),
{
    let f = float::single_format();
    let one = rounding::pow2(149);
    single::lemma_one();
    single::lemma_small_natural(cw as nat);
    single::lemma_small_natural(48);
    let area = cw as nat * 48;
    single::lemma_small_natural(area);
    single::lemma_small_natural(ch as nat);
    let h = ch as nat;
    assert((cw as nat * one) * (48 * one) == one * (area * one)) by (nonlinear_arith)
        requires
            area == cw as nat * 48,
    ;
    assert(one * 1 == one);
    rounding::lemma_nearest_scale(area * one, 1, 24, one);
    assert((area * one) * one == one * (area * one)) by (nonlinear_arith);
    assert(h * one == one * h) by (nonlinear_arith);
    rounding::lemma_nearest_scale(area * one, h, 24, one);
    assert(h * one > 0) by (nonlinear_arith)
        requires
            h >= 1,
            one >= 1,
    ;
    let q = rounding::nearest(area * one, h, 24);
    // The ratio has all its digits, and is not too large.
    rounding::lemma_pow2_monotone(55, 149);
    rounding::lemma_pow2_adds(32, 23);
    assert(area * one >= h * rounding::pow2(23)) by (nonlinear_arith)
        requires
            area >= 48,
            h <= 0x100_0000,
            one >= 0x1_0000_0000 * rounding::pow2(23),
            rounding::pow2(23) >= 1,
    ;
    rounding::lemma_nearest_error(area * one, h, 24);
    rounding::lemma_pow2_adds(24, 149);
    rounding::lemma_pow2_monotone(174, 277);
    assert(area * one <= h * rounding::pow2(173)) by (nonlinear_arith)
        requires
            area <= 0x100_0000,
            h >= 1,
            rounding::pow2(173) == 0x100_0000 * one,
            one >= 1,
    ;
    rounding::lemma_nearest_at_most(area * one, h, 24, 173);
    rounding::lemma_pow2_pos(173);
    let s = (q + one - 1) / (one as int);
    vstd::arithmetic::div_mod::lemma_fundamental_div_mod(q + one - 1, one as int);
    vstd::arithmetic::div_mod::lemma_div_pos_is_pos(q + one - 1, one as int);
    lemma_ceiling(q, one, area, h, s, (q + one - 1) % (one as int));
    assert(rec_scaled(cw, ch) == s);
    assert(0 * h == 0);
    assert(1 <= s);
    let w = rec_width(cw, ch);
    if s <= 320 {
        assert(w == s);
        assert(w * ch == s * h);
        assert((w - 1) * ch == (s - 1) * h);
    } else {
        assert(w == 320);
        assert((w - 1) * ch == 319 * h);
    }
}

/// What is rounded up to a width below the bound was not rounded past a whole
/// number before.
proof fn lemma_ceiling(q: nat, one: nat, area: nat, h: nat, s: int, rest: int)
    requires
        one == rounding::pow2(149),
        one >= 1,
        48 <= area <= 0xf0_0000,
        1 <= h <= 0x100_0000,
        q == rounding::nearest(area * one, h, 24),
        (q * h) * 0x100_0000 <= (area * one) * 0x100_0001,
        (q * h) * 0x100_0000 >= (area * one) * 0xff_ffff,
        q + one - 1 == one * s + rest,
        0 <= rest < one,
        s >= 0,
    ensures
        s <= u32::MAX,
        s < 320 ==> area <= s * h,
        1 < s <= 320 ==> (s - 1) * h < area,
        s > 320 ==> 319 * h < area,
{
    let t: nat = 0x100_0000;
    let e = area * one;
    let qh = q * h;
    assert(one * s <= q + one - 1 && one * s >= q);
    assert((qh - e) * t <= e && (e - qh) * t <= e) by (nonlinear_arith)
        requires
            qh * t <= e * (t + 1),
            qh * t >= e * (t - 1),
    ;
    if area > s * h {
        // One step of the ratio is more than the error.
        assert(qh <= (one * s) * h) by (nonlinear_arith)
            requires
                one * s >= q,
                qh == q * h,
        ;
        assert((one * s) * h <= (area - 1) * one) by (nonlinear_arith)
            requires
                area >= s * h + 1,
        ;
        assert((area - 1) * one == e - one) by (nonlinear_arith)
            requires
                e == area * one,
        ;
        assert(e >= one * t) by (nonlinear_arith)
            requires
                (e - qh) * t <= e,
                qh <= e - one,
                t >= 1,
        ;
        assert(area >= t) by (nonlinear_arith)
            requires
                e >= one * t,
                e == area * one,
                one >= 1,
        ;
    }
    if s > 1 {
        let k: nat = if s > 320 {
            319
        } else {
            (s - 1) as nat
        };
        if k * h >= area {
            // A whole number is not passed.
            assert(area * one <= h * (k * one)) by (nonlinear_arith)
                requires
                    k * h >= area,
            ;
            rounding::lemma_nearest_monotone(area * one, h * (k * one), h, 24);
            assert(h * 1 == h);
            rounding::lemma_nearest_scale(k * one, 1, 24, h);
            single::lemma_one();
            arithmetic::lemma_exact(k, 149, 24);
            assert(q >= one * (s - 1) + 1) by (nonlinear_arith)
                requires
                    q + one - 1 == one * s + rest,
                    rest >= 0,
            ;
            assert(one * (s - 1) >= k * one) by (nonlinear_arith)
                requires
                    s - 1 >= k,
            ;
        }
    }
    assert(qh <= 2 * e) by (nonlinear_arith)
        requires
            (qh - e) * t <= e,
            t >= 1,
    ;
    assert(q <= qh) by (nonlinear_arith)
        requires
            qh == q * h,
            h >= 1,
    ;
    assert(s <= 0x1e0_0001) by (nonlinear_arith)
        requires
            one * s <= q + one - 1,
            q <= 2 * e,
            e == area * one,
            area <= 0xf0_0000,
            one >= 1,
    ;
}

/// What a model is given is the whole image, brought to its size by the triangle
/// filter.
pub proof fn a_model_sees_the_whole_image(resized: RgbImage, img: RgbImage)
    requires
        resized_from(resized, img),
    ensures
        resized.valid(),
        resized.data@ == raster::triangle_resized(
            img.data@,
            img.width,
            img.height,
            resized.width,
            resized.height,
        ),
{
}

} // verus!
