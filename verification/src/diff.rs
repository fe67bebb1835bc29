//! Comparing two images.
use vstd::prelude::*;
use crate::arithmetic;
use crate::bits;
use crate::float;
use crate::raster;
use crate::rounding;
use crate::float::Float;
use crate::raster::{Filter, RgbaImage};

verus! {

pub open spec fn distance(a: u8, b: u8) -> int {
    if a >= b {
        a - b
    } else {
        b - a
    }
}

/// A byte of the second image as the first is held against it: from the same
/// place, or from the nearest pixel where the sizes differ.
pub open spec fn counterpart(a: RgbaImage, b: RgbaImage, x: int, y: int, c: int) -> u8 {
    if a.width == b.width && a.height == b.height {
        b.byte(x, y, c)
    } else {
        b.byte(
            raster::nearest_source(x, a.width, b.width),
            raster::nearest_source(y, a.height, b.height),
            c,
        )
    }
}

/// The pixel differs by more than the threshold in red, green or blue.
pub open spec fn differs(a: RgbaImage, b: RgbaImage, threshold: u8, x: int, y: int) -> bool {
    ||| distance(a.byte(x, y, 0), counterpart(a, b, x, y, 0)) > threshold
    ||| distance(a.byte(x, y, 1), counterpart(a, b, x, y, 1)) > threshold
    ||| distance(a.byte(x, y, 2), counterpart(a, b, x, y, 2)) > threshold
}

/// How many of the first `n` pixels differ, counted row after row.
pub open spec fn count_differing(a: RgbaImage, b: RgbaImage, threshold: u8, n: nat) -> nat
    decreases n,
{
    if n == 0 {
        0
    } else {
        let i = n - 1;
        let before = count_differing(a, b, threshold, i as nat);
        if differs(a, b, threshold, i % (a.width as int), i / (a.width as int)) {
            before + 1
        } else {
            before
        }
    }
}

/// The share of `count` in `total`, in percent.
pub open spec fn percentage(count: nat, total: nat) -> float::Value {
    let f = float::double_format();
    float::product(
        f,
        float::quotient(f, float::natural(f, count), float::natural(f, total)),
        float::natural(f, 100),
    )
}

/// How many pixels differ.
pub open spec fn differing_pixels(a: RgbaImage, b: RgbaImage, threshold: u8) -> nat {
    count_differing(a, b, threshold, (a.width * a.height) as nat)
}

/// The image `b` has a pixel to hold against each of `a`, within what can be
/// held in memory.
pub open spec fn comparable(a: RgbaImage, b: RgbaImage) -> bool {
    a.width == b.width && a.height == b.height || {
        &&& b.full()
        &&& b.width * a.height * 16 <= isize::MAX
        &&& a.width * a.height * 4 <= isize::MAX
    }
}

fn apart(a: u8, b: u8, threshold: u8) -> (r: bool)
    ensures
        r == (distance(a, b) > threshold),
{
    if a >= b {
        a - b > threshold
    } else {
        b - a > threshold
    }
}

/// How many pixels of two images of the same size differ.
fn count_in(a: &RgbaImage, b: &RgbaImage, threshold: u8) -> (r: u64)
    requires
        a.valid(),
        b.valid(),
        a.width == b.width,
        a.height == b.height,
    ensures
        r == differing_pixels(*a, *b, threshold),
        r <= a.width * a.height,
{
    let mut count: u64 = 0;
    let mut y: u32 = 0;
    let ghost w = a.width as int;
    while y < a.height
        invariant
            a.valid(),
            b.valid(),
            a.width == b.width,
            a.height == b.height,
            w == a.width,
            y <= a.height,
            count == count_differing(*a, *b, threshold, (y * w) as nat),
            count <= y * w,
        decreases a.height - y,
    {
        let mut x: u32 = 0;
        while x < a.width
            invariant
                a.valid(),
                b.valid(),
                a.width == b.width,
                a.height == b.height,
                w == a.width,
                y < a.height,
                x <= a.width,
                count == count_differing(*a, *b, threshold, (y * w + x) as nat),
                count <= y * w + x,
            decreases a.width - x,
        {
            proof {
                raster::lemma_index(w, a.height as int, 4, x as int, y as int, 0);
                vstd::arithmetic::div_mod::lemma_fundamental_div_mod_converse(
                    y * w + x,
                    w,
                    y as int,
                    x as int,
                );
                assert(w * a.height <= 0xffff_ffff * 0xffff_ffff) by (nonlinear_arith)
                    requires
                        0 <= w <= 0xffff_ffff,
                        0 <= a.height <= 0xffff_ffff,
                ;
            }
            if apart(a.get(x, y, 0), b.get(x, y, 0), threshold) || apart(
                a.get(x, y, 1),
                b.get(x, y, 1),
                threshold,
            ) || apart(a.get(x, y, 2), b.get(x, y, 2), threshold) {
                count = count + 1;
            }
            x = x + 1;
        }
        assert((y + 1) * w == y * w + w) by (nonlinear_arith);
        y = y + 1;
    }
    proof {
        vstd::arithmetic::mul::lemma_mul_is_commutative(a.height as int, w);
    }
    count
}

/// The share of pixels that differ by more than the threshold, in percent, as
/// the encoding of a 64-bit number, and the size at which the images were
/// compared, which is that of the first.
pub fn diff_images(img_a: &RgbaImage, img_b: &RgbaImage, threshold: u8) -> (r: (u64, u32, u32))
    requires
        img_a.valid(),
        img_b.valid(),
        comparable(*img_a, *img_b),
    ensures
        bits::double_value(r.0) == percentage(
            differing_pixels(*img_a, *img_b, threshold),
            (img_a.width * img_a.height) as nat,
        ),
        r.1 == img_a.width,
        r.2 == img_a.height,
{
    let f = float::double();
    let count: u64 = if img_a.width == img_b.width && img_a.height == img_b.height {
        count_in(img_a, img_b, threshold)
    } else {
        let sized = raster::resize_rgba(img_b, img_a.width, img_a.height, Filter::Nearest);
        let n = count_in(img_a, &sized, threshold);
        proof {
            lemma_counterpart(*img_a, *img_b, sized, threshold, (img_a.width * img_a.height) as nat);
        }
        n
    };
    proof {
        assert(0 <= img_a.width * img_a.height <= 0xffff_ffff * 0xffff_ffff) by (nonlinear_arith)
            requires
                0 <= img_a.width <= 0xffff_ffff,
                0 <= img_a.height <= 0xffff_ffff,
        ;
    }
    let total: u64 = img_a.width as u64 * img_a.height as u64;
    let share = Float::from_natural(f, count).over(f, Float::from_natural(f, total));
    let percent = share.times(f, Float::from_natural(f, 100));
    proof {
        bits::double_encoding_reads_back(percent);
    }
    (bits::double_to_bits(percent), img_a.width, img_a.height)
}

/// Holding an image against another and against its copy at the same size
/// comes to the same.
proof fn lemma_counterpart(a: RgbaImage, b: RgbaImage, sized: RgbaImage, threshold: u8, n: nat)
    requires
        !(a.width == b.width && a.height == b.height),
        sized.width == a.width,
        sized.height == a.height,
        n <= a.width * a.height,
        forall|x: int, y: int, c: int|
            0 <= x < a.width && 0 <= y < a.height && 0 <= c < 4 ==> #[trigger] sized.byte(x, y, c)
                == b.byte(
                raster::nearest_source(x, a.width, b.width),
                raster::nearest_source(y, a.height, b.height),
                c,
            ),
    ensures
        count_differing(a, sized, threshold, n) == count_differing(a, b, threshold, n),
    decreases n,
{
    if n > 0 {
        lemma_counterpart(a, b, sized, threshold, (n - 1) as nat);
        let i = n - 1;
        lemma_pixel(a, i);
    }
}

/// The pixel that comes at place `i`, row after row.
proof fn lemma_pixel(a: RgbaImage, i: int)
    requires
        0 <= i < a.width * a.height,
    ensures
        0 <= i % (a.width as int) < a.width,
        0 <= i / (a.width as int) < a.height,
{
    let w = a.width as int;
    assert(w > 0) by (nonlinear_arith)
        requires
            0 <= i < w * a.height,
            w >= 0,
    ;
    vstd::arithmetic::div_mod::lemma_fundamental_div_mod(i, w);
    let y = i / w;
    assert(0 <= y < a.height) by (nonlinear_arith)
        requires
            i == w * y + i % w,
            0 <= i % w < w,
            0 <= i < w * a.height,
    ;
}

/// An image held against itself shows no difference, at any threshold.
pub proof fn an_image_does_not_differ_from_itself(a: RgbaImage, threshold: u8)
    requires
        a.valid(),
        a.full(),
    ensures
        differing_pixels(a, a, threshold) == 0,
        percentage(differing_pixels(a, a, threshold), (a.width * a.height) as nat)
            == float::Value::Finite(false, 0),
{
    lemma_no_difference(a, threshold, (a.width * a.height) as nat);
    let f = float::double_format();
    assert(0 < a.width * a.height <= 0xffff_ffff * 0xffff_ffff) by (nonlinear_arith)
        requires
            0 < a.width <= 0xffff_ffff,
            0 < a.height <= 0xffff_ffff,
    ;
    lemma_none_of(f, (a.width * a.height) as nat);
}

proof fn lemma_no_difference(a: RgbaImage, threshold: u8, n: nat)
    ensures
        count_differing(a, a, threshold, n) == 0,
    decreases n,
{
    if n > 0 {
        lemma_no_difference(a, threshold, (n - 1) as nat);
    }
}

/// None of any number is no share at all.
proof fn lemma_none_of(f: float::Format, total: nat)
    requires
        f == float::double_format(),
        0 < total <= 0xffff_ffff * 0xffff_ffff,
    ensures
        percentage(0, total) == float::Value::Finite(false, 0),
{
    let one = rounding::pow2(f.one());
    rounding::lemma_pow2_pos(f.one());
    rounding::lemma_pow2_pos(f.digits());
    rounding::lemma_pow2_pos(f.top as nat);
    arithmetic::lemma_natural_exact(f, 0);
    assert(0 * one == 0);
    float::lemma_power_120();
    rounding::lemma_pow2_monotone(7, 53);
    reveal_with_fuel(rounding::pow2, 8);
    arithmetic::lemma_natural_exact(f, 100);
    let t = rounding::nearest(total * one, 1, f.digits());
    // The total, however rounded, is finite and not zero.
    arithmetic::lemma_natural_range(total);
    lemma_zero_over(f, t);
    lemma_zero_over(f, one);
    assert(0 * (100 * one) == 0);
}

proof fn lemma_zero_over(f: float::Format, d: nat)
    requires
        f.valid(),
        d > 0,
    ensures
        rounding::nearest(0, d, f.digits()) == 0,
{
    arithmetic::lemma_natural_exact(f, 0);
    rounding::lemma_pow2_pos(f.digits());
    assert(0 * rounding::pow2(f.one()) == 0);
    assert(d * 0 == 0);
    assert(d * 1 == d);
    rounding::lemma_nearest_scale(0, 1, f.digits(), d);
    rounding::lemma_pow2_pos(f.one());
    assert(rounding::nearest(0, 1, f.digits()) == 0);
}

/// Of two images of the same size, it does not matter which is held against
/// which.
pub proof fn difference_is_symmetric(a: RgbaImage, b: RgbaImage, threshold: u8)
    requires
        a.width == b.width,
        a.height == b.height,
    ensures
        differing_pixels(a, b, threshold) == differing_pixels(b, a, threshold),
{
    lemma_symmetric(a, b, threshold, (a.width * a.height) as nat);
}

proof fn lemma_symmetric(a: RgbaImage, b: RgbaImage, threshold: u8, n: nat)
    requires
        a.width == b.width,
        a.height == b.height,
    ensures
        count_differing(a, b, threshold, n) == count_differing(b, a, threshold, n),
    decreases n,
{
    if n > 0 {
        lemma_symmetric(a, b, threshold, (n - 1) as nat);
    }
}

/// A higher threshold never counts more pixels as different.
pub proof fn a_higher_threshold_counts_no_more(
    a: RgbaImage,
    b: RgbaImage,
    low: u8,
    high: u8,
)
    requires
        low <= high,
    ensures
        differing_pixels(a, b, high) <= differing_pixels(a, b, low),
{
    lemma_threshold(a, b, low, high, (a.width * a.height) as nat);
}

proof fn lemma_threshold(a: RgbaImage, b: RgbaImage, low: u8, high: u8, n: nat)
    requires
        low <= high,
    ensures
        count_differing(a, b, high, n) <= count_differing(a, b, low, n),
    decreases n,
{
    if n > 0 {
        lemma_threshold(a, b, low, high, (n - 1) as nat);
    }
}

/// No more pixels differ than there are.
proof fn lemma_count_bounded(a: RgbaImage, b: RgbaImage, threshold: u8, n: nat)
    ensures
        count_differing(a, b, threshold, n) <= n,
    decreases n,
{
    if n > 0 {
        lemma_count_bounded(a, b, threshold, (n - 1) as nat);
    }
}

/// The share of pixels that differ lies between zero and a hundred percent.
pub proof fn a_difference_lies_between_nothing_and_everything(
    a: RgbaImage,
    b: RgbaImage,
    threshold: u8,
)
    requires
        a.full(),
    ensures
        percentage(
            differing_pixels(a, b, threshold),
            (a.width * a.height) as nat,
        ) matches float::Value::Finite(negative, units) && !negative && units <= 100
            * rounding::pow2(float::double_format().one()),
{
    let total = (a.width * a.height) as nat;
    assert(0 < a.width * a.height <= 0xffff_ffff * 0xffff_ffff) by (nonlinear_arith)
        requires
            0 < a.width <= 0xffff_ffff,
            0 < a.height <= 0xffff_ffff,
    ;
    lemma_count_bounded(a, b, threshold, total);
    lemma_percentage(differing_pixels(a, b, threshold), total);
}

/// Where every pixel differs the difference is a hundred percent.
pub proof fn images_that_differ_everywhere_differ_wholly(a: RgbaImage, b: RgbaImage, threshold: u8)
    requires
        a.full(),
        forall|x: int, y: int|
            0 <= x < a.width && 0 <= y < a.height ==> #[trigger] differs(a, b, threshold, x, y),
    ensures
        percentage(differing_pixels(a, b, threshold), (a.width * a.height) as nat)
            == float::natural(float::double_format(), 100),
{
    let total = (a.width * a.height) as nat;
    assert(0 < a.width * a.height <= 0xffff_ffff * 0xffff_ffff) by (nonlinear_arith)
        requires
            0 < a.width <= 0xffff_ffff,
            0 < a.height <= 0xffff_ffff,
    ;
    lemma_count_all(a, b, threshold, total);
    lemma_whole(total);
}

proof fn lemma_count_all(a: RgbaImage, b: RgbaImage, threshold: u8, n: nat)
    requires
        n <= a.width * a.height,
        forall|x: int, y: int|
            0 <= x < a.width && 0 <= y < a.height ==> #[trigger] differs(a, b, threshold, x, y),
    ensures
        count_differing(a, b, threshold, n) == n,
    decreases n,
{
    if n > 0 {
        lemma_count_all(a, b, threshold, (n - 1) as nat);
        lemma_pixel(a, n - 1);
    }
}

proof fn lemma_whole(total: nat)
    requires
        0 < total <= 0xffff_ffff * 0xffff_ffff,
    ensures
        percentage(total, total) == float::natural(float::double_format(), 100),
{
    let f = float::double_format();
    let one = rounding::pow2(f.one());
    let t = rounding::nearest(total * one, 1, f.digits());
    rounding::lemma_pow2_pos(f.one());
    float::lemma_power_120();
    arithmetic::lemma_natural_range(total);
    arithmetic::lemma_natural_exact(f, 100);
    arithmetic::lemma_natural_exact(f, 1);
    assert(t * 1 == t);
    assert(1 * one == one);
    rounding::lemma_nearest_scale(one, 1, f.digits(), t);
    rounding::lemma_nearest_scale(100 * one, 1, f.digits(), one);
    assert(one * (100 * one) == (100 * one) * one) by (nonlinear_arith);
    assert(one * 1 == one);
    rounding::lemma_pow2_monotone(f.one(), f.top as nat);
}

proof fn lemma_percentage(count: nat, total: nat)
    requires
        count <= total,
        0 < total <= 0xffff_ffff * 0xffff_ffff,
    ensures
        percentage(count, total) matches float::Value::Finite(negative, units) && !negative
            && units <= 100 * rounding::pow2(float::double_format().one()),
{
    let f = float::double_format();
    let p = f.digits();
    let one = rounding::pow2(f.one());
    rounding::lemma_pow2_pos(f.one());
    float::lemma_power_120();
    arithmetic::lemma_natural_range(count);
    arithmetic::lemma_natural_range(total);
    arithmetic::lemma_natural_exact(f, 100);
    let c = rounding::nearest(count * one, 1, p);
    let t = rounding::nearest(total * one, 1, p);
    assert(count * one <= total * one) by (nonlinear_arith)
        requires
            count <= total,
    ;
    rounding::lemma_nearest_monotone(count * one, total * one, 1, p);
    rounding::lemma_share_at_most_one(c, t, one, p, f.one());
    let share = rounding::nearest(c * one, t, p);
    rounding::lemma_pow2_monotone((f.one() + 1) as nat, f.top as nat);
    assert(share < rounding::pow2(f.top as nat));
    assert(share * (100 * one) <= one * (100 * one)) by (nonlinear_arith)
        requires
            share <= one,
    ;
    rounding::lemma_nearest_monotone(share * (100 * one), one * (100 * one), one, p);
    rounding::lemma_nearest_scale(100 * one, 1, p, one);
    assert(one * 1 == one);
    rounding::lemma_pow2_adds(7, f.one());
    reveal_with_fuel(rounding::pow2, 8);
    rounding::lemma_pow2_monotone(7 + f.one(), f.top as nat);
    assert(rounding::nearest(100 * one, 1, p) == 100 * one);
}

/// The colours of two pixels are more than the threshold apart, in red, green or
/// blue.
pub open spec fn colours_apart(
    a: RgbaImage,
    b: RgbaImage,
    threshold: u8,
    x: int,
    y: int,
) -> bool {
    exists|c: int|
        0 <= c < 3 && (#[trigger] a.byte(x, y, c) - b.byte(x, y, c) > threshold || b.byte(x, y, c)
            - a.byte(x, y, c) > threshold)
}

/// Two images of one size have the same colours but for one pixel.
pub open spec fn same_but_for(b: RgbaImage, c: RgbaImage, x: int, y: int) -> bool {
    &&& b.width == c.width
    &&& b.height == c.height
    &&& forall|i: int, j: int, k: int|
        0 <= i < b.width && 0 <= j < b.height && 0 <= k < 3 && (i != x || j != y)
            ==> #[trigger] b.byte(i, j, k) == c.byte(i, j, k)
}

proof fn lemma_differs(a: RgbaImage, b: RgbaImage, threshold: u8, x: int, y: int)
    requires
        a.width == b.width,
        a.height == b.height,
    ensures
        differs(a, b, threshold, x, y) == colours_apart(a, b, threshold, x, y),
{
    if differs(a, b, threshold, x, y) {
        let c: int = if distance(a.byte(x, y, 0), b.byte(x, y, 0)) > threshold {
            0
        } else if distance(a.byte(x, y, 1), b.byte(x, y, 1)) > threshold {
            1
        } else {
            2
        };
        assert(a.byte(x, y, c) - b.byte(x, y, c) > threshold || b.byte(x, y, c) - a.byte(x, y, c)
            > threshold);
    }
}

/// Every pixel counts for one: where a pixel of the second image is painted
/// over, one more differs if its new colour is too far from that of the first
/// image and its old colour was not, one less if it is the other way round, and
/// as many otherwise.
pub proof fn every_pixel_counts_for_one(
    a: RgbaImage,
    b: RgbaImage,
    painted: RgbaImage,
    threshold: u8,
    x: int,
    y: int,
)
    requires
        a.width == b.width,
        a.height == b.height,
        0 <= x < a.width,
        0 <= y < a.height,
        same_but_for(b, painted, x, y),
    ensures
        differing_pixels(a, painted, threshold) - differing_pixels(a, b, threshold) == (
        if colours_apart(a, painted, threshold, x, y) {
            1int
        } else {
            0
        }) - (if colours_apart(a, b, threshold, x, y) {
            1int
        } else {
            0
        }),
{
    let n = (a.width * a.height) as nat;
    let w = a.width as int;
    let at = y * w + x;
    assert(0 <= at < w * a.height) by (nonlinear_arith)
        requires
            0 <= x < w,
            0 <= y < a.height,
            at == y * w + x,
    ;
    vstd::arithmetic::div_mod::lemma_fundamental_div_mod_converse(at, w, y, x);
    lemma_differs(a, b, threshold, x, y);
    lemma_differs(a, painted, threshold, x, y);
    lemma_painted(a, b, painted, threshold, x, y, n);
}

proof fn lemma_painted(
    a: RgbaImage,
    b: RgbaImage,
    painted: RgbaImage,
    threshold: u8,
    x: int,
    y: int,
    n: nat,
)
    requires
        a.width == b.width,
        a.height == b.height,
        0 <= x < a.width,
        0 <= y < a.height,
        same_but_for(b, painted, x, y),
        n <= a.width * a.height,
    ensures
        count_differing(a, painted, threshold, n) - count_differing(a, b, threshold, n) == (if n
            <= y * a.width + x {
            0int
        } else {
            (if differs(a, painted, threshold, x, y) {
                1int
            } else {
                0
            }) - (if differs(a, b, threshold, x, y) {
                1int
            } else {
                0
            })
        }),
    decreases n,
{
    if n > 0 {
        let i = n - 1;
        let w = a.width as int;
        lemma_painted(a, b, painted, threshold, x, y, i as nat);
        lemma_pixel(a, i);
        let (u, v) = (i % w, i / w);
        vstd::arithmetic::div_mod::lemma_fundamental_div_mod(i, w);
        vstd::arithmetic::mul::lemma_mul_is_commutative(w, v);
        if u != x || v != y {
            if i == y * w + x {
                vstd::arithmetic::div_mod::lemma_fundamental_div_mod_converse(i, w, y, x);
            }
            assert(b.byte(u, v, 0) == painted.byte(u, v, 0));
            assert(b.byte(u, v, 1) == painted.byte(u, v, 1));
            assert(b.byte(u, v, 2) == painted.byte(u, v, 2));
        }
    }
}

/// A percentage is a hundred times the share, to within the rounding of three
/// operations: it is off by no more than its `2^53`th part times three.
pub proof fn a_percentage_is_a_hundred_times_the_share(count: nat, total: nat) -> (p: nat)
    requires
        count <= total,
        0 < total <= 0x20_0000_0000_0000,
    ensures
        percentage(count, total) == float::Value::Finite(false, p),
        ({
            let one = rounding::pow2(float::double_format().one());
            let exact = 100 * count * one;
            &&& (p * total - exact) * 0x20_0000_0000_0000 <= 3 * exact
            &&& (exact - p * total) * 0x20_0000_0000_0000 <= 3 * exact
        }),
{
    let f = float::double_format();
    let one = rounding::pow2(f.one());
    let digits = f.digits();
    let big = rounding::pow2(digits);
    lemma_percentage(count, total);
    rounding::lemma_pow2_pos(f.one());
    float::lemma_power_120();
    arithmetic::lemma_natural_exact(f, count);
    arithmetic::lemma_natural_exact(f, total);
    arithmetic::lemma_natural_exact(f, 100);
    let q = rounding::nearest(count * one, total, digits);
    assert((count * one) * one == one * (count * one)) by (nonlinear_arith);
    assert(total * one == one * total) by (nonlinear_arith);
    rounding::lemma_nearest_scale(count * one, total, digits, one);
    let p = rounding::nearest(100 * q, 1, digits);
    assert(q * (100 * one) == one * (100 * q)) by (nonlinear_arith);
    assert(one * 1 == one);
    rounding::lemma_nearest_scale(100 * q, 1, digits, one);
    assert(percentage(count, total) == float::Value::Finite(false, p)) by {
        rounding::lemma_share_at_most_one(count, total, one, digits, f.one());
        rounding::lemma_pow2_monotone((f.one() + 1) as nat, f.top as nat);
    }
    if count == 0 {
        assert(0 * one == 0);
        lemma_nearest_nothing(total, digits);
        assert(q == 0);
        lemma_nearest_nothing(1, digits);
        assert(p * total == 0) by (nonlinear_arith)
            requires
                p == 0,
        ;
        assert(100 * count * one == 0) by (nonlinear_arith)
            requires
                count == 0,
        ;
    } else {
        rounding::lemma_pow2_adds(53, 52);
        rounding::lemma_pow2_monotone(105, f.one());
        assert(count * one >= total * rounding::pow2(52)) by (nonlinear_arith)
            requires
                count >= 1,
                one >= big * rounding::pow2(52),
                total <= big,
        ;
        rounding::lemma_nearest_error(count * one, total, digits);
        let e = count * one;
        assert(e >= total * rounding::pow2(52) && rounding::pow2(52) >= 1) by {
            rounding::lemma_pow2_pos(52);
        }
        assert(big == 2 * rounding::pow2(52));
        lemma_share_is_large(q, total, e, count, one, big);
        rounding::lemma_nearest_error(100 * q, 1, digits);
        lemma_two_errors(p, q, total, e, big);
        assert(100 * count * one == 100 * e) by (nonlinear_arith)
            requires
                e == count * one,
        ;
    }
    p
}

proof fn lemma_nearest_nothing(d: nat, p: nat)
    requires
        d > 0,
        p > 0,
    ensures
        rounding::nearest(0, d, p) == 0,
{
    rounding::lemma_pow2_pos(p);
    assert(d * rounding::pow2(p) > 0) by (nonlinear_arith)
        requires
            d > 0,
            rounding::pow2(p) >= 1,
    ;
    assert(rounding::binade(0, d, p) == 0);
    rounding::lemma_pow2_zero(d);
    rounding::lemma_half_even_from(0, d, 0, 0);
}

/// A share that is not nothing has all the digits of the format.
proof fn lemma_share_is_large(q: nat, total: nat, e: nat, count: nat, one: nat, big: nat)
    requires
        (q * total) * big >= e * (big - 1),
        e == count * one,
        count >= 1,
        0 < total <= big,
        one >= big * rounding::pow2(52),
        big == 2 * rounding::pow2(52),
        rounding::pow2(52) >= 1,
    ensures
        100 * q >= 1 * rounding::pow2(52),
{
    let half = rounding::pow2(52);
    assert(e >= big * half) by (nonlinear_arith)
        requires
            e == count * one,
            count >= 1,
            one >= big * half,
    ;
    assert(2 * q >= half) by (nonlinear_arith)
        requires
            (q * total) * big >= e * (big - 1),
            e >= big * half,
            0 < total <= big,
            big == 2 * half,
            half >= 1,
    ;
}

proof fn lemma_two_errors(p: nat, q: nat, total: nat, e: nat, big: nat)
    requires
        (q * total) * big <= e * (big + 1),
        (q * total) * big >= e * (big - 1),
        (p * 1) * big <= (100 * q) * (big + 1),
        (p * 1) * big >= (100 * q) * (big - 1),
        big == 0x20_0000_0000_0000,
    ensures
        (p * total - 100 * e) * big <= 3 * (100 * e),
        (100 * e - p * total) * big <= 3 * (100 * e),
{
    let pt = p * total;
    let qt = q * total;
    assert(pt * big <= (100 * qt) * (big + 1) && pt * big >= (100 * qt) * (big - 1))
        by (nonlinear_arith)
        requires
            pt == p * total,
            qt == q * total,
            (p * 1) * big <= (100 * q) * (big + 1),
            (p * 1) * big >= (100 * q) * (big - 1),
            big >= 1,
            total >= 0,
    ;
    let up = 100 * e;
    let qh = 100 * qt;
    assert(qh * big <= up * (big + 1) && qh * big >= up * (big - 1)) by (nonlinear_arith)
        requires
            qh == 100 * qt,
            up == 100 * e,
            qt * big <= e * (big + 1),
            qt * big >= e * (big - 1),
    ;
    // From here on everything is linear in what is left but for one factor.
    assert((pt - up) * big <= 3 * up) by {
        assert(pt * big <= qh * big + qh) by (nonlinear_arith)
            requires
                pt * big <= qh * (big + 1),
        ;
        assert(qh * big <= up * big + up) by (nonlinear_arith)
            requires
                qh * big <= up * (big + 1),
        ;
        assert(qh <= 2 * up) by (nonlinear_arith)
            requires
                qh * big <= up * big + up,
                big >= 1,
                up >= 0,
        ;
        assert((pt - up) * big == pt * big - up * big) by (nonlinear_arith);
    }
    assert((up - pt) * big <= 3 * up) by {
        assert(pt * big >= qh * big - qh) by (nonlinear_arith)
            requires
                pt * big >= qh * (big - 1),
        ;
        assert(qh * big >= up * big - up) by (nonlinear_arith)
            requires
                qh * big >= up * (big - 1),
        ;
        assert(qh <= 2 * up) by (nonlinear_arith)
            requires
                qh * big <= up * (big + 1),
                big >= 1,
                up >= 0,
        ;
        assert((up - pt) * big == up * big - pt * big) by (nonlinear_arith);
    }
}

/// An image of another size is held against the first as if it were brought to
/// its size, each pixel taken from the nearest.
pub proof fn an_image_of_another_size_is_held_against_its_nearest_pixels(
    a: RgbaImage,
    b: RgbaImage,
    sized: RgbaImage,
    threshold: u8,
)
    requires
        !(a.width == b.width && a.height == b.height),
        sized.width == a.width,
        sized.height == a.height,
        forall|x: int, y: int, c: int|
            0 <= x < a.width && 0 <= y < a.height && 0 <= c < 4 ==> #[trigger] sized.byte(x, y, c)
                == b.byte(
                raster::nearest_source(x, a.width, b.width),
                raster::nearest_source(y, a.height, b.height),
                c,
            ),
    ensures
        differing_pixels(a, b, threshold) == differing_pixels(a, sized, threshold),
{
    lemma_counterpart(a, b, sized, threshold, (a.width * a.height) as nat);
}

} // verus!
