//! From the detector's probability map to boxes of text.
use vstd::prelude::*;
use crate::bits;
use crate::detect;
use crate::float;
use crate::flood;
use crate::rounding;
use crate::single;
use crate::float::Float;
use crate::flood::{Cell, Mask};
use crate::tensor::Tensor;

verus! {

/// A box of text in the source image, in pixels.
#[derive(Clone, Copy, Debug, PartialEq, Eq)]
pub struct DetBox {
    pub x: u32,
    pub y: u32,
    pub w: u32,
    pub h: u32,
}

/// The columns and rows that a region reaches, first and last.
#[derive(Clone, Copy)]
pub struct Span {
    pub left: usize,
    pub top: usize,
    pub right: usize,
    pub bottom: usize,
}

/// The probability from which a place counts as text.
pub open spec fn det_bin_thresh() -> float::Value {
    float::ratio(float::single_format(), 3, 10)
}

/// The mean probability above which a region counts as text.
pub open spec fn det_box_thresh() -> float::Value {
    float::ratio(float::single_format(), 5, 10)
}

/// The places of the map, of this size, that count as text.
pub open spec fn text_mask(prob: Tensor, width: usize, height: usize) -> flood::Grid {
    flood::Grid {
        width: width,
        height: height,
        set: Seq::new(
            (width * height) as nat,
            |i: int|
                !float::less(
                    bits::single_value(prob.at(i / width as int, i % width as int)),
                    det_bin_thresh(),
                ),
        ),
    }
}

/// The sum of the probabilities of a region, taken up in order.
pub open spec fn total(prob: Tensor, cells: Seq<Cell>) -> float::Value
    decreases cells.len(),
{
    if cells.len() == 0 {
        float::Value::Finite(false, 0)
    } else {
        float::sum(
            float::single_format(),
            total(prob, cells.drop_last()),
            bits::single_value(prob.at(cells.last().0 as int, cells.last().1 as int)),
        )
    }
}

/// The mean probability of a region.
pub open spec fn mean(prob: Tensor, cells: Seq<Cell>) -> float::Value {
    float::quotient(
        float::single_format(),
        total(prob, cells),
        float::natural(float::single_format(), cells.len()),
    )
}

/// The columns and rows that a region reaches.
pub open spec fn span(cells: Seq<Cell>) -> Span
    decreases cells.len(),
{
    if cells.len() <= 1 {
        let c = cells[0];
        Span { left: c.1, top: c.0, right: c.1, bottom: c.0 }
    } else {
        let s = span(cells.drop_last());
        let c = cells.last();
        Span {
            left: if c.1 < s.left {
                c.1
            } else {
                s.left
            },
            top: if c.0 < s.top {
                c.0
            } else {
                s.top
            },
            right: if c.1 > s.right {
                c.1
            } else {
                s.right
            },
            bottom: if c.0 > s.bottom {
                c.0
            } else {
                s.bottom
            },
        }
    }
}

/// Where a side of a box starts in the source image: the first place of the
/// map, scaled and rounded down, less one pixel.
pub open spec fn side_start(first: usize, src: u32, net: u32) -> int {
    let f = float::single_format();
    let scale = float::quotient(f, float::natural(f, src as nat), float::natural(f, net as nat));
    let start = float::floor_u32(f, float::product(f, float::natural(f, first as nat), scale));
    if start > 0 {
        start - 1
    } else {
        0
    }
}

/// Where a side of a box ends in the source image: the end of the last place
/// of the map, scaled and rounded up, and one pixel more, but no further than
/// the image.
pub open spec fn side_end(last: usize, src: u32, net: u32) -> int {
    let f = float::single_format();
    let scale = float::quotient(f, float::natural(f, src as nat), float::natural(f, net as nat));
    let end = float::ceil_u32(f, float::product(f, float::natural(f, last as nat + 1), scale));
    let bound = float::floor_u32(f, float::natural(f, src as nat));
    let kept = if end < bound {
        end
    } else {
        bound
    };
    if kept + 1 < src {
        kept + 1
    } else {
        src as int
    }
}

/// The length of a side, at least one pixel.
pub open spec fn side_length(start: int, end: int) -> int {
    if end - start >= 1 {
        end - start
    } else {
        1
    }
}

/// The box of a region in the source image.
pub open spec fn scaled_box(s: Span, net_w: u32, net_h: u32, src_w: u32, src_h: u32) -> DetBox {
    let x = side_start(s.left, src_w, net_w);
    let y = side_start(s.top, src_h, net_h);
    DetBox {
        x: x as u32,
        y: y as u32,
        w: side_length(x, side_end(s.right, src_w, net_w)) as u32,
        h: side_length(y, side_end(s.bottom, src_h, net_h)) as u32,
    }
}

/// A region is kept if its mean probability exceeds the threshold and it is no
/// speck.
pub open spec fn keeps(prob: Tensor, cells: Seq<Cell>) -> bool {
    let s = span(cells);
    &&& float::less(det_box_thresh(), mean(prob, cells))
    &&& s.right - s.left >= 2
    &&& s.bottom - s.top >= 2
}

/// The boxes of the regions that are kept, in order.
pub open spec fn boxes_of(
    prob: Tensor,
    regions: Seq<Seq<Cell>>,
    net_w: u32,
    net_h: u32,
    src_w: u32,
    src_h: u32,
) -> Seq<DetBox>
    decreases regions.len(),
{
    if regions.len() == 0 {
        seq![]
    } else {
        let before = boxes_of(prob, regions.drop_last(), net_w, net_h, src_w, src_h);
        if keeps(prob, regions.last()) {
            before.push(scaled_box(span(regions.last()), net_w, net_h, src_w, src_h))
        } else {
            before
        }
    }
}

/// The boxes of text that a probability map shows. A map that is neither a
/// plane nor planes in one or two further dimensions shows none.
pub open spec fn text_boxes(
    prob: Tensor,
    net_w: u32,
    net_h: u32,
    src_w: u32,
    src_h: u32,
) -> Seq<DetBox> {
    if 2 <= prob.rank() <= 4 {
        boxes_of(
            prob,
            text_mask(prob, net_w as usize, net_h as usize).all_regions(),
            net_w,
            net_h,
            src_w,
            src_h,
        )
    } else {
        seq![]
    }
}

/// The places of the map that count as text.
fn mask_of(prob: &Tensor, width: usize, height: usize) -> (r: Mask)
    requires
        prob.valid(),
        prob.planar(),
        height <= prob.rows(),
        width <= prob.columns(),
    ensures
        r@ == text_mask(*prob, width, height),
        r@.valid(),
{
    let f = float::single();
    let thresh = Float::from_ratio(f, 3, 10);
    let size: usize = prob.data.len();
    proof {
        crate::tensor::lemma_first_plane(*prob);
        assert(0 <= width * height <= size) by (nonlinear_arith)
            requires
                0 <= height <= prob.rows(),
                0 <= width <= prob.columns(),
                prob.rows() * prob.columns() <= size,
        ;
    }
    let count: usize = width * height;
    let ghost goal = text_mask(*prob, width, height);
    let mut set: Vec<bool> = Vec::new();
    while set.len() < count
        invariant
            f == float::single_format(),
            f.valid(),
            thresh.valid(f),
            thresh.value(f) == det_bin_thresh(),
            prob.valid(),
            prob.planar(),
            height <= prob.rows(),
            width <= prob.columns(),
            count == width * height,
            goal == text_mask(*prob, width, height),
            set@.len() <= count,
            set@ =~= goal.set.take(set@.len() as int),
        decreases count - set@.len(),
    {
        let i: usize = set.len();
        proof {
            flood::lemma_cell(goal, i as nat);
        }
        let y: usize = i / width;
        let x: usize = i % width;
        let p = bits::single_from_bits(prob.get(y, x));
        set.push(!p.below(f, thresh));
    }
    assert(set@ =~= goal.set);
    Mask { width: width, height: height, set: set }
}

/// The mean probability of a region.
fn mean_of(prob: &Tensor, cells: &Vec<Cell>) -> (r: Float)
    requires
        prob.valid(),
        prob.planar(),
        forall|i: int|
            0 <= i < cells@.len() ==> (#[trigger] cells@[i]).0 < prob.rows() && cells@[i].1
                < prob.columns(),
    ensures
        r.valid(float::single_format()),
        r.value(float::single_format()) == mean(*prob, cells@),
{
    let f = float::single();
    let mut sum = Float::Finite { negative: false, mantissa: 0, exponent: f.min_exponent };
    proof {
        crate::rounding::lemma_pow2_pos(f.digits());
        crate::rounding::lemma_pow2_zero(0);
    }
    let mut i: usize = 0;
    while i < cells.len()
        invariant
            f == float::single_format(),
            f.valid(),
            prob.valid(),
            prob.planar(),
            forall|i: int|
                0 <= i < cells@.len() ==> (#[trigger] cells@[i]).0 < prob.rows() && cells@[i].1
                    < prob.columns(),
            i <= cells@.len(),
            sum.valid(f),
            sum.value(f) == total(*prob, cells@.take(i as int)),
        decreases cells@.len() - i,
    {
        let c: Cell = cells[i];
        let p = bits::single_from_bits(prob.get(c.0, c.1));
        sum = sum.plus(f, p);
        proof {
            let upto = cells@.take(i + 1);
            assert(upto.drop_last() =~= cells@.take(i as int));
            assert(upto.last() == c);
        }
        i = i + 1;
    }
    assert(cells@.take(cells@.len() as int) =~= cells@);
    sum.over(f, Float::from_natural(f, cells.len() as u64))
}

/// The columns and rows that a region reaches.
fn span_of(cells: &Vec<Cell>) -> (r: Span)
    requires
        cells@.len() > 0,
    ensures
        r == span(cells@),
{
    let mut s = Span {
        left: cells[0].1,
        top: cells[0].0,
        right: cells[0].1,
        bottom: cells[0].0,
    };
    let mut i: usize = 1;
    assert(cells@.take(1)[0] == cells@[0]);
    while i < cells.len()
        invariant
            1 <= i <= cells@.len(),
            s == span(cells@.take(i as int)),
        decreases cells@.len() - i,
    {
        let c: Cell = cells[i];
        proof {
            let upto = cells@.take(i + 1);
            assert(upto.drop_last() =~= cells@.take(i as int));
            assert(upto.last() == c);
        }
        s = Span {
            left: if c.1 < s.left {
                c.1
            } else {
                s.left
            },
            top: if c.0 < s.top {
                c.0
            } else {
                s.top
            },
            right: if c.1 > s.right {
                c.1
            } else {
                s.right
            },
            bottom: if c.0 > s.bottom {
                c.0
            } else {
                s.bottom
            },
        };
        i = i + 1;
    }
    assert(cells@.take(cells@.len() as int) =~= cells@);
    s
}

/// Start and length of a side of a box in the source image.
fn side_of(first: usize, last: usize, src: u32, net: u32) -> (r: (u32, u32))
    requires
        last < usize::MAX,
    ensures
        r.0 == side_start(first, src, net),
        r.1 == side_length(side_start(first, src, net), side_end(last, src, net)),
{
    let f = float::single();
    let size = Float::from_natural(f, src as u64);
    let scale = size.over(f, Float::from_natural(f, net as u64));
    let from = Float::from_natural(f, first as u64).times(f, scale).floor_to_u32(f);
    let upto = Float::from_natural(f, (last + 1) as u64).times(f, scale).ceil_to_u32(f);
    let bound = size.floor_to_u32(f);
    let start: u32 = if from > 0 {
        from - 1
    } else {
        0
    };
    let kept: u32 = if upto < bound {
        upto
    } else {
        bound
    };
    let end: u32 = if kept < src && kept + 1 < src {
        kept + 1
    } else {
        src
    };
    let length: u32 = if end > start {
        end - start
    } else {
        1
    };
    (start, length)
}

/// The boxes of text that a probability map shows: the connected regions of
/// places that count as text, as far as they are kept, each as its bounding
/// box scaled to the source image.
pub fn boxes_from_prob_map(
    prob: &Tensor,
    net_w: u32,
    net_h: u32,
    src_w: u32,
    src_h: u32,
) -> (r: Vec<DetBox>)
    requires
        prob.valid(),
        2 <= prob.rank() <= 4 ==> prob.planar() && net_h <= prob.rows() && net_w <= prob.columns(),
    ensures
        r@ == text_boxes(*prob, net_w, net_h, src_w, src_h),
{
    let mut boxes: Vec<DetBox> = Vec::new();
    if prob.shape.len() < 2 || prob.shape.len() > 4 {
        return boxes;
    }
    let f = float::single();
    let thresh = Float::from_ratio(f, 5, 10);
    let width: usize = net_w as usize;
    let height: usize = net_h as usize;
    let mask = mask_of(prob, width, height);
    let regions = mask.regions();
    let ghost rs = flood::contents(regions@);
    proof {
        flood::lemma_regions_lie_in(mask@);
    }
    let mut i: usize = 0;
    assert(rs.take(0) =~= seq![]);
    while i < regions.len()
        invariant
            f == float::single_format(),
            f.valid(),
            thresh.valid(f),
            thresh.value(f) == det_box_thresh(),
            prob.valid(),
            prob.planar(),
            width == net_w,
            height == net_h,
            net_h <= prob.rows(),
            net_w <= prob.columns(),
            mask@ == text_mask(*prob, width, height),
            rs == flood::contents(regions@),
            rs == mask@.all_regions(),
            forall|i: int| 0 <= i < rs.len() ==> flood::lies_in(mask@, #[trigger] rs[i]),
            i <= regions@.len(),
            boxes@ == boxes_of(*prob, rs.take(i as int), net_w, net_h, src_w, src_h),
        decreases regions@.len() - i,
    {
        let cells = &regions[i];
        proof {
            assert(rs[i as int] == cells@);
            assert(flood::lies_in(mask@, rs[i as int]));
            assert forall|j: int| 0 <= j < cells@.len() implies (#[trigger] cells@[j]).0 < height
                && cells@[j].1 < width by {
                assert(mask@.has(cells@[j]));
            }
        }
        let s = span_of(cells);
        proof {
            lemma_span(cells@, height, width);
            let upto = rs.take(i + 1);
            assert(upto.drop_last() =~= rs.take(i as int));
            assert(upto.last() == cells@);
        }
        if thresh.below(f, mean_of(prob, cells)) && s.right - s.left >= 2 && s.bottom - s.top
            >= 2 {
            let across = side_of(s.left, s.right, src_w, net_w);
            let down = side_of(s.top, s.bottom, src_h, net_h);
            boxes.push(DetBox { x: across.0, y: down.0, w: across.1, h: down.1 });
        }
        i = i + 1;
    }
    assert(rs.take(rs.len() as int) =~= rs);
    boxes
}

/// A region reaches no further than its cells.
proof fn lemma_span(cells: Seq<Cell>, height: usize, width: usize)
    requires
        cells.len() > 0,
        forall|i: int|
            0 <= i < cells.len() ==> (#[trigger] cells[i]).0 < height && cells[i].1 < width,
    ensures
        span(cells).left <= span(cells).right < width,
        span(cells).top <= span(cells).bottom < height,
    decreases cells.len(),
{
    if cells.len() > 1 {
        lemma_span(cells.drop_last(), height, width);
    }
}

/// The rounding errors of scaling a place of the map, together, do not take it
/// past the end of the image.
proof fn lemma_errors(first: nat, net: nat, src: nat, one: nat, size: nat, scale: nat, start: nat)
    requires
        first < net <= 960,
        one >= 1,
        size * 0x100_0000 <= (src * one) * 0x100_0001,
        (scale * (net * one)) * 0x100_0000 <= (size * one) * 0x100_0001,
        (start * one) * 0x100_0000 <= ((first * one) * scale) * 0x100_0001,
    ensures
        start <= src * one,
{
    let t: nat = 0x100_0000;
    let u: nat = 0x100_0001;
    let end = src * one;
    assert(start * t <= (first * scale) * u) by (nonlinear_arith)
        requires
            (start * one) * t <= ((first * one) * scale) * u,
            one >= 1,
    ;
    assert((scale * net) * t <= size * u) by (nonlinear_arith)
        requires
            (scale * (net * one)) * t <= (size * one) * u,
            one >= 1,
    ;
    assert((start * net) * t * t <= first * u * (size * u)) by (nonlinear_arith)
        requires
            start * t <= (first * scale) * u,
            (scale * net) * t <= size * u,
            first >= 0,
            net >= 0,
            t >= 0,
            u >= 0,
    ;
    assert((start * net) * t * t * t <= first * u * u * (end * u)) by (nonlinear_arith)
        requires
            (start * net) * t * t <= first * u * (size * u),
            size * t <= end * u,
            first >= 0,
            u >= 0,
            t >= 0,
    ;
    assert(959 * (u * u * u) <= 960 * (t * t * t) && t * t * t > 0) by (nonlinear_arith)
        requires
            t == 0x100_0000,
            u == 0x100_0001,
    ;
    let lost = u * u * u;
    let kept = t * t * t;
    assert((net - 1) * (959 * lost) <= (net - 1) * (960 * kept)) by (nonlinear_arith)
        requires
            959 * lost <= 960 * kept,
            net >= 1,
    ;
    assert((net - 1) * (960 * kept) <= (959 * net) * kept) by (nonlinear_arith)
        requires
            960 * (net - 1) <= 959 * net,
            kept >= 0,
    ;
    assert(959 * (first * lost) <= (net - 1) * (959 * lost)) by (nonlinear_arith)
        requires
            first <= net - 1,
            lost >= 0,
    ;
    assert((959 * net) * kept == 959 * (net * kept)) by (nonlinear_arith);
    assert((start * net) * (t * t * t) <= (net * (t * t * t)) * end) by (nonlinear_arith)
        requires
            (start * net) * t * t * t <= first * u * u * (end * u),
            first * lost <= net * kept,
            lost == u * u * u,
            kept == t * t * t,
            end >= 0,
    ;
    assert(start <= end) by (nonlinear_arith)
        requires
            (start * net) * (t * t * t) <= (net * (t * t * t)) * end,
            net >= 1,
            t * t * t > 0,
    ;
}

/// A side of a box starts in the image.
proof fn lemma_side_start(first: usize, src: u32, net: u32)
    requires
        first < net <= 960,
        src > 0,
    ensures
        0 <= side_start(first, src, net) < src,
{
    let f = float::single_format();
    let one = rounding::pow2(149);
    single::lemma_one();
    detect::lemma_natural(src);
    single::lemma_small_natural(net as nat);
    single::lemma_small_natural(first as nat);
    let size = rounding::nearest(src as nat * one, 1, 24);
    let whole = net as nat * one;
    assert(whole > 0) by (nonlinear_arith)
        requires
            whole == net as nat * one,
            net >= 1,
            one >= 1,
    ;
    // The scale has its full digits, and is finite.
    rounding::lemma_pow2_monotone(60, 149);
    rounding::lemma_pow2_adds(30, 30);
    rounding::lemma_pow2_adds(23, 37);
    reveal_with_fuel(rounding::pow2, 38);
    assert(size >= 1 && size * 2 >= one) by (nonlinear_arith)
        requires
            size * 0x100_0000 >= (src as nat * one) * 0xff_ffff,
            src >= 1,
            one >= 2,
    ;
    assert(size * one >= whole * rounding::pow2(23)) by (nonlinear_arith)
        requires
            size * 2 >= one,
            one >= rounding::pow2(60),
            rounding::pow2(60) == rounding::pow2(23) * rounding::pow2(37),
            rounding::pow2(37) >= 1920,
            whole == net as nat * one,
            net <= 960,
            rounding::pow2(23) >= 1,
    ;
    rounding::lemma_nearest_error(size * one, whole, 24);
    let scale = rounding::nearest(size * one, whole, 24);
    rounding::lemma_pow2_adds(32, 149);
    rounding::lemma_pow2_monotone(182, 277);
    assert(size * one <= whole * rounding::pow2(181)) by (nonlinear_arith)
        requires
            size <= rounding::pow2(181),
            whole == net as nat * one,
            net >= 1,
            one >= 1,
    ;
    rounding::lemma_nearest_at_most(size * one, whole, 24, 181);
    rounding::lemma_pow2_pos(181);
    if first == 0 {
        assert((0 * one) * scale == 0) by (nonlinear_arith);
        assert(one * 0 == 0 && one * 1 == one);
        single::lemma_small_natural(0);
        assert(0 * one == 0);
        rounding::lemma_nearest_scale(0, 1, 24, one);
        assert(rounding::nearest(0, one, 24) == 0);
        vstd::arithmetic::div_mod::lemma_div_basics(one as int);
    } else {
        let n = (first as nat * one) * scale;
        assert(scale >= rounding::pow2(23)) by (nonlinear_arith)
            requires
                (scale * whole) * 0x100_0000 >= (size * one) * (0x100_0000 - 1),
                size * 2 >= one,
                one >= rounding::pow2(60),
                rounding::pow2(60) == rounding::pow2(23) * rounding::pow2(37),
                rounding::pow2(37) >= 0x10_0000,
                whole == net as nat * one,
                1 <= net <= 960,
                rounding::pow2(23) >= 1,
        ;
        assert(n >= one * rounding::pow2(23)) by (nonlinear_arith)
            requires
                n == (first as nat * one) * scale,
                first >= 1,
                scale >= rounding::pow2(23),
        ;
        rounding::lemma_nearest_error(n, one, 24);
        let start = rounding::nearest(n, one, 24);
        lemma_errors(first as nat, net as nat, src as nat, one, size, scale, start);
        assert(src as nat * one < rounding::pow2(182)) by (nonlinear_arith)
            requires
                src <= 0xffff_ffff,
                rounding::pow2(182) == 2 * (0x1_0000_0000 * one),
                one >= 1,
        ;
        assert(start / one <= src) by (nonlinear_arith)
            requires
                start <= src as nat * one,
                one >= 1,
        ;
    }
}

/// Every box lies in the image, for maps no larger than the detector's input.
pub proof fn every_text_box_lies_in_the_image(
    prob: Tensor,
    net_w: u32,
    net_h: u32,
    src_w: u32,
    src_h: u32,
    i: int,
)
    requires
        prob.valid(),
        2 <= prob.rank() <= 4 ==> prob.planar() && net_h <= prob.rows() && net_w <= prob.columns(),
        net_w <= detect::DET_MAX_SIDE,
        net_h <= detect::DET_MAX_SIDE,
        src_w > 0,
        src_h > 0,
        0 <= i < text_boxes(prob, net_w, net_h, src_w, src_h).len(),
    ensures
        ({
            let b = text_boxes(prob, net_w, net_h, src_w, src_h)[i];
            &&& b.w >= 1 && b.h >= 1
            &&& b.x + b.w <= src_w
            &&& b.y + b.h <= src_h
        }),
{
    let g = text_mask(prob, net_w as usize, net_h as usize);
    flood::lemma_regions_lie_in(g);
    lemma_boxes_lie_in(prob, g, g.all_regions(), net_w, net_h, src_w, src_h, i);
}

proof fn lemma_boxes_lie_in(
    prob: Tensor,
    g: flood::Grid,
    regions: Seq<Seq<Cell>>,
    net_w: u32,
    net_h: u32,
    src_w: u32,
    src_h: u32,
    i: int,
)
    requires
        g.width == net_w,
        g.height == net_h,
        forall|j: int| 0 <= j < regions.len() ==> flood::lies_in(g, #[trigger] regions[j]),
        net_w <= 960,
        net_h <= 960,
        src_w > 0,
        src_h > 0,
        0 <= i < boxes_of(prob, regions, net_w, net_h, src_w, src_h).len(),
    ensures
        ({
            let b = boxes_of(prob, regions, net_w, net_h, src_w, src_h)[i];
            &&& b.w >= 1 && b.h >= 1
            &&& b.x + b.w <= src_w
            &&& b.y + b.h <= src_h
        }),
    decreases regions.len(),
{
    let shorter = regions.drop_last();
    let before = boxes_of(prob, shorter, net_w, net_h, src_w, src_h);
    assert forall|j: int| 0 <= j < shorter.len() implies flood::lies_in(
        g,
        #[trigger] shorter[j],
    ) by {
        assert(flood::lies_in(g, regions[j]));
    }
    if i < before.len() {
        lemma_boxes_lie_in(prob, g, shorter, net_w, net_h, src_w, src_h, i);
    } else {
        let cells = regions.last();
        assert(flood::lies_in(g, regions[regions.len() - 1]));
        assert forall|j: int| 0 <= j < cells.len() implies (#[trigger] cells[j]).0 < g.height
            && cells[j].1 < g.width by {
            assert(g.has(cells[j]));
        }
        lemma_span(cells, g.height, g.width);
        let s = span(cells);
        lemma_side_start(s.left, src_w, net_w);
        lemma_side_start(s.top, src_h, net_h);
    }
}

/// The scale from the map to the source image, and how far rounding takes it.
proof fn lemma_map_scale(src: u32, net: u32) -> (r: (nat, nat))
    requires
        0 < net <= 960,
        src > 0,
    ensures
        ({
            let f = float::single_format();
            let one = rounding::pow2(149);
            let (size, scale) = r;
            &&& float::quotient(f, float::natural(f, src as nat), float::natural(f, net as nat))
                == float::Value::Finite(false, scale)
            &&& size * 0x100_0000 <= (src as nat * one) * 0x100_0001
            &&& size * 0x100_0000 >= (src as nat * one) * 0xff_ffff
            &&& (scale * (net as nat * one)) * 0x100_0000 <= (size * one) * 0x100_0001
            &&& (scale * (net as nat * one)) * 0x100_0000 >= (size * one) * 0xff_ffff
            &&& rounding::pow2(23) <= scale <= rounding::pow2(181)
        }),
{
    let one = rounding::pow2(149);
    single::lemma_one();
    detect::lemma_natural(src);
    single::lemma_small_natural(net as nat);
    let size = rounding::nearest(src as nat * one, 1, 24);
    let whole = net as nat * one;
    assert(whole > 0) by (nonlinear_arith)
        requires
            whole == net as nat * one,
            net >= 1,
            one >= 1,
    ;
    rounding::lemma_pow2_monotone(55, 149);
    rounding::lemma_pow2_adds(32, 23);
    assert(size >= 1 && size * 2 >= one) by (nonlinear_arith)
        requires
            size * 0x100_0000 >= (src as nat * one) * 0xff_ffff,
            src >= 1,
            one >= 2,
    ;
    assert(size * one >= whole * rounding::pow2(23)) by (nonlinear_arith)
        requires
            size * 2 >= one,
            one >= 0x1_0000_0000 * rounding::pow2(23),
            whole == net as nat * one,
            net <= 960,
            rounding::pow2(23) >= 1,
    ;
    rounding::lemma_nearest_error(size * one, whole, 24);
    let scale = rounding::nearest(size * one, whole, 24);
    rounding::lemma_pow2_monotone(182, 277);
    assert(size * one <= whole * rounding::pow2(181)) by (nonlinear_arith)
        requires
            size <= rounding::pow2(181),
            whole == net as nat * one,
            net >= 1,
            one >= 1,
    ;
    rounding::lemma_nearest_at_most(size * one, whole, 24, 181);
    rounding::lemma_pow2_pos(181);
    assert(scale >= rounding::pow2(23)) by (nonlinear_arith)
        requires
            (scale * whole) * 0x100_0000 >= (size * one) * (0x100_0000 - 1),
            size * 2 >= one,
            one >= 0x1_0000_0000 * rounding::pow2(23),
            whole == net as nat * one,
            1 <= net <= 960,
            rounding::pow2(23) >= 1,
    ;
    (size, scale)
}

/// A place of the map, scaled to the source image, is near to where it lies.
proof fn lemma_scaled(k: nat, src: u32, net: u32) -> (v: nat)
    requires
        k <= net <= 960,
        0 < net,
        src > 0,
    ensures
        ({
            let f = float::single_format();
            let one = rounding::pow2(149);
            let scale = float::quotient(
                f,
                float::natural(f, src as nat),
                float::natural(f, net as nat),
            );
            &&& float::product(f, float::natural(f, k), scale) == float::Value::Finite(false, v)
            &&& (v * net - (k * src) * one) * 0x100_0000 <= 4 * ((k * src) * one)
            &&& ((k * src) * one - v * net) * 0x100_0000 <= 4 * ((k * src) * one)
        }),
{
    let one = rounding::pow2(149);
    let (size, scale) = lemma_map_scale(src, net);
    single::lemma_one();
    single::lemma_small_natural(k);
    let n = (k * one) * scale;
    let v = rounding::nearest(n, one, 24);
    // It is finite.
    rounding::lemma_pow2_adds(10, 181);
    rounding::lemma_pow2_monotone(192, 277);
    reveal_with_fuel(rounding::pow2, 11);
    assert(rounding::pow2(10) == 1024);
    assert(n <= one * rounding::pow2(191)) by (nonlinear_arith)
        requires
            n == (k * one) * scale,
            k <= 960,
            scale <= rounding::pow2(181),
            rounding::pow2(191) == 1024 * rounding::pow2(181),
            one >= 1,
    ;
    rounding::lemma_nearest_at_most(n, one, 24, 191);
    rounding::lemma_pow2_pos(191);
    if k == 0 {
        assert(n == 0) by (nonlinear_arith)
            requires
                n == (k * one) * scale,
                k == 0,
        ;
        lemma_nothing(one);
        assert((k * src) * one == 0 && v * net == 0) by (nonlinear_arith)
            requires
                k == 0,
                v == 0,
        ;
    } else {
        assert(n >= one * rounding::pow2(23)) by (nonlinear_arith)
            requires
                n == (k * one) * scale,
                k >= 1,
                scale >= rounding::pow2(23),
        ;
        rounding::lemma_nearest_error(n, one, 24);
        single::lemma_three_errors(k, net as nat, src as nat, one, size, scale, v);
    }
    v
}

proof fn lemma_nothing(one: nat)
    requires
        one >= 1,
    ensures
        rounding::nearest(0, one, 24) == 0,
{
    rounding::lemma_pow2_pos(24);
    assert(one * rounding::pow2(24) > 0) by (nonlinear_arith)
        requires
            one >= 1,
            rounding::pow2(24) >= 1,
    ;
    assert(rounding::binade(0, one, 24) == 0);
    rounding::lemma_pow2_zero(one);
    rounding::lemma_half_even_from(0, one, 0, 0);
}

/// A side of a box, from `start` to `end`, covers the places of the map from
/// `first` to `last`, scaled to the source image. It reaches beyond them on either
/// end by one pixel and what it takes to come to a whole one, but for a quarter of
/// a pixel, and no further than the image.
pub open spec fn side_covers(start: int, end: int, first: int, last: int, src: int, net: int) -> bool {
    &&& start * net <= first * src
    &&& start == 0 || 4 * (start * net) + 3 * net <= 4 * (first * src)
    &&& 4 * (first * src) <= 4 * (start * net) + 9 * net
    &&& (last + 1) * src <= end * net
    &&& end == src || 4 * ((last + 1) * src) + 3 * net <= 4 * (end * net)
    &&& 4 * (end * net) <= 4 * ((last + 1) * src) + 9 * net
}

proof fn lemma_side_covers(first: usize, last: usize, src: u32, net: u32)
    requires
        first <= last < net <= 960,
        0 < src <= 0x10_0000,
    ensures
        0 <= side_start(first, src, net) < side_end(last, src, net) <= src,
        side_covers(
            side_start(first, src, net),
            side_end(last, src, net),
            first as int,
            last as int,
            src as int,
            net as int,
        ),
{
    let f = float::single_format();
    let one = rounding::pow2(149);
    single::lemma_one();
    single::lemma_small_natural(src as nat);
    rounding::lemma_pow2_monotone(23, 149);
    let v = lemma_scaled(first as nat, src, net);
    let w = lemma_scaled(last as nat + 1, src, net);
    lemma_floor(v, one, first as nat, src as nat, net as nat);
    lemma_ceil(w, one, last as nat + 1, src as nat, net as nat);
    vstd::arithmetic::div_mod::lemma_fundamental_div_mod_converse(
        (src as nat * one) as int,
        one as int,
        src as int,
        0,
    );
    let bound = float::floor_u32(f, float::natural(f, src as nat));
    assert(bound == src);
    let from = (v / one) as int;
    let upto = ((w + one - 1) / (one as int)) as int;
    let start = side_start(first, src, net);
    let end = side_end(last, src, net);
    assert(start == if from > 0 {
        from - 1
    } else {
        0
    });
    assert((last + 1) * src <= net * src) by (nonlinear_arith)
        requires
            last + 1 <= net,
    ;
    if from > 0 {
        assert((from - 1) * net == from * net - net) by (nonlinear_arith);
    } else {
        assert(0 * net == 0);
        assert(from * net == 0) by (nonlinear_arith)
            requires
                from == 0,
        ;
    }
    if end == src {
        assert(end * net == net * src) by (nonlinear_arith)
            requires
                end == src,
        ;
        if upto < src {
            assert(src * net <= upto * net + net) by (nonlinear_arith)
                requires
                    src <= upto + 1,
                    net >= 0,
            ;
        } else {
            assert(src * net <= upto * net) by (nonlinear_arith)
                requires
                    src <= upto,
                    net >= 0,
            ;
        }
        assert(src * net == net * src) by (nonlinear_arith);
    } else {
        assert(end == upto + 1);
        assert((upto + 1) * net == upto * net + net) by (nonlinear_arith);
    }
    assert((last + 1) * src > first * src) by (nonlinear_arith)
        requires
            last >= first,
            src > 0,
    ;
    assert(end > start) by (nonlinear_arith)
        requires
            end * net > start * net,
            net >= 1,
    ;
}

/// Rounding down a scaled place.
proof fn lemma_floor(v: nat, one: nat, k: nat, src: nat, net: nat)
    requires
        one >= 4,
        k <= net,
        0 < net,
        src <= 0x10_0000,
        (v * net - (k * src) * one) * 0x100_0000 <= 4 * ((k * src) * one),
        ((k * src) * one - v * net) * 0x100_0000 <= 4 * ((k * src) * one),
    ensures
        4 * ((v / one) * net) <= 4 * (k * src) + net,
        4 * (k * src) <= 4 * ((v / one) * net) + 5 * net,
        v / one <= u32::MAX,
{
    let goal = (k * src) * one;
    let err = net * one;
    assert(goal <= (net * one) * 0x10_0000) by (nonlinear_arith)
        requires
            goal == (k * src) * one,
            k <= net,
            src <= 0x10_0000,
    ;
    let vn = v * net;
    assert(4 * (vn - goal) <= err && 4 * (goal - vn) <= err) by (nonlinear_arith)
        requires
            (vn - goal) * 0x100_0000 <= 4 * goal,
            (goal - vn) * 0x100_0000 <= 4 * goal,
            goal <= err * 0x10_0000,
    ;
    let q = v / one;
    let r = v % one;
    vstd::arithmetic::div_mod::lemma_fundamental_div_mod(v as int, one as int);
    let qn = q * net;
    assert(vn == qn * one + r * net) by (nonlinear_arith)
        requires
            v == one * q + r,
            vn == v * net,
            qn == q * net,
    ;
    assert(r * net <= net * one) by (nonlinear_arith)
        requires
            0 <= r < one,
    ;
    let ks = k * src;
    assert(4 * qn <= 4 * ks + net) by (nonlinear_arith)
        requires
            4 * (qn * one) <= 4 * (ks * one) + net * one,
            one >= 1,
    ;
    assert(4 * ks <= 4 * qn + 5 * net) by (nonlinear_arith)
        requires
            4 * (ks * one) <= 4 * (qn * one) + 5 * (net * one),
            one >= 1,
    ;
    assert(ks <= net * 0x10_0000) by (nonlinear_arith)
        requires
            ks == k * src,
            k <= net,
            src <= 0x10_0000,
    ;
    assert(q <= 0x10_0001) by (nonlinear_arith)
        requires
            4 * (q * net) <= 4 * (net * 0x10_0000) + net,
            net >= 1,
    ;
}

/// Rounding up a scaled place.
proof fn lemma_ceil(v: nat, one: nat, k: nat, src: nat, net: nat)
    requires
        one >= 4,
        k <= net,
        0 < net,
        src <= 0x10_0000,
        (v * net - (k * src) * one) * 0x100_0000 <= 4 * ((k * src) * one),
        ((k * src) * one - v * net) * 0x100_0000 <= 4 * ((k * src) * one),
    ensures
        ({
            let q = (v + one - 1) / (one as int);
            &&& 0 <= q <= u32::MAX
            &&& 4 * (k * src) <= 4 * (q * net) + net
            &&& 4 * (q * net) <= 4 * (k * src) + 5 * net
        }),
{
    let goal = (k * src) * one;
    let err = net * one;
    assert(goal <= (net * one) * 0x10_0000) by (nonlinear_arith)
        requires
            goal == (k * src) * one,
            k <= net,
            src <= 0x10_0000,
    ;
    let vn = v * net;
    assert(4 * (vn - goal) <= err && 4 * (goal - vn) <= err) by (nonlinear_arith)
        requires
            (vn - goal) * 0x100_0000 <= 4 * goal,
            (goal - vn) * 0x100_0000 <= 4 * goal,
            goal <= err * 0x10_0000,
    ;
    let q = (v + one - 1) / (one as int);
    let r = (v + one - 1) % (one as int);
    vstd::arithmetic::div_mod::lemma_fundamental_div_mod(v + one - 1, one as int);
    vstd::arithmetic::div_mod::lemma_div_pos_is_pos(v + one - 1, one as int);
    let qn = q * net;
    assert(vn + (one - 1) * net == qn * one + r * net) by (nonlinear_arith)
        requires
            v + one - 1 == one * q + r,
            vn == v * net,
            qn == q * net,
    ;
    assert(0 <= r * net <= (one - 1) * net && (one - 1) * net <= net * one) by (nonlinear_arith)
        requires
            0 <= r < one,
    ;
    let ks = k * src;
    assert(4 * ks <= 4 * qn + net) by (nonlinear_arith)
        requires
            4 * (ks * one) <= 4 * (qn * one) + net * one,
            one >= 1,
    ;
    assert(4 * qn <= 4 * ks + 5 * net) by (nonlinear_arith)
        requires
            4 * (qn * one) <= 4 * (ks * one) + 5 * (net * one),
            one >= 1,
    ;
    assert(ks <= net * 0x10_0000) by (nonlinear_arith)
        requires
            ks == k * src,
            k <= net,
            src <= 0x10_0000,
    ;
    assert(q <= 0x10_0002) by (nonlinear_arith)
        requires
            4 * (q * net) <= 4 * (net * 0x10_0000) + 5 * net,
            net >= 1,
    ;
}

/// The places of the map that count as text are those whose probability is not
/// below three tenths.
pub proof fn text_is_where_the_probability_is_not_below_three_tenths(
    prob: Tensor,
    width: usize,
    height: usize,
    row: usize,
    column: usize,
)
    requires
        row < height,
        column < width,
    ensures
        text_mask(prob, width, height).has((row, column)) <==> !float::less(
            bits::single_value(prob.at(row as int, column as int)),
            float::ratio(float::single_format(), 3, 10),
        ),
        text_mask(prob, width, height).valid(),
{
    let at = row * width + column;
    assert(0 <= at < width * height) by (nonlinear_arith)
        requires
            0 <= row < height,
            0 <= column < width,
            at == row * width + column,
    ;
    vstd::arithmetic::div_mod::lemma_fundamental_div_mod_converse(
        at,
        width as int,
        row as int,
        column as int,
    );
}

/// The mean probability of a region takes up every place of it: a further place
/// adds its probability to the sum, and the sum is divided by how many there
/// are.
pub proof fn a_mean_takes_up_every_place(prob: Tensor, cells: Seq<Cell>, c: Cell)
    ensures
        total(prob, cells.push(c)) == float::sum(
            float::single_format(),
            total(prob, cells),
            bits::single_value(prob.at(c.0 as int, c.1 as int)),
        ),
        total(prob, Seq::empty()) == float::Value::Finite(false, 0),
        mean(prob, cells) == float::quotient(
            float::single_format(),
            total(prob, cells),
            float::natural(float::single_format(), cells.len()),
        ),
{
    assert(cells.push(c).drop_last() =~= cells);
}

/// The columns and rows that a region reaches are those of its outermost places.
proof fn lemma_outermost(cells: Seq<Cell>) -> (at: (int, int, int, int))
    requires
        cells.len() > 0,
    ensures
        ({
            let s = span(cells);
            let n = cells.len();
            &&& 0 <= at.0 < n && cells[at.0].1 == s.left
            &&& 0 <= at.1 < n && cells[at.1].0 == s.top
            &&& 0 <= at.2 < n && cells[at.2].1 == s.right
            &&& 0 <= at.3 < n && cells[at.3].0 == s.bottom
            &&& forall|i: int|
                0 <= i < n ==> s.left <= (#[trigger] cells[i]).1 <= s.right && s.top <= cells[i].0
                    <= s.bottom
        }),
    decreases cells.len(),
{
    if cells.len() == 1 {
        (0, 0, 0, 0)
    } else {
        let some = cells.drop_last();
        let last = cells.len() - 1;
        let c = cells.last();
        let s = span(some);
        let (a, b, d, e) = lemma_outermost(some);
        assert(some[a] == cells[a] && some[b] == cells[b] && some[d] == cells[d] && some[e]
            == cells[e]);
        assert forall|i: int| 0 <= i < cells.len() implies span(cells).left <= (
        #[trigger] cells[i]).1 <= span(cells).right && span(cells).top <= cells[i].0 <= span(
            cells,
        ).bottom by {
            if i < last {
                assert(some[i] == cells[i]);
            }
        }
        (
            if c.1 < s.left {
                last
            } else {
                a
            },
            if c.0 < s.top {
                last
            } else {
                b
            },
            if c.1 > s.right {
                last
            } else {
                d
            },
            if c.0 > s.bottom {
                last
            } else {
                e
            },
        )
    }
}

/// A region counts as text: its mean probability exceeds one half, and it reaches
/// over three columns and three rows at least.
pub open spec fn counts_as_text(prob: Tensor, cells: Seq<Cell>) -> bool {
    &&& float::less(float::ratio(float::single_format(), 5, 10), mean(prob, cells))
    &&& exists|i: int, j: int|
        0 <= i < cells.len() && 0 <= j < cells.len() && (#[trigger] cells[i]).1 + 2 <= (
        #[trigger] cells[j]).1
    &&& exists|i: int, j: int|
        0 <= i < cells.len() && 0 <= j < cells.len() && (#[trigger] cells[i]).0 + 2 <= (
        #[trigger] cells[j]).0
}

/// The box covers every place of the region, scaled to the source image, and
/// beyond its outermost places reaches on each side as far as a side of a box
/// does. `l`, `t`, `r` and `d` are places furthest left, up, right and down.
pub open spec fn boxes_in(
    b: DetBox,
    cells: Seq<Cell>,
    net_w: u32,
    net_h: u32,
    src_w: u32,
    src_h: u32,
) -> bool {
    exists|l: int, t: int, r: int, d: int|
        {
            &&& 0 <= l < cells.len() && 0 <= t < cells.len()
            &&& 0 <= r < cells.len() && 0 <= d < cells.len()
            &&& side_covers(
                b.x as int,
                b.x + b.w,
                (#[trigger] cells[l]).1 as int,
                (#[trigger] cells[r]).1 as int,
                src_w as int,
                net_w as int,
            )
            &&& side_covers(
                b.y as int,
                b.y + b.h,
                (#[trigger] cells[t]).0 as int,
                (#[trigger] cells[d]).0 as int,
                src_h as int,
                net_h as int,
            )
            &&& forall|i: int|
                0 <= i < cells.len() ==> cells[l].1 <= (#[trigger] cells[i]).1 <= cells[r].1
                    && cells[t].0 <= cells[i].0 <= cells[d].0
        }
}

proof fn lemma_boxed(cells: Seq<Cell>, net_w: u32, net_h: u32, src_w: u32, src_h: u32)
    requires
        cells.len() > 0,
        forall|i: int|
            0 <= i < cells.len() ==> (#[trigger] cells[i]).0 < net_h && cells[i].1 < net_w,
        net_w <= 960,
        net_h <= 960,
        0 < src_w <= 0x10_0000,
        0 < src_h <= 0x10_0000,
    ensures
        boxes_in(
            scaled_box(span(cells), net_w, net_h, src_w, src_h),
            cells,
            net_w,
            net_h,
            src_w,
            src_h,
        ),
{
    let s = span(cells);
    let b = scaled_box(s, net_w, net_h, src_w, src_h);
    let (l, t, r, d) = lemma_outermost(cells);
    assert(cells[l].1 < net_w && cells[r].1 < net_w && cells[t].0 < net_h && cells[d].0 < net_h);
    assert(s.left <= s.right && s.top <= s.bottom) by {
        assert(s.left <= cells[l].1 <= s.right);
    }
    lemma_side_covers(s.left, s.right, src_w, net_w);
    lemma_side_covers(s.top, s.bottom, src_h, net_h);
    assert(b.x + b.w == side_end(s.right, src_w, net_w));
    assert(b.y + b.h == side_end(s.bottom, src_h, net_h));
    assert(side_covers(
        b.x as int,
        b.x + b.w,
        cells[l].1 as int,
        cells[r].1 as int,
        src_w as int,
        net_w as int,
    ));
    assert(side_covers(
        b.y as int,
        b.y + b.h,
        cells[t].0 as int,
        cells[d].0 as int,
        src_h as int,
        net_h as int,
    ));
}

proof fn lemma_keeps(prob: Tensor, cells: Seq<Cell>)
    requires
        cells.len() > 0,
    ensures
        keeps(prob, cells) == counts_as_text(prob, cells),
{
    let s = span(cells);
    let (l, t, r, b) = lemma_outermost(cells);
    if keeps(prob, cells) {
        assert(cells[l].1 + 2 <= cells[r].1);
        assert(cells[t].0 + 2 <= cells[b].0);
    }
    if counts_as_text(prob, cells) {
        let (i, j) = choose|i: int, j: int|
            0 <= i < cells.len() && 0 <= j < cells.len() && (#[trigger] cells[i]).1 + 2 <= (
            #[trigger] cells[j]).1;
        assert(s.left <= cells[i].1 && cells[j].1 <= s.right);
        let (k, m) = choose|i: int, j: int|
            0 <= i < cells.len() && 0 <= j < cells.len() && (#[trigger] cells[i]).0 + 2 <= (
            #[trigger] cells[j]).0;
        assert(s.top <= cells[k].0 && cells[m].0 <= s.bottom);
    }
}

/// Every region that counts as text has its box, which covers it and hardly
/// more, and nothing else has one; the boxes come in the order of the regions.
/// `at` tells to which region each box belongs.
pub proof fn every_region_of_text_has_its_box(
    prob: Tensor,
    net_w: u32,
    net_h: u32,
    src_w: u32,
    src_h: u32,
) -> (at: Seq<int>)
    requires
        prob.valid(),
        2 <= prob.rank() <= 4,
        prob.planar() && net_h <= prob.rows() && net_w <= prob.columns(),
        net_w <= detect::DET_MAX_SIDE,
        net_h <= detect::DET_MAX_SIDE,
        0 < src_w <= 0x10_0000,
        0 < src_h <= 0x10_0000,
    ensures
        ({
            let regions = text_mask(prob, net_w as usize, net_h as usize).all_regions();
            let boxes = text_boxes(prob, net_w, net_h, src_w, src_h);
            &&& at.len() == boxes.len()
            &&& forall|k: int, l: int| 0 <= k < l < at.len() ==> #[trigger] at[k] < #[trigger] at[l]
            &&& forall|k: int|
                0 <= k < at.len() ==> 0 <= #[trigger] at[k] < regions.len() && counts_as_text(
                    prob,
                    regions[at[k]],
                ) && boxes_in(boxes[k], regions[at[k]], net_w, net_h, src_w, src_h)
            &&& forall|i: int|
                0 <= i < regions.len() && counts_as_text(prob, #[trigger] regions[i])
                    ==> at.contains(i)
        }),
{
    let g = text_mask(prob, net_w as usize, net_h as usize);
    flood::lemma_regions_lie_in(g);
    lemma_boxes_at(prob, g, g.all_regions(), net_w, net_h, src_w, src_h)
}

proof fn lemma_boxes_at(
    prob: Tensor,
    g: flood::Grid,
    regions: Seq<Seq<Cell>>,
    net_w: u32,
    net_h: u32,
    src_w: u32,
    src_h: u32,
) -> (at: Seq<int>)
    requires
        g.width == net_w,
        g.height == net_h,
        forall|j: int| 0 <= j < regions.len() ==> flood::lies_in(g, #[trigger] regions[j]),
        net_w <= 960,
        net_h <= 960,
        0 < src_w <= 0x10_0000,
        0 < src_h <= 0x10_0000,
    ensures
        ({
            let boxes = boxes_of(prob, regions, net_w, net_h, src_w, src_h);
            &&& at.len() == boxes.len()
            &&& forall|k: int, l: int| 0 <= k < l < at.len() ==> #[trigger] at[k] < #[trigger] at[l]
            &&& forall|k: int|
                0 <= k < at.len() ==> 0 <= #[trigger] at[k] < regions.len() && counts_as_text(
                    prob,
                    regions[at[k]],
                ) && boxes_in(boxes[k], regions[at[k]], net_w, net_h, src_w, src_h)
            &&& forall|i: int|
                0 <= i < regions.len() && counts_as_text(prob, #[trigger] regions[i])
                    ==> at.contains(i)
        }),
    decreases regions.len(),
{
    if regions.len() == 0 {
        Seq::empty()
    } else {
        let shorter = regions.drop_last();
        let last = regions.len() - 1;
        assert forall|j: int| 0 <= j < shorter.len() implies flood::lies_in(
            g,
            #[trigger] shorter[j],
        ) by {
            assert(flood::lies_in(g, regions[j]));
        }
        let before = lemma_boxes_at(prob, g, shorter, net_w, net_h, src_w, src_h);
        let cells = regions.last();
        assert(flood::lies_in(g, regions[last]));
        assert forall|j: int| 0 <= j < cells.len() implies (#[trigger] cells[j]).0 < net_h
            && cells[j].1 < net_w by {
            assert(g.has(cells[j]));
        }
        lemma_keeps(prob, cells);
        lemma_boxed(cells, net_w, net_h, src_w, src_h);
        let at = if keeps(prob, cells) {
            before.push(last)
        } else {
            before
        };
        assert forall|k: int| 0 <= k < at.len() implies 0 <= #[trigger] at[k] < regions.len()
            && counts_as_text(prob, regions[at[k]]) && boxes_in(
            boxes_of(prob, regions, net_w, net_h, src_w, src_h)[k],
            regions[at[k]],
            net_w,
            net_h,
            src_w,
            src_h,
        ) by {
            if k < before.len() {
                assert(at[k] == before[k]);
                assert(shorter[before[k]] == regions[before[k]]);
            }
        }
        assert forall|i: int|
            0 <= i < regions.len() && counts_as_text(prob, #[trigger] regions[i]) implies at.contains(
            i,
        ) by {
            if i < last {
                assert(shorter[i] == regions[i]);
                assert(before.contains(i));
                let k = choose|k: int| 0 <= k < before.len() && before[k] == i;
                assert(at[k] == i);
            } else {
                assert(at[before.len() as int] == i);
            }
        }
        at
    }
}

/// A map that is neither a plane nor planes in one or two further dimensions, or
/// without a place that counts as text, shows no boxes.
pub proof fn where_there_is_no_text_there_are_no_boxes(
    prob: Tensor,
    net_w: u32,
    net_h: u32,
    src_w: u32,
    src_h: u32,
)
    requires
        prob.rank() < 2 || prob.rank() > 4 || forall|row: int, column: int|
            0 <= row < net_h && 0 <= column < net_w ==> float::less(
                bits::single_value(#[trigger] prob.at(row, column)),
                float::ratio(float::single_format(), 3, 10),
            ),
    ensures
        text_boxes(prob, net_w, net_h, src_w, src_h).len() == 0,
{
    if 2 <= prob.rank() <= 4 {
        let g = text_mask(prob, net_w as usize, net_h as usize);
        assert(g.valid());
        flood::lemma_regions_lie_in(g);
        let regions = g.all_regions();
        if regions.len() > 0 {
            assert(flood::lies_in(g, regions[0]));
            let c = regions[0][0];
            assert(g.has(c));
            text_is_where_the_probability_is_not_below_three_tenths(
                prob,
                net_w as usize,
                net_h as usize,
                c.0,
                c.1,
            );
            assert(float::less(
                bits::single_value(prob.at(c.0 as int, c.1 as int)),
                float::ratio(float::single_format(), 3, 10),
            ));
        }
    }
}

} // verus!
