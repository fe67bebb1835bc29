//! Images as the numbers that models take.
use vstd::prelude::*;
use crate::bits;
use crate::float;
use crate::rounding;
use crate::single;
use crate::float::Float;
use crate::raster::RgbImage;
use crate::tensor::Tensor;

verus! {

/// A byte of an image as a model takes it: as a share of 255, less the mean,
/// in units of the deviation. Mean and deviation are given in thousandths.
pub open spec fn normalized(byte: u8, mean: nat, deviation: nat) -> float::Value {
    let f = float::single_format();
    let share = float::quotient(f, float::natural(f, byte as nat), float::natural(f, 255));
    float::quotient(
        f,
        float::sum(f, share, float::opposite(float::ratio(f, mean, 1000))),
        float::ratio(f, deviation, 1000),
    )
}

/// The models that take images.
#[derive(Clone, Copy)]
pub enum Model {
    Detector,
    Recognizer,
}

/// Mean and deviation of the channels that a model takes, in thousandths. For
/// the recognizer bytes are spread from minus one to one.
pub open spec fn channel(model: Model, c: int) -> (nat, nat) {
    match model {
        Model::Detector => if c == 0 {
            (485, 229)
        } else if c == 1 {
            (456, 224)
        } else {
            (406, 225)
        },
        Model::Recognizer => (500, 500),
    }
}

/// The normalized bytes of one channel, for each value of a byte.
fn channel_table(mean: u64, deviation: u64) -> (r: Vec<u32>)
    ensures
        tabulates(r@, (mean as nat, deviation as nat)),
{
    let f = float::single();
    let full = Float::from_natural(f, 255);
    let middle = Float::from_ratio(f, mean, 1000);
    let unit = Float::from_ratio(f, deviation, 1000);
    let mut r: Vec<u32> = Vec::new();
    while r.len() < 256
        invariant
            f == float::single_format(),
            f.valid(),
            full.valid(f),
            full.value(f) == float::natural(f, 255),
            middle.valid(f),
            middle.value(f) == float::ratio(f, mean as nat, 1000),
            unit.valid(f),
            unit.value(f) == float::ratio(f, deviation as nat, 1000),
            r@.len() <= 256,
            forall|b: int|
                0 <= b < r@.len() ==> bits::single_value(#[trigger] r@[b]) == normalized(
                    b as u8,
                    mean as nat,
                    deviation as nat,
                ),
        decreases 256 - r@.len(),
    {
        let byte: u64 = r.len() as u64;
        let share = Float::from_natural(f, byte).over(f, full);
        let v = share.minus(f, middle).over(f, unit);
        proof {
            bits::single_encoding_reads_back(v);
        }
        r.push(bits::single_to_bits(v));
    }
    r
}

/// Where the number of a channel of a pixel stands: channel after channel, row
/// after row.
pub open spec fn slot(w: int, h: int, c: int, y: int, x: int) -> int {
    (c * h + y) * w + x
}

/// The number that stands for a channel of a pixel: zero where the image does
/// not reach.
pub open spec fn place_value(
    img: RgbImage,
    channel: (nat, nat),
    c: int,
    x: int,
    y: int,
) -> float::Value {
    if x < img.width && y < img.height {
        normalized(img.byte(x, y, c), channel.0, channel.1)
    } else {
        float::Value::Finite(false, 0)
    }
}

/// The table holds what becomes of each value of a byte.
pub open spec fn tabulates(table: Seq<u32>, channel: (nat, nat)) -> bool {
    &&& table.len() == 256
    &&& forall|b: int|
        0 <= b < 256 ==> bits::single_value(#[trigger] table[b]) == normalized(
            b as u8,
            channel.0,
            channel.1,
        )
}

/// The numbers of one image: those of its pixels, and zero where it does not
/// reach.
pub open spec fn holds_image(
    t: Tensor,
    img: RgbImage,
    w: u32,
    h: u32,
    model: Model,
) -> bool {
    &&& t.valid()
    &&& t.shape@ =~= seq![1usize, 3usize, h as usize, w as usize]
    &&& forall|c: int, y: int, x: int|
        0 <= c < 3 && 0 <= y < h && 0 <= x < w ==> bits::single_value(
            #[trigger] t.data@[slot(w as int, h as int, c, y, x)],
        ) == place_value(img, channel(model, c), c, x, y)
}

/// The numbers of a channel, appended to those of the channels before it.
fn push_channel(
    data: &mut Vec<u32>,
    img: &RgbImage,
    w: u32,
    h: u32,
    c: usize,
    table: &Vec<u32>,
    Ghost(channel): Ghost<(nat, nat)>,
)
    requires
        img.valid(),
        c < 3,
        3 * w * h <= usize::MAX,
        old(data)@.len() == c * h * w,
        tabulates(table@, channel),
    ensures
        final(data)@.len() == (c + 1) * h * w,
        forall|i: int| 0 <= i < old(data)@.len() ==> #[trigger] final(data)@[i] == old(data)@[i],
        forall|y: int, x: int|
            0 <= y < h && 0 <= x < w ==> bits::single_value(
                #[trigger] final(data)@[slot(w as int, h as int, c as int, y, x)],
            ) == place_value(*img, channel, c as int, x, y),
{
    let ghost before = data@;
    let mut y: u32 = 0;
    proof {
        lemma_zero_bits();
        lemma_rows(c as int, h as int, w as int, 0);
    }
    while y < h
        invariant
            img.valid(),
            c < 3,
            3 * w * h <= usize::MAX,
            tabulates(table@, channel),
            bits::single_value(0) == float::Value::Finite(false, 0),
            before.len() == c * h * w,
            before.len() <= data@.len(),
            y <= h,
            data@.len() == slot(w as int, h as int, c as int, y as int, 0),
            forall|i: int| 0 <= i < before.len() ==> #[trigger] data@[i] == before[i],
            forall|j: int, x: int|
                0 <= j < y && 0 <= x < w ==> bits::single_value(
                    #[trigger] data@[slot(w as int, h as int, c as int, j, x)],
                ) == place_value(*img, channel, c as int, x, j),
        decreases h - y,
    {
        let mut x: u32 = 0;
        while x < w
            invariant
                img.valid(),
                c < 3,
                3 * w * h <= usize::MAX,
                tabulates(table@, channel),
                bits::single_value(0) == float::Value::Finite(false, 0),
                before.len() == c * h * w,
                before.len() <= data@.len(),
                y < h,
                x <= w,
                data@.len() == slot(w as int, h as int, c as int, y as int, x as int),
                forall|i: int| 0 <= i < before.len() ==> #[trigger] data@[i] == before[i],
                forall|j: int, i: int|
                    0 <= j <= y && 0 <= i < w && (j < y || i < x) ==> bits::single_value(
                        #[trigger] data@[slot(w as int, h as int, c as int, j, i)],
                    ) == place_value(*img, channel, c as int, i, j),
            decreases w - x,
        {
            let ghost held = data@;
            if x < img.width && y < img.height {
                data.push(table[img.get(x, y, c) as usize]);
            } else {
                data.push(0);
            }
            assert forall|j: int, i: int|
                0 <= j <= y && 0 <= i < w && (j < y || i < x + 1) implies bits::single_value(
                #[trigger] data@[slot(w as int, h as int, c as int, j, i)],
            ) == place_value(*img, channel, c as int, i, j) by {
                lemma_slot_order(w as int, h as int, c as int, j, i, y as int, x as int);
                if j < y || i < x {
                    assert(data@[slot(w as int, h as int, c as int, j, i)] == held[slot(
                        w as int,
                        h as int,
                        c as int,
                        j,
                        i,
                    )]);
                }
            }
            x = x + 1;
        }
        proof {
            lemma_rows(c as int, h as int, w as int, y as int);
        }
        y = y + 1;
    }
    proof {
        lemma_rows(c as int, h as int, w as int, h as int);
    }
}

/// Slots follow one another, row after row.
proof fn lemma_slot_order(w: int, h: int, c: int, j: int, i: int, y: int, x: int)
    requires
        0 <= i < w,
        0 <= x < w,
        0 <= j <= y,
        0 <= c,
        0 <= h,
    ensures
        j < y || (j == y && i < x) ==> slot(w, h, c, j, i) < slot(w, h, c, y, x),
        0 <= slot(w, h, c, j, i),
{
    assert(0 <= (c * h + j) * w) by (nonlinear_arith)
        requires
            0 <= c,
            0 <= h,
            0 <= j,
            0 <= w,
    ;
    if j < y {
        assert((c * h + j) * w + w <= (c * h + y) * w) by (nonlinear_arith)
            requires
                j + 1 <= y,
                w >= 0,
        ;
    }
}

/// The first slot of a row and of the row after it.
proof fn lemma_rows(c: int, h: int, w: int, y: int)
    ensures
        slot(w, h, c, y, w) == slot(w, h, c, y + 1, 0),
        slot(w, h, c, 0, 0) == c * h * w,
        slot(w, h, c, h, 0) == (c + 1) * h * w,
        slot(w, h, c, y, 0) == c * h * w + y * w,
{
    assert((c * h + (y + 1)) * w == (c * h + y) * w + w) by (nonlinear_arith);
    assert((c * h + h) * w == (c + 1) * h * w) by (nonlinear_arith);
    assert((c * h + y) * w == c * h * w + y * w) by (nonlinear_arith);
}

proof fn lemma_zero_bits()
    ensures
        bits::single_value(0) == float::Value::Finite(false, 0),
{
    rounding::lemma_pow2_zero(0);
}

/// What channels laid one after the other hold: each its own numbers.
proof fn lemma_channels(
    first: Seq<u32>,
    second: Seq<u32>,
    third: Seq<u32>,
    w: int,
    h: int,
    c: int,
    y: int,
    x: int,
)
    requires
        first.len() == 1 * h * w,
        second.len() == 2 * h * w,
        third.len() == 3 * h * w,
        forall|i: int| 0 <= i < first.len() ==> #[trigger] second[i] == first[i],
        forall|i: int| 0 <= i < second.len() ==> #[trigger] third[i] == second[i],
        0 <= c < 3,
        0 <= y < h,
        0 <= x < w,
    ensures
        0 <= slot(w, h, c, y, x) < third.len(),
        c == 0 ==> third[slot(w, h, c, y, x)] == first[slot(w, h, c, y, x)],
        c == 1 ==> third[slot(w, h, c, y, x)] == second[slot(w, h, c, y, x)],
{
    let k = slot(w, h, c, y, x);
    lemma_slot_order(w, h, c, y, x, y, x);
    lemma_slot_order(w, h, c, y, x, h, 0);
    lemma_rows(c, h, w, 0);
    assert(k < (c + 1) * h * w);
    assert(1 * h * w <= 2 * h * w && 2 * h * w <= 3 * h * w) by (nonlinear_arith)
        requires
            0 <= h,
            0 <= w,
    ;
    if c == 0 {
        assert(second[k] == first[k]);
        assert(third[k] == second[k]);
    } else if c == 1 {
        assert(third[k] == second[k]);
    }
}

/// The numbers of an image, channel after channel, given the tables of the
/// three channels.
fn fill(
    img: &RgbImage,
    w: u32,
    h: u32,
    red: &Vec<u32>,
    green: &Vec<u32>,
    blue: &Vec<u32>,
    Ghost(model): Ghost<Model>,
) -> (r: Tensor)
    requires
        img.valid(),
        3 * w * h <= usize::MAX,
        tabulates(red@, channel(model, 0)),
        tabulates(green@, channel(model, 1)),
        tabulates(blue@, channel(model, 2)),
    ensures
        holds_image(r, *img, w, h, model),
{
    let mut data: Vec<u32> = Vec::new();
    proof {
        assert(0 * h * w == 0) by (nonlinear_arith);
        assert(3 * h * w == 3 * w * h) by (nonlinear_arith);
    }
    push_channel(&mut data, img, w, h, 0, red, Ghost(channel(model, 0)));
    let ghost first = data@;
    push_channel(&mut data, img, w, h, 1, green, Ghost(channel(model, 1)));
    let ghost second = data@;
    push_channel(&mut data, img, w, h, 2, blue, Ghost(channel(model, 2)));
    let mut shape: Vec<usize> = Vec::new();
    shape.push(1);
    shape.push(3);
    shape.push(h as usize);
    shape.push(w as usize);
    let r = Tensor { shape: shape, data: data };
    proof {
        assert(r.shape@ =~= seq![1usize, 3usize, h as usize, w as usize]);
        lemma_extent(r.shape@, h as usize, w as usize);
        assert forall|c: int, y: int, x: int|
            0 <= c < 3 && 0 <= y < h && 0 <= x < w implies bits::single_value(
            #[trigger] r.data@[slot(w as int, h as int, c, y, x)],
        ) == place_value(*img, channel(model, c), c, x, y) by {
            lemma_channels(first, second, r.data@, w as int, h as int, c, y, x);
            if c == 0 {
                assert(r.data@[slot(w as int, h as int, 0, y, x)] == first[slot(
                    w as int,
                    h as int,
                    0,
                    y,
                    x,
                )]);
            } else if c == 1 {
                assert(r.data@[slot(w as int, h as int, 1, y, x)] == second[slot(
                    w as int,
                    h as int,
                    1,
                    y,
                    x,
                )]);
            }
        }
    }
    r
}

proof fn lemma_extent(shape: Seq<usize>, h: usize, w: usize)
    requires
        shape == seq![1usize, 3usize, h, w],
    ensures
        crate::tensor::extent(shape) == 3 * h * w,
{
    let a = shape.drop_last();
    let b = a.drop_last();
    let c = b.drop_last();
    let d = c.drop_last();
    assert(d.len() == 0);
    assert(crate::tensor::extent(d) == 1);
    assert(crate::tensor::extent(c) == 1 * 1);
    assert(crate::tensor::extent(b) == 1 * 3);
    assert(crate::tensor::extent(a) == 3 * h as nat);
    assert(crate::tensor::extent(shape) == (3 * h as nat) * w as nat);
}

/// The numbers of an image for the detector, of height `h` and width `w`.
pub fn to_nchw_normalized(img: &RgbImage, w: u32, h: u32) -> (r: Tensor)
    requires
        img.valid(),
        img.width <= w && img.height <= h || img.width == 0 || img.height == 0,
        3 * w * h <= usize::MAX,
    ensures
        holds_image(r, *img, w, h, Model::Detector),
{
    let red = channel_table(485, 229);
    let green = channel_table(456, 224);
    let blue = channel_table(406, 225);
    fill(img, w, h, &red, &green, &blue, Ghost(Model::Detector))
}

/// The numbers of an image for the recognizer, of height `h` and width `w`.
pub fn to_nchw_rec_normalized(img: &RgbImage, w: u32, h: u32) -> (r: Tensor)
    requires
        img.valid(),
        img.width <= w && img.height <= h || img.width == 0 || img.height == 0,
        3 * w * h <= usize::MAX,
    ensures
        holds_image(r, *img, w, h, Model::Recognizer),
{
    let table = channel_table(500, 500);
    fill(img, w, h, &table, &table, &table, Ghost(Model::Recognizer))
}

/// One half is a number of the 32-bit format.
proof fn lemma_half()
    ensures
        float::ratio(float::single_format(), 500, 1000) == float::Value::Finite(
            false,
            rounding::pow2(148),
        ),
        rounding::pow2(149) == 2 * rounding::pow2(148),
        rounding::pow2(148) >= 1,
{
    let half = rounding::pow2(148);
    single::lemma_one();
    rounding::lemma_pow2_pos(148);
    assert(500 * rounding::pow2(149) == 1000 * half);
    rounding::lemma_nearest_scale(half, 1, 24, 1000);
    rounding::lemma_pow2_adds(23, 125);
    rounding::lemma_nearest_in_binade(rounding::pow2(23), 1, 24, 125);
    rounding::lemma_half_even_from(rounding::pow2(23), 1, rounding::pow2(23), 0);
    assert(rounding::pow2(23) * 1 == rounding::pow2(23));
    rounding::lemma_pow2_monotone(149, 277);
}

/// The recognizer takes numbers from minus one to one.
pub proof fn recognizer_numbers_lie_within_one(byte: u8)
    ensures
        normalized(byte, 500, 500) matches float::Value::Finite(_, units) && units
            <= rounding::pow2(float::single_format().one()),
{
    let f = float::single_format();
    let one = rounding::pow2(149);
    let half = rounding::pow2(148);
    lemma_half();
    single::lemma_one();
    single::lemma_small_natural(byte as nat);
    single::lemma_small_natural(255);
    rounding::lemma_pow2_monotone(150, 277);
    let n = (byte as nat * one) * one;
    assert(255 * one > 0 && n <= (255 * one) * one) by (nonlinear_arith)
        requires
            n == (byte as nat * one) * one,
            byte <= 255,
            one >= 1,
    ;
    rounding::lemma_nearest_at_most(n, 255 * one, 24, 149);
    let share = rounding::nearest(n, 255 * one, 24);
    let total = share - half;
    if total > 0 {
        rounding::lemma_nearest_at_most(total as nat, 1, 24, 148);
    } else if total < 0 {
        rounding::lemma_nearest_at_most((-total) as nat, 1, 24, 148);
    }
    let off = rounding::nearest(
        (if total > 0 {
            total
        } else {
            -total
        }) as nat,
        1,
        24,
    );
    let units: nat = if total == 0 {
        0
    } else {
        off
    };
    assert(units * one <= half * one) by (nonlinear_arith)
        requires
            units <= half,
    ;
    rounding::lemma_nearest_at_most(units * one, half, 24, 149);
}

/// Each number that a model is given stands for one byte of the image, and each
/// in its place: channel after channel, row after row, from left to right. The
/// detector takes red, green and blue less 0.485, 0.456 and 0.406, in units of
/// 0.229, 0.224 and 0.225; the recognizer all three less one half, in units of
/// one half. Where the image does not reach there is zero.
pub proof fn each_number_stands_for_one_byte(
    t: Tensor,
    img: RgbImage,
    w: u32,
    h: u32,
    model: Model,
    c: int,
    y: int,
    x: int,
)
    requires
        holds_image(t, img, w, h, model),
        img.valid(),
        0 <= c < 3,
        0 <= y < h,
        0 <= x < w,
    ensures
        t.shape@ == seq![1usize, 3usize, h as usize, w as usize],
        t.data@.len() == 3 * h * w,
        ({
            let v = bits::single_value(t.data@[(c * h + y) * w + x]);
            let byte = img.data@[(y * img.width + x) * 3 + c];
            if x >= img.width || y >= img.height {
                v == float::Value::Finite(false, 0)
            } else if model is Recognizer {
                v == normalized(byte, 500, 500)
            } else if c == 0 {
                v == normalized(byte, 485, 229)
            } else if c == 1 {
                v == normalized(byte, 456, 224)
            } else {
                v == normalized(byte, 406, 225)
            }
        }),
{
    lemma_extent(t.shape@, h as usize, w as usize);
    assert(t.data@[slot(w as int, h as int, c, y, x)] == t.data@[(c * h + y) * w + x]);
}

} // verus!
