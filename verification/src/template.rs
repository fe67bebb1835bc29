//! Finding a small image in a larger one.
use vstd::prelude::*;
use crate::arithmetic;
use crate::bits;
use crate::diff;
use crate::float;
use crate::raster;
use crate::rounding;
use crate::float::Float;
use crate::raster::RgbaImage;

verus! {

/// The pixel of the template counts: it is at least half opaque.
pub open spec fn solid(needle: RgbaImage, nx: int, ny: int) -> bool {
    needle.byte(nx, ny, 3) >= 128
}

/// How alike a pixel of the template and the pixel of the image under it are,
/// from 0 to 765.
pub open spec fn likeness(
    haystack: RgbaImage,
    needle: RgbaImage,
    x: int,
    y: int,
    nx: int,
    ny: int,
) -> int {
    765 - diff::distance(haystack.byte(x + nx, y + ny, 0), needle.byte(nx, ny, 0)) - diff::distance(
        haystack.byte(x + nx, y + ny, 1),
        needle.byte(nx, ny, 1),
    ) - diff::distance(haystack.byte(x + nx, y + ny, 2), needle.byte(nx, ny, 2))
}

/// How many of the first `n` pixels of the template count, row after row.
pub open spec fn count_solid(needle: RgbaImage, n: nat) -> nat
    decreases n,
{
    if n == 0 {
        0
    } else {
        let i = n - 1;
        let before = count_solid(needle, i as nat);
        if solid(needle, i % (needle.width as int), i / (needle.width as int)) {
            before + 1
        } else {
            before
        }
    }
}

/// The likeness of the first `n` pixels of the template that count, in all.
pub open spec fn sum_likeness(
    haystack: RgbaImage,
    needle: RgbaImage,
    x: int,
    y: int,
    n: nat,
) -> int
    decreases n,
{
    if n == 0 {
        0
    } else {
        let i = n - 1;
        let nx = i % (needle.width as int);
        let ny = i / (needle.width as int);
        let before = sum_likeness(haystack, needle, x, y, i as nat);
        if solid(needle, nx, ny) {
            before + likeness(haystack, needle, x, y, nx, ny)
        } else {
            before
        }
    }
}

/// The pixels of the template that count.
pub open spec fn solid_pixels(needle: RgbaImage) -> nat {
    count_solid(needle, (needle.width * needle.height) as nat)
}

/// How well the template matches at a place.
pub open spec fn score(haystack: RgbaImage, needle: RgbaImage, x: int, y: int) -> int {
    sum_likeness(haystack, needle, x, y, (needle.width * needle.height) as nat)
}

/// A score as a share of the highest that so many pixels can reach.
pub open spec fn confidence(score: nat, pixels: nat) -> float::Value {
    let f = float::double_format();
    float::quotient(
        f,
        float::natural(f, score),
        float::product(f, float::natural(f, pixels), float::natural(f, 765)),
    )
}

/// The confidence of a match at a place.
pub open spec fn confidence_at(haystack: RgbaImage, needle: RgbaImage, x: int, y: int) -> float::Value {
    confidence(score(haystack, needle, x, y) as nat, solid_pixels(needle))
}

/// The template lies in the image when put at this place.
pub open spec fn fits(haystack: RgbaImage, needle: RgbaImage, x: int, y: int) -> bool {
    0 <= x && x + needle.width <= haystack.width && 0 <= y && y + needle.height <= haystack.height
}

/// The template matches at this place with the confidence asked for.
pub open spec fn matches_at(
    haystack: RgbaImage,
    needle: RgbaImage,
    threshold: float::Value,
    x: int,
    y: int,
) -> bool {
    &&& fits(haystack, needle, x, y)
    &&& solid_pixels(needle) > 0
    &&& float::at_least(confidence_at(haystack, needle, x, y), threshold)
}

/// One place comes before another, row after row.
pub open spec fn before(x: int, y: int, x2: int, y2: int) -> bool {
    y < y2 || (y == y2 && x < x2)
}

/// A match that no other beats: those before it have less confidence, those
/// after it no more. Places are looked at as far as `x2`, `y2`.
pub open spec fn best_match(
    haystack: RgbaImage,
    needle: RgbaImage,
    threshold: float::Value,
    found: Option<(u32, u32, float::Value)>,
    x2: int,
    y2: int,
) -> bool {
    match found {
        None => forall|i: int, j: int|
            before(i, j, x2, y2) ==> !(#[trigger] matches_at(haystack, needle, threshold, i, j)),
        Some((x, y, c)) => {
            &&& before(x as int, y as int, x2, y2)
            &&& matches_at(haystack, needle, threshold, x as int, y as int)
            &&& c == confidence_at(haystack, needle, x as int, y as int)
            &&& forall|i: int, j: int|
                before(i, j, x2, y2) && #[trigger] matches_at(haystack, needle, threshold, i, j)
                    ==> {
                    &&& !float::less(c, confidence_at(haystack, needle, i, j))
                    &&& before(i, j, x as int, y as int) ==> float::less(
                        confidence_at(haystack, needle, i, j),
                        c,
                    )
                }
        },
    }
}

/// The best of the first `k` places of an image, row after row.
pub open spec fn best_of(
    haystack: RgbaImage,
    needle: RgbaImage,
    threshold: float::Value,
    k: nat,
) -> Option<(u32, u32, float::Value)>
    decreases k,
{
    if k == 0 {
        None
    } else {
        let earlier = best_of(haystack, needle, threshold, (k - 1) as nat);
        let x = (k - 1) % (haystack.width + 1);
        let y = (k - 1) / (haystack.width + 1);
        let c = confidence_at(haystack, needle, x, y);
        if matches_at(haystack, needle, threshold, x, y) && (earlier matches Some(e)
            ==> float::less(e.2, c)) {
            Some((x as u32, y as u32, c))
        } else {
            earlier
        }
    }
}

/// The best match of a template in an image: nothing, where it matches nowhere.
pub open spec fn best(haystack: RgbaImage, needle: RgbaImage, threshold: float::Value) -> Option<
    (u32, u32, float::Value),
> {
    best_of(
        haystack,
        needle,
        threshold,
        ((haystack.width + 1) * (haystack.height + 1)) as nat,
    )
}

/// The order of numbers goes on from one to the next.
proof fn lemma_less(a: float::Value, b: float::Value, c: float::Value)
    requires
        !float::less(b, a),
        float::less(b, c),
        !(a is Nan),
    ensures
        float::less(a, c),
        !float::less(c, a),
{
}

proof fn lemma_best_of(haystack: RgbaImage, needle: RgbaImage, threshold: float::Value, k: nat)
    requires
        k <= (haystack.width + 1) * (haystack.height + 1),
    ensures
        best_match(
            haystack,
            needle,
            threshold,
            best_of(haystack, needle, threshold, k),
            k as int % (haystack.width + 1),
            k as int / (haystack.width + 1),
        ),
    decreases k,
{
    let w = haystack.width + 1;
    if k == 0 {
        vstd::arithmetic::div_mod::lemma_div_basics(w);
        vstd::arithmetic::div_mod::lemma_small_mod(0, w as nat);
        assert forall|i: int, j: int| before(i, j, 0, 0) implies !(#[trigger] matches_at(
            haystack,
            needle,
            threshold,
            i,
            j,
        )) by {}
    } else {
        let n = k - 1;
        lemma_best_of(haystack, needle, threshold, n as nat);
        let (x, y) = (n % w, n / w);
        let (x2, y2) = (k as int % w, k as int / w);
        vstd::arithmetic::div_mod::lemma_fundamental_div_mod(n, w);
        vstd::arithmetic::div_mod::lemma_fundamental_div_mod(k as int, w);
        if x + 1 < w {
            vstd::arithmetic::div_mod::lemma_fundamental_div_mod_converse(k as int, w, y, x + 1);
        } else {
            assert(w * y + w == w * (y + 1)) by (nonlinear_arith);
            vstd::arithmetic::div_mod::lemma_fundamental_div_mod_converse(k as int, w, y + 1, 0);
        }
        assert(y < haystack.height + 1) by (nonlinear_arith)
            requires
                n == w * y + x,
                0 <= x < w,
                n < w * (haystack.height + 1),
        ;
        assert(y >= 0) by (nonlinear_arith)
            requires
                n == w * y + x,
                0 <= x < w,
                n >= 0,
        ;
        let earlier = best_of(haystack, needle, threshold, n as nat);
        let here = confidence_at(haystack, needle, x, y);
        // The places before the next one are those before this one, and this one.
        assert forall|i: int, j: int| #[trigger]
            matches_at(haystack, needle, threshold, i, j) implies before(i, j, x2, y2) == (before(
            i,
            j,
            x,
            y,
        ) || (i == x && j == y)) by {}
        match best_of(haystack, needle, threshold, k) {
            Some((u, v, c)) => {
                if earlier matches Some(e) && !(matches_at(haystack, needle, threshold, x, y)
                    && float::less(e.2, here)) {
                    assert(before(u as int, v as int, x, y));
                } else {
                    assert forall|i: int, j: int|
                        before(i, j, x2, y2) && #[trigger] matches_at(
                            haystack,
                            needle,
                            threshold,
                            i,
                            j,
                        ) implies {
                        &&& !float::less(c, confidence_at(haystack, needle, i, j))
                        &&& before(i, j, u as int, v as int) ==> float::less(
                            confidence_at(haystack, needle, i, j),
                            c,
                        )
                    } by {
                        if before(i, j, x, y) {
                            if let Some(e) = earlier {
                                lemma_less(confidence_at(haystack, needle, i, j), e.2, c);
                            }
                        }
                    }
                }
            },
            None => {},
        }
    }
}

/// There is a best match, or there is none at all.
pub proof fn the_best_match_is_the_best(
    haystack: RgbaImage,
    needle: RgbaImage,
    threshold: float::Value,
)
    ensures
        best_match(
            haystack,
            needle,
            threshold,
            best(haystack, needle, threshold),
            0,
            haystack.height + 1,
        ),
{
    let w = haystack.width + 1;
    let k = w * (haystack.height + 1);
    assert(k >= 0) by (nonlinear_arith)
        requires
            k == w * (haystack.height + 1),
            w >= 0,
    ;
    lemma_best_of(haystack, needle, threshold, k as nat);
    vstd::arithmetic::div_mod::lemma_fundamental_div_mod_converse(k, w, haystack.height + 1, 0);
}

/// There is but one best match.
pub proof fn the_best_match_is_one(
    haystack: RgbaImage,
    needle: RgbaImage,
    threshold: float::Value,
    found: Option<(u32, u32, float::Value)>,
)
    requires
        best_match(haystack, needle, threshold, found, 0, haystack.height + 1),
    ensures
        best(haystack, needle, threshold) == found,
{
    let other = best(haystack, needle, threshold);
    the_best_match_is_the_best(haystack, needle, threshold);
    match (found, other) {
        (Some((x, y, c)), Some((u, v, d))) => {
            assert(matches_at(haystack, needle, threshold, x as int, y as int));
            assert(matches_at(haystack, needle, threshold, u as int, v as int));
            if before(x as int, y as int, u as int, v as int) {
                assert(float::less(c, d));
            } else if before(u as int, v as int, x as int, y as int) {
                assert(float::less(d, c));
            }
        },
        (Some((x, y, _)), None) => {
            assert(matches_at(haystack, needle, threshold, x as int, y as int));
        },
        (None, Some((u, v, _))) => {
            assert(matches_at(haystack, needle, threshold, u as int, v as int));
        },
        (None, None) => {},
    }
}

fn distance_of(a: u8, b: u8) -> (r: u64)
    ensures
        r == diff::distance(a, b),
        r <= 255,
{
    if a >= b {
        (a - b) as u64
    } else {
        (b - a) as u64
    }
}

/// The pixels of an image up to one of a row can be counted.
proof fn lemma_pixels(width: u32, row: u32)
    ensures
        row * width + width <= u32::MAX * 0x1_0000_0000,
{
    assert(row * width + width <= u32::MAX * 0x1_0000_0000) by (nonlinear_arith)
        requires
            row <= u32::MAX,
            width <= u32::MAX,
    ;
}

/// Score and number of pixels that count, at a place.
fn score_at(haystack: &RgbaImage, needle: &RgbaImage, x: u32, y: u32) -> (r: (u128, u64))
    requires
        haystack.valid(),
        needle.valid(),
        fits(*haystack, *needle, x as int, y as int),
    ensures
        r.0 == score(*haystack, *needle, x as int, y as int),
        r.1 == solid_pixels(*needle),
        r.0 <= 765 * r.1,
{
    let mut sum: u128 = 0;
    let mut total: u64 = 0;
    let mut ny: u32 = 0;
    let ghost w = needle.width as int;
    while ny < needle.height
        invariant
            haystack.valid(),
            needle.valid(),
            fits(*haystack, *needle, x as int, y as int),
            w == needle.width,
            ny <= needle.height,
            sum == sum_likeness(*haystack, *needle, x as int, y as int, (ny * w) as nat),
            total == count_solid(*needle, (ny * w) as nat),
            sum <= 765 * total,
            total <= ny * w,
        decreases needle.height - ny,
    {
        let mut nx: u32 = 0;
        while nx < needle.width
            invariant
                haystack.valid(),
                needle.valid(),
                fits(*haystack, *needle, x as int, y as int),
                w == needle.width,
                ny < needle.height,
                nx <= needle.width,
                sum == sum_likeness(*haystack, *needle, x as int, y as int, (ny * w + nx) as nat),
                total == count_solid(*needle, (ny * w + nx) as nat),
                sum <= 765 * total,
                total <= ny * w + nx,
            decreases needle.width - nx,
        {
            proof {
                raster::lemma_index(w, needle.height as int, 4, nx as int, ny as int, 0);
                vstd::arithmetic::div_mod::lemma_fundamental_div_mod_converse(
                    ny * w + nx,
                    w,
                    ny as int,
                    nx as int,
                );
            }
            if needle.get(nx, ny, 3) >= 128 {
                let apart: u64 = distance_of(
                    haystack.get(x + nx, y + ny, 0),
                    needle.get(nx, ny, 0),
                ) + distance_of(haystack.get(x + nx, y + ny, 1), needle.get(nx, ny, 1))
                    + distance_of(haystack.get(x + nx, y + ny, 2), needle.get(nx, ny, 2));
                proof {
                    lemma_pixels(needle.width, ny);
                }
                total = total + 1;
                sum = sum + (765 - apart) as u128;
            }
            nx = nx + 1;
        }
        assert((ny + 1) * w == ny * w + w) by (nonlinear_arith);
        ny = ny + 1;
    }
    proof {
        vstd::arithmetic::mul::lemma_mul_is_commutative(needle.height as int, w);
    }
    (sum, total)
}

/// The confidence of a score.
fn confidence_of(score: u128, pixels: u64) -> (r: Float)
    requires
        score <= 765 * pixels,
    ensures
        r.valid(float::double_format()),
        r.value(float::double_format()) == confidence(score as nat, pixels as nat),
{
    let f = float::double();
    let highest = Float::from_natural(f, pixels).times(f, Float::from_natural(f, 765));
    proof {
        rounding::lemma_pow2_zero(1);
    }
    float::round(f, false, score, 1, 0).over(f, highest)
}

/// The best match so far, as contracts speak of it.
spec fn found(best: Option<(u32, u32, Float)>) -> Option<(u32, u32, float::Value)> {
    match best {
        None => None,
        Some((x, y, c)) => Some((x, y, c.value(float::double_format()))),
    }
}

/// What was found, its confidence as a number.
pub open spec fn decoded(r: Option<(u32, u32, u64)>) -> Option<(u32, u32, float::Value)> {
    match r {
        None => None,
        Some((x, y, c)) => Some((x, y, bits::double_value(c))),
    }
}

/// A match is told in one way only.
proof fn lemma_told_once(x: u32, y: u32, c: u64)
    requires
        !(bits::double_value(c) is Nan),
    ensures
        forall|other: Option<(u32, u32, u64)>| #[trigger]
            decoded(other) == decoded(Some((x, y, c))) ==> other == Some((x, y, c)),
{
    assert forall|other: Option<(u32, u32, u64)>| #[trigger]
        decoded(other) == decoded(Some((x, y, c))) implies other == Some((x, y, c)) by {
        if let Some((_, _, d)) = other {
            bits::a_number_has_one_encoding(c, d);
        }
    }
}

/// Where the template matches best, and with what confidence, as the encoding
/// of a 64-bit number: the first place of those whose confidence none passes.
/// Nothing, if the confidence reaches the threshold nowhere.
pub fn find_template_match(
    haystack: &RgbaImage,
    needle: &RgbaImage,
    threshold: u64,
) -> (r: Option<(u32, u32, u64)>)
    requires
        haystack.valid(),
        needle.valid(),
    ensures
        best_match(
            *haystack,
            *needle,
            bits::double_value(threshold),
            decoded(r),
            0,
            haystack.height + 1,
        ),
        decoded(r) == best(*haystack, *needle, bits::double_value(threshold)),
        forall|other: Option<(u32, u32, u64)>| #[trigger]
            decoded(other) == best(*haystack, *needle, bits::double_value(threshold)) ==> other
                == r,
{
    if needle.width > haystack.width || needle.height > haystack.height {
        proof {
            the_best_match_is_one(*haystack, *needle, bits::double_value(threshold), None);
        }
        return None;
    }
    let f = float::double();
    let asked = bits::double_from_bits(threshold);
    let ghost t = bits::double_value(threshold);
    let last_x: u32 = haystack.width - needle.width;
    let last_y: u32 = haystack.height - needle.height;
    let mut best: Option<(u32, u32, Float)> = None;
    let mut y: u64 = 0;
    while y <= last_y as u64
        invariant
            f == float::double_format(),
            f.valid(),
            asked.valid(f),
            asked.value(f) == t,
            haystack.valid(),
            needle.valid(),
            last_x == haystack.width - needle.width,
            last_y == haystack.height - needle.height,
            y <= last_y + 1,
            best matches Some(b) ==> b.2.valid(f),
            best_match(*haystack, *needle, t, found(best), 0, y as int),
        decreases last_y + 1 - y,
    {
        let mut x: u64 = 0;
        while x <= last_x as u64
            invariant
                f == float::double_format(),
                f.valid(),
                asked.valid(f),
                asked.value(f) == t,
                haystack.valid(),
                needle.valid(),
                last_x == haystack.width - needle.width,
                last_y == haystack.height - needle.height,
                y <= last_y,
                x <= last_x + 1,
                best matches Some(b) ==> b.2.valid(f),
                best_match(*haystack, *needle, t, found(best), x as int, y as int),
            decreases last_x + 1 - x,
        {
            let (sum, total) = score_at(haystack, needle, x as u32, y as u32);
            let c = confidence_of(sum, total);
            let ghost old_best = best;
            if total > 0 && c.reaches(f, asked) {
                let better = match best {
                    None => true,
                    Some((_, _, b)) => b.below(f, c),
                };
                if better {
                    best = Some((x as u32, y as u32, c));
                }
            }
            proof {
                lemma_next(*haystack, *needle, t, found(old_best), found(best), x as int, y as int);
            }
            x = x + 1;
        }
        proof {
            lemma_next_row(*haystack, *needle, t, found(best), x as int, y as int);
        }
        y = y + 1;
    }
    proof {
        lemma_last_row(*haystack, *needle, t, found(best), y as int);
        the_best_match_is_one(*haystack, *needle, t, found(best));
    }
    match best {
        None => None,
        Some((x, y, c)) => {
            proof {
                bits::double_encoding_reads_back(c);
            }
            let told = bits::double_to_bits(c);
            proof {
                lemma_told_once(x, y, told);
            }
            Some((x, y, told))
        },
    }
}

/// Looking at one more place.
proof fn lemma_next(
    haystack: RgbaImage,
    needle: RgbaImage,
    t: float::Value,
    old_best: Option<(u32, u32, float::Value)>,
    best: Option<(u32, u32, float::Value)>,
    x: int,
    y: int,
)
    requires
        best_match(haystack, needle, t, old_best, x, y),
        0 <= x <= u32::MAX,
        0 <= y <= u32::MAX,
        ({
            let c = confidence_at(haystack, needle, x, y);
            if matches_at(haystack, needle, t, x, y) && (old_best matches Some(b) ==> float::less(
                b.2,
                c,
            )) {
                best == Some((x as u32, y as u32, c))
            } else {
                best == old_best
            }
        }),
    ensures
        best_match(haystack, needle, t, best, x + 1, y),
{
    let c = confidence_at(haystack, needle, x, y);
    assert forall|i: int, j: int| before(i, j, x + 1, y) implies before(i, j, x, y) || (i == x && j
        == y) by {}
    match best {
        None => {
            assert forall|i: int, j: int| before(i, j, x + 1, y) implies !(
            #[trigger] matches_at(haystack, needle, t, i, j)) by {}
        },
        Some((bx, by, bc)) => {
            assert forall|i: int, j: int|
                before(i, j, x + 1, y) && #[trigger] matches_at(haystack, needle, t, i, j) implies ({
                &&& !float::less(bc, confidence_at(haystack, needle, i, j))
                &&& before(i, j, bx as int, by as int) ==> float::less(
                    confidence_at(haystack, needle, i, j),
                    bc,
                )
            }) by {
                let d = confidence_at(haystack, needle, i, j);
                if i == x && j == y {
                } else {
                    assert(before(i, j, x, y));
                }
            }
        },
    }
}

proof fn lemma_next_row(
    haystack: RgbaImage,
    needle: RgbaImage,
    t: float::Value,
    best: Option<(u32, u32, float::Value)>,
    x: int,
    y: int,
)
    requires
        best_match(haystack, needle, t, best, x, y),
        x + needle.width > haystack.width,
    ensures
        best_match(haystack, needle, t, best, 0, y + 1),
{
    assert forall|i: int, j: int|
        before(i, j, 0, y + 1) && #[trigger] matches_at(
            haystack,
            needle,
            t,
            i,
            j,
        ) implies before(i, j, x, y) by {}
}

proof fn lemma_last_row(
    haystack: RgbaImage,
    needle: RgbaImage,
    t: float::Value,
    best: Option<(u32, u32, float::Value)>,
    y: int,
)
    requires
        best_match(haystack, needle, t, best, 0, y),
        y + needle.height > haystack.height,
        y <= haystack.height + 1,
    ensures
        best_match(haystack, needle, t, best, 0, haystack.height + 1),
{
    assert forall|i: int, j: int|
        before(i, j, 0, haystack.height + 1) && #[trigger] matches_at(
            haystack,
            needle,
            t,
            i,
            j,
        ) implies before(i, j, 0, y) by {}
}

/// Every pixel of the template that counts has the colour of the pixel of the
/// image under it.
pub open spec fn covers_exactly(haystack: RgbaImage, needle: RgbaImage, x: int, y: int) -> bool {
    forall|i: int|
        0 <= i < needle.width * needle.height && #[trigger] solid(
            needle,
            i % (needle.width as int),
            i / (needle.width as int),
        ) ==> likeness(
            haystack,
            needle,
            x,
            y,
            i % (needle.width as int),
            i / (needle.width as int),
        ) == 765
}

/// No place scores more than the highest score, and a place reaches it just if
/// the template covers it exactly.
pub proof fn the_highest_score_is_an_exact_cover(
    haystack: RgbaImage,
    needle: RgbaImage,
    x: int,
    y: int,
)
    ensures
        score(haystack, needle, x, y) <= 765 * solid_pixels(needle),
        score(haystack, needle, x, y) == 765 * solid_pixels(needle) <==> covers_exactly(
            haystack,
            needle,
            x,
            y,
        ),
{
    lemma_highest(haystack, needle, x, y, (needle.width * needle.height) as nat);
}

proof fn lemma_highest(haystack: RgbaImage, needle: RgbaImage, x: int, y: int, n: nat)
    ensures
        sum_likeness(haystack, needle, x, y, n) <= 765 * count_solid(needle, n),
        sum_likeness(haystack, needle, x, y, n) == 765 * count_solid(needle, n) <==> (forall|i: int|
            0 <= i < n && #[trigger] solid(
                needle,
                i % (needle.width as int),
                i / (needle.width as int),
            ) ==> likeness(
                haystack,
                needle,
                x,
                y,
                i % (needle.width as int),
                i / (needle.width as int),
            ) == 765),
    decreases n,
{
    if n > 0 {
        let i = n - 1;
        lemma_highest(haystack, needle, x, y, i as nat);
        let nx = i % (needle.width as int);
        let ny = i / (needle.width as int);
        if sum_likeness(haystack, needle, x, y, n) == 765 * count_solid(needle, n) {
            assert forall|k: int|
                0 <= k < n && #[trigger] solid(
                    needle,
                    k % (needle.width as int),
                    k / (needle.width as int),
                ) implies likeness(
                haystack,
                needle,
                x,
                y,
                k % (needle.width as int),
                k / (needle.width as int),
            ) == 765 by {}
        }
    }
}

/// Scores are not negative.
proof fn lemma_score(haystack: RgbaImage, needle: RgbaImage, x: int, y: int, n: nat)
    ensures
        sum_likeness(haystack, needle, x, y, n) >= 0,
    decreases n,
{
    if n > 0 {
        lemma_score(haystack, needle, x, y, (n - 1) as nat);
    }
}

/// Where the template covers the image exactly the confidence is one. Beyond
/// `2^53` pixels their number is rounded, and so may be the confidence.
pub proof fn an_exact_cover_is_certain(haystack: RgbaImage, needle: RgbaImage, x: int, y: int)
    requires
        covers_exactly(haystack, needle, x, y),
        0 < solid_pixels(needle) <= 0x20_0000_0000_0000,
    ensures
        confidence_at(haystack, needle, x, y) == float::natural(float::double_format(), 1),
{
    the_highest_score_is_an_exact_cover(haystack, needle, x, y);
    lemma_confidence(765 * solid_pixels(needle), solid_pixels(needle));
}

/// The confidence of a match lies between zero and one. Beyond `2^53` pixels
/// their number is rounded, and the confidence may pass one by the least step.
pub proof fn a_confidence_lies_between_zero_and_one(
    haystack: RgbaImage,
    needle: RgbaImage,
    x: int,
    y: int,
)
    requires
        0 < solid_pixels(needle) <= 0x20_0000_0000_0000,
    ensures
        confidence_at(haystack, needle, x, y) matches float::Value::Finite(negative, units)
            && !negative && units <= rounding::pow2(float::double_format().one()),
{
    the_highest_score_is_an_exact_cover(haystack, needle, x, y);
    lemma_score(haystack, needle, x, y, (needle.width * needle.height) as nat);
    lemma_confidence(score(haystack, needle, x, y) as nat, solid_pixels(needle));
}

/// A template that stands in the image as it is is found, with full confidence,
/// as long as no more than that is asked for.
pub proof fn a_template_that_is_there_is_found(
    haystack: RgbaImage,
    needle: RgbaImage,
    threshold: float::Value,
    found: Option<(u32, u32, float::Value)>,
    x: int,
    y: int,
)
    requires
        best_match(haystack, needle, threshold, found, 0, haystack.height + 1),
        fits(haystack, needle, x, y),
        covers_exactly(haystack, needle, x, y),
        0 < solid_pixels(needle) <= 0x20_0000_0000_0000,
        float::at_least(float::natural(float::double_format(), 1), threshold),
    ensures
        found matches Some((u, v, c)) && c == float::natural(float::double_format(), 1),
{
    let one = float::natural(float::double_format(), 1);
    an_exact_cover_is_certain(haystack, needle, x, y);
    assert(matches_at(haystack, needle, threshold, x, y));
    assert(before(x, y, 0, haystack.height + 1));
    match found {
        Some((u, v, c)) => {
            a_confidence_lies_between_zero_and_one(haystack, needle, u as int, v as int);
            let f = float::double_format();
            float::lemma_power_120();
            rounding::lemma_pow2_pos(f.one());
            arithmetic::lemma_natural_exact(f, 1);
            assert(1 * rounding::pow2(f.one()) == rounding::pow2(f.one()));
            assert(!float::less(c, one));
        },
        None => {},
    }
}

/// Two images of one size have the same colours. Their alpha may differ.
pub open spec fn same_colours(a: RgbaImage, b: RgbaImage) -> bool {
    &&& a.width == b.width
    &&& a.height == b.height
    &&& forall|x: int, y: int, c: int|
        0 <= x < a.width && 0 <= y < a.height && 0 <= c < 3 ==> #[trigger] a.byte(x, y, c)
            == b.byte(x, y, c)
}

/// In two templates of one size the same pixels count, and those that do have
/// the same colours.
pub open spec fn same_template(a: RgbaImage, b: RgbaImage) -> bool {
    &&& a.width == b.width
    &&& a.height == b.height
    &&& forall|x: int, y: int|
        0 <= x < a.width && 0 <= y < a.height ==> #[trigger] solid(a, x, y) == solid(b, x, y)
    &&& forall|x: int, y: int, c: int|
        0 <= x < a.width && 0 <= y < a.height && solid(a, x, y) && 0 <= c < 3
            ==> #[trigger] a.byte(x, y, c) == b.byte(x, y, c)
}

proof fn lemma_same(
    haystack: RgbaImage,
    other: RgbaImage,
    needle: RgbaImage,
    twin: RgbaImage,
    x: int,
    y: int,
    n: nat,
)
    requires
        same_colours(haystack, other),
        same_template(needle, twin),
        n <= needle.width * needle.height,
    ensures
        count_solid(needle, n) == count_solid(twin, n),
        fits(haystack, needle, x, y) ==> sum_likeness(haystack, needle, x, y, n) == sum_likeness(
            other,
            twin,
            x,
            y,
            n,
        ),
    decreases n,
{
    if n > 0 {
        let i = n - 1;
        let w = needle.width as int;
        let h = needle.height as int;
        lemma_same(haystack, other, needle, twin, x, y, i as nat);
        assert(w > 0) by (nonlinear_arith)
            requires
                0 <= i < w * h,
                w >= 0,
        ;
        let (nx, ny) = (i % w, i / w);
        vstd::arithmetic::div_mod::lemma_fundamental_div_mod(i, w);
        assert(0 <= nx < w && 0 <= ny < h) by (nonlinear_arith)
            requires
                w > 0,
                0 <= i < w * h,
                i == w * ny + nx,
                0 <= nx < w,
        ;
        assert(solid(needle, nx, ny) == solid(twin, nx, ny));
        if solid(needle, nx, ny) && fits(haystack, needle, x, y) {
            assert forall|c: int| 0 <= c < 3 implies #[trigger] needle.byte(nx, ny, c) == twin.byte(
                nx,
                ny,
                c,
            ) && haystack.byte(x + nx, y + ny, c) == other.byte(x + nx, y + ny, c) by {}
            assert(likeness(haystack, needle, x, y, nx, ny) == likeness(other, twin, x, y, nx, ny))
                by {
                assert(needle.byte(nx, ny, 0) == twin.byte(nx, ny, 0));
                assert(needle.byte(nx, ny, 1) == twin.byte(nx, ny, 1));
                assert(needle.byte(nx, ny, 2) == twin.byte(nx, ny, 2));
            }
        }
    }
}

/// What is found does not depend on the alpha of the image, nor on the colours
/// of the template's pixels that do not count, nor on how opaque those are that
/// do.
pub proof fn only_what_counts_is_looked_at(
    haystack: RgbaImage,
    other: RgbaImage,
    needle: RgbaImage,
    twin: RgbaImage,
    threshold: float::Value,
)
    requires
        same_colours(haystack, other),
        same_template(needle, twin),
    ensures
        best(haystack, needle, threshold) == best(other, twin, threshold),
{
    let n = (needle.width * needle.height) as nat;
    let found = best(haystack, needle, threshold);
    the_best_match_is_the_best(haystack, needle, threshold);
    assert forall|i: int, j: int|
        #![trigger matches_at(other, twin, threshold, i, j)]
        #![trigger matches_at(haystack, needle, threshold, i, j)]
        matches_at(haystack, needle, threshold, i, j) == matches_at(other, twin, threshold, i, j)
            && (fits(haystack, needle, i, j) ==> confidence_at(haystack, needle, i, j)
            == confidence_at(other, twin, i, j)) by {
        lemma_same(haystack, other, needle, twin, i, j, n);
    }
    assert(best_match(other, twin, threshold, found, 0, other.height + 1));
    the_best_match_is_one(other, twin, threshold, found);
}

/// Asking for less confidence does not change what is found: where there is a
/// match, the same one is found with any lower threshold.
pub proof fn a_match_stands_under_a_lower_threshold(
    haystack: RgbaImage,
    needle: RgbaImage,
    threshold: float::Value,
    lower: float::Value,
)
    requires
        float::at_least(threshold, lower),
        best(haystack, needle, threshold) is Some,
    ensures
        best(haystack, needle, lower) == best(haystack, needle, threshold),
{
    let found = best(haystack, needle, threshold);
    the_best_match_is_the_best(haystack, needle, threshold);
    if let Some((x, y, c)) = found {
        assert forall|i: int, j: int|
            before(i, j, 0, haystack.height + 1) && #[trigger] matches_at(
                haystack,
                needle,
                lower,
                i,
                j,
            ) implies ({
            &&& !float::less(c, confidence_at(haystack, needle, i, j))
            &&& before(i, j, x as int, y as int) ==> float::less(
                confidence_at(haystack, needle, i, j),
                c,
            )
        }) by {
            if !matches_at(haystack, needle, threshold, i, j) {
                assert(float::less(confidence_at(haystack, needle, i, j), threshold));
            }
        }
        assert(matches_at(haystack, needle, lower, x as int, y as int));
        the_best_match_is_one(haystack, needle, lower, found);
    }
}

proof fn lemma_confidence(score: nat, pixels: nat)
    requires
        score <= 765 * pixels,
        0 < pixels <= 0x20_0000_0000_0000,
    ensures
        confidence(score, pixels) matches float::Value::Finite(negative, units) && !negative
            && units <= rounding::pow2(float::double_format().one()),
        score == 765 * pixels ==> confidence(score, pixels) == float::natural(
            float::double_format(),
            1,
        ),
{
    let f = float::double_format();
    let p = f.digits();
    let one = rounding::pow2(f.one());
    rounding::lemma_pow2_pos(f.one());
    float::lemma_power_120();
    arithmetic::lemma_natural_exact(f, pixels);
    arithmetic::lemma_natural_exact(f, 765);
    arithmetic::lemma_natural_exact(f, 1);
    arithmetic::lemma_natural_range(765 * pixels);
    arithmetic::lemma_natural_range(score);
    let exact = (765 * pixels) * one;
    let n = rounding::nearest(score * one, 1, p);
    let top = rounding::nearest(exact, 1, p);
    // The denominator is the highest score, rounded once.
    assert((pixels * one) * (765 * one) == one * exact) by (nonlinear_arith)
        requires
            exact == (765 * pixels) * one,
    ;
    assert(one * 1 == one);
    rounding::lemma_nearest_scale(exact, 1, p, one);
    assert(score * one <= exact) by (nonlinear_arith)
        requires
            score <= 765 * pixels,
            exact == (765 * pixels) * one,
    ;
    rounding::lemma_nearest_monotone(score * one, exact, 1, p);
    rounding::lemma_share_at_most_one(n, top, one, p, f.one());
    rounding::lemma_pow2_monotone((f.one() + 1) as nat, f.top as nat);
    if score == 765 * pixels {
        assert(top * 1 == top);
        assert(1 * one == one);
        rounding::lemma_nearest_scale(one, 1, p, top);
    }
}

/// How far apart two bytes are.
pub open spec fn gap(a: u8, b: u8) -> int {
    if a < b {
        b - a
    } else {
        a - b
    }
}

/// A place scores for each pixel of the template that is at least half opaque,
/// and for no other: 765 less what red, green and blue are apart from the pixel
/// of the image that lies under it. The confidence is that score as a share of
/// the highest. `worth` is what each pixel scores, row after row.
pub proof fn every_opaque_pixel_scores(
    haystack: RgbaImage,
    needle: RgbaImage,
    x: int,
    y: int,
    worth: Seq<int>,
    opaque: Seq<bool>,
)
    requires
        worth.len() == needle.width * needle.height,
        opaque.len() == needle.width * needle.height,
        forall|i: int, j: int|
            0 <= i < needle.width && 0 <= j < needle.height ==> #[trigger] opaque[j * needle.width
                + i] == (needle.byte(i, j, 3) >= 128),
        forall|i: int, j: int|
            0 <= i < needle.width && 0 <= j < needle.height ==> #[trigger] worth[j * needle.width
                + i] == 765 - gap(haystack.byte(x + i, y + j, 0), needle.byte(i, j, 0)) - gap(
                haystack.byte(x + i, y + j, 1),
                needle.byte(i, j, 1),
            ) - gap(haystack.byte(x + i, y + j, 2), needle.byte(i, j, 2)),
    ensures
        score(haystack, needle, x, y) == kept_sum(worth, opaque),
        solid_pixels(needle) == kept_count(opaque),
        0 < 765 * kept_count(opaque) <= 0x20_0000_0000_0000 ==> confidence_at(
            haystack,
            needle,
            x,
            y,
        ) == float::ratio(
            float::double_format(),
            kept_sum(worth, opaque) as nat,
            765 * kept_count(opaque),
        ),
{
    let n = (needle.width * needle.height) as nat;
    lemma_scores(haystack, needle, x, y, worth, opaque, n);
    assert(worth.take(n as int) =~= worth);
    assert(opaque.take(n as int) =~= opaque);
    lemma_score(haystack, needle, x, y, n);
    the_highest_score_is_an_exact_cover(haystack, needle, x, y);
    if 0 < 765 * kept_count(opaque) <= 0x20_0000_0000_0000 {
        a_confidence_is_a_share_of_the_highest_score(
            score(haystack, needle, x, y) as nat,
            solid_pixels(needle),
        );
    }
}

/// The sum of the numbers that are marked.
pub open spec fn kept_sum(worth: Seq<int>, marked: Seq<bool>) -> int
    decreases worth.len(),
{
    if worth.len() == 0 {
        0
    } else {
        kept_sum(worth.drop_last(), marked.drop_last()) + if marked.last() {
            worth.last()
        } else {
            0
        }
    }
}

/// How many marks there are.
pub open spec fn kept_count(marked: Seq<bool>) -> nat
    decreases marked.len(),
{
    if marked.len() == 0 {
        0
    } else {
        kept_count(marked.drop_last()) + if marked.last() {
            1nat
        } else {
            0nat
        }
    }
}

proof fn lemma_scores(
    haystack: RgbaImage,
    needle: RgbaImage,
    x: int,
    y: int,
    worth: Seq<int>,
    opaque: Seq<bool>,
    n: nat,
)
    requires
        n <= worth.len() == opaque.len() == needle.width * needle.height,
        forall|i: int, j: int|
            0 <= i < needle.width && 0 <= j < needle.height ==> #[trigger] opaque[j * needle.width
                + i] == (needle.byte(i, j, 3) >= 128),
        forall|i: int, j: int|
            0 <= i < needle.width && 0 <= j < needle.height ==> #[trigger] worth[j * needle.width
                + i] == 765 - gap(haystack.byte(x + i, y + j, 0), needle.byte(i, j, 0)) - gap(
                haystack.byte(x + i, y + j, 1),
                needle.byte(i, j, 1),
            ) - gap(haystack.byte(x + i, y + j, 2), needle.byte(i, j, 2)),
    ensures
        sum_likeness(haystack, needle, x, y, n) == kept_sum(
            worth.take(n as int),
            opaque.take(n as int),
        ),
        count_solid(needle, n) == kept_count(opaque.take(n as int)),
    decreases n,
{
    if n > 0 {
        let at = n - 1;
        let w = needle.width as int;
        let h = needle.height as int;
        lemma_scores(haystack, needle, x, y, worth, opaque, at as nat);
        assert(w > 0) by (nonlinear_arith)
            requires
                0 <= at < w * h,
                w >= 0,
        ;
        let (i, j) = (at % w, at / w);
        vstd::arithmetic::div_mod::lemma_fundamental_div_mod(at, w);
        assert(0 <= i < w && 0 <= j < h && j * w + i == at) by (nonlinear_arith)
            requires
                w > 0,
                0 <= at < w * h,
                at == w * j + i,
                0 <= i < w,
        ;
        assert(opaque[j * needle.width + i] == (needle.byte(i, j, 3) >= 128));
        assert(worth[j * needle.width + i] == likeness(haystack, needle, x, y, i, j));
        assert(worth.take(n as int).drop_last() =~= worth.take(at));
        assert(opaque.take(n as int).drop_last() =~= opaque.take(at));
    }
}

/// What is found is the first of the best: the template lies in the image there
/// and reaches the threshold, no place where it lies in the image has more
/// confidence, and each that comes before, row after row, has less. Nothing is
/// found just where no place reaches the threshold, or no pixel of the template
/// is opaque.
pub proof fn the_first_of_the_best_is_found(
    haystack: RgbaImage,
    needle: RgbaImage,
    threshold: float::Value,
    i: int,
    j: int,
)
    requires
        0 <= i,
        0 <= j,
        i + needle.width <= haystack.width,
        j + needle.height <= haystack.height,
    ensures
        match best(haystack, needle, threshold) {
            Some((x, y, c)) => {
                &&& x + needle.width <= haystack.width && y + needle.height <= haystack.height
                &&& solid_pixels(needle) > 0
                &&& c == confidence_at(haystack, needle, x as int, y as int)
                &&& float::at_least(c, threshold)
                &&& !float::less(c, confidence_at(haystack, needle, i, j))
                &&& (j < y || (j == y && i < x)) ==> !float::at_least(
                    confidence_at(haystack, needle, i, j),
                    c,
                )
            },
            None => solid_pixels(needle) == 0 || !float::at_least(
                confidence_at(haystack, needle, i, j),
                threshold,
            ),
        },
{
    the_best_match_is_the_best(haystack, needle, threshold);
    let here = confidence_at(haystack, needle, i, j);
    assert(before(i, j, 0, haystack.height + 1));
    if let Some((x, y, c)) = best(haystack, needle, threshold) {
        if !matches_at(haystack, needle, threshold, i, j) {
            assert(!float::at_least(here, threshold));
        }
    } else {
        assert(!matches_at(haystack, needle, threshold, i, j));
    }
}

/// A confidence is the score over the highest that so many pixels can reach,
/// rounded once.
pub proof fn a_confidence_is_a_share_of_the_highest_score(score: nat, pixels: nat)
    requires
        score <= 765 * pixels,
        0 < 765 * pixels <= 0x20_0000_0000_0000,
    ensures
        confidence(score, pixels) == float::ratio(float::double_format(), score, 765 * pixels),
{
    let f = float::double_format();
    let one = rounding::pow2(f.one());
    let top = 765 * pixels;
    rounding::lemma_pow2_pos(f.one());
    float::lemma_power_120();
    arithmetic::lemma_natural_exact(f, score);
    arithmetic::lemma_natural_exact(f, pixels);
    arithmetic::lemma_natural_exact(f, 765);
    arithmetic::lemma_natural_exact(f, top);
    assert((pixels * one) * (765 * one) == one * (top * one)) by (nonlinear_arith)
        requires
            top == 765 * pixels,
    ;
    assert(one * 1 == one);
    rounding::lemma_nearest_scale(top * one, 1, f.digits(), one);
    assert((score * one) * one == one * (score * one)) by (nonlinear_arith);
    assert(top * one == one * top) by (nonlinear_arith);
    assert(top * one > 0) by (nonlinear_arith)
        requires
            top > 0,
            one >= 1,
    ;
    rounding::lemma_nearest_scale(score * one, top, f.digits(), one);
    assert(float::product(f, float::natural(f, pixels), float::natural(f, 765))
        == float::Value::Finite(false, top * one));
}

/// A match is told by its corner and its confidence.
pub proof fn a_match_is_told_by_corner_and_confidence(x: u32, y: u32, c: u64)
    ensures
        decoded(Some((x, y, c))) == Some((x, y, bits::double_value(c))),
        decoded(None) is None,
{
}

} // verus!
