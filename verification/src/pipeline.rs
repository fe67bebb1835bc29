//! Reading an image in two stages: boxes of text are detected, then each is
//! cut out and recognized.
use vstd::prelude::*;
use crate::messages;
use crate::raster;
use crate::text;
use crate::boxes::DetBox;
use crate::raster::RgbImage;

verus! {

/// A piece of text and where it stands, in pixels of the image.
#[derive(Debug, PartialEq, Eq)]
pub struct TextRegion {
    pub text: String,
    pub x: u32,
    pub y: u32,
    pub w: u32,
    pub h: u32,
}

/// A piece of text and where it stands.
pub struct Region {
    pub text: Seq<char>,
    pub place: DetBox,
}

impl TextRegion {
    pub open spec fn region(self) -> Region {
        Region {
            text: self.text@,
            place: DetBox { x: self.x, y: self.y, w: self.w, h: self.h },
        }
    }
}

/// Pieces of text and where they stand.
pub open spec fn regions_of(found: Seq<TextRegion>) -> Seq<Region> {
    Seq::new(found.len(), |i: int| found[i].region())
}

/// The corner of a box, brought into a side of an image.
pub open spec fn start_in(start: u32, side: u32) -> u32 {
    if start < side {
        start
    } else if side > 0 {
        (side - 1) as u32
    } else {
        0
    }
}

/// The length of a box, cut to what is left of a side of an image, at least
/// one.
pub open spec fn length_in(length: u32, start: u32, side: u32) -> u32 {
    let left = (side - start_in(start, side)) as u32;
    let cut = if length < left {
        length
    } else {
        left
    };
    if cut >= 1 {
        cut
    } else {
        1
    }
}

/// The part of an image that a box covers.
pub open spec fn clamped(b: DetBox, src_w: u32, src_h: u32) -> DetBox {
    DetBox {
        x: start_in(b.x, src_w),
        y: start_in(b.y, src_h),
        w: length_in(b.w, b.x, src_w),
        h: length_in(b.h, b.y, src_h),
    }
}

/// Every box covers a part of the image, of at least one pixel.
pub proof fn a_clamped_box_lies_in_the_image(b: DetBox, src_w: u32, src_h: u32)
    requires
        src_w > 0,
        src_h > 0,
    ensures
        ({
            let c = clamped(b, src_w, src_h);
            c.w >= 1 && c.h >= 1 && c.x + c.w <= src_w && c.y + c.h <= src_h
        }),
{
}

/// A box that lies in the image covers what it says.
pub proof fn a_box_in_the_image_stays_as_it_is(b: DetBox, src_w: u32, src_h: u32)
    requires
        b.w >= 1,
        b.h >= 1,
        b.x + b.w <= src_w,
        b.y + b.h <= src_h,
    ensures
        clamped(b, src_w, src_h) == b,
{
}

fn clamp(b: &DetBox, src_w: u32, src_h: u32) -> (r: DetBox)
    requires
        src_w > 0,
        src_h > 0,
    ensures
        r == clamped(*b, src_w, src_h),
{
    let x: u32 = if b.x < src_w {
        b.x
    } else {
        src_w - 1
    };
    let y: u32 = if b.y < src_h {
        b.y
    } else {
        src_h - 1
    };
    let w: u32 = if b.w < src_w - x {
        b.w
    } else {
        src_w - x
    };
    let h: u32 = if b.h < src_h - y {
        b.h
    } else {
        src_h - y
    };
    DetBox {
        x: x,
        y: y,
        w: if w >= 1 {
            w
        } else {
            1
        },
        h: if h >= 1 {
            h
        } else {
            1
        },
    }
}

/// The image to be read, once it was opened.
pub fn opened_image(image_path: &str, opened: Result<RgbImage, String>) -> (r: Result<
    RgbImage,
    String,
>)
    ensures
        match (opened, r) {
            (Ok(img), Ok(kept)) => kept == img && img.width > 0 && img.height > 0,
            (Ok(img), Err(e)) => (img.width == 0 || img.height == 0) && e@
                == "Image has zero dimension"@,
            (Err(why), Err(e)) => e@ == messages::because(
                messages::quoting("Failed to open image"@, image_path@, ""@),
                why@,
            ),
            (Err(_), Ok(_)) => false,
        },
{
    match opened {
        Ok(img) => {
            if img.width == 0 || img.height == 0 {
                Err("Image has zero dimension".to_owned())
            } else {
                Ok(img)
            }
        },
        Err(why) => {
            let what = messages::quote("Failed to open image", image_path, "");
            Err(messages::failed(what.as_str(), why.as_str()))
        },
    }
}

/// The strip of an image that a box covers.
pub fn strip(rgb: &RgbImage, b: &DetBox) -> (r: RgbImage)
    requires
        rgb.valid(),
        rgb.width > 0,
        rgb.height > 0,
    ensures
        r.valid(),
        r.width == clamped(*b, rgb.width, rgb.height).w,
        r.height == clamped(*b, rgb.width, rgb.height).h,
        forall|i: int, j: int, c: int|
            0 <= i < r.width && 0 <= j < r.height && 0 <= c < 3 ==> #[trigger] r.byte(i, j, c)
                == rgb.byte(
                clamped(*b, rgb.width, rgb.height).x + i,
                clamped(*b, rgb.width, rgb.height).y + j,
                c,
            ),
{
    let place = clamp(b, rgb.width, rgb.height);
    raster::crop_rgb(rgb, place.x, place.y, place.w, place.h)
}

/// What is found in an image: the text of each box with the part of the image
/// that it was read from, but for boxes in which there is nothing but white
/// space.
pub open spec fn found_regions(
    boxes: Seq<DetBox>,
    read: Seq<String>,
    src_w: u32,
    src_h: u32,
) -> Seq<Region>
    decreases boxes.len(),
{
    if boxes.len() == 0 {
        Seq::empty()
    } else {
        let before = found_regions(boxes.drop_last(), read, src_w, src_h);
        let said = read[boxes.len() - 1]@;
        if text::trimmed(said).len() == 0 {
            before
        } else {
            before.push(Region { text: said, place: clamped(boxes.last(), src_w, src_h) })
        }
    }
}

/// What is found in an image, given its boxes and what was read in each.
pub fn ocr_image_with_positions(
    boxes: &Vec<DetBox>,
    read: &Vec<String>,
    src_w: u32,
    src_h: u32,
) -> (r: Vec<TextRegion>)
    requires
        boxes@.len() == read@.len(),
        src_w > 0,
        src_h > 0,
    ensures
        regions_of(r@) == found_regions(boxes@, read@, src_w, src_h),
{
    let mut r: Vec<TextRegion> = Vec::new();
    let mut i: usize = 0;
    assert(regions_of(r@) =~= Seq::empty());
    while i < boxes.len()
        invariant
            boxes@.len() == read@.len(),
            src_w > 0,
            src_h > 0,
            i <= boxes@.len(),
            regions_of(r@) == found_regions(boxes@.take(i as int), read@, src_w, src_h),
        decreases boxes@.len() - i,
    {
        let ghost held = regions_of(r@);
        proof {
            let next = boxes@.take(i + 1);
            assert(next.drop_last() =~= boxes@.take(i as int));
            assert(next.last() == boxes@[i as int]);
        }
        if !text::trim(read[i].as_str()).as_str().is_empty() {
            let place = clamp(&boxes[i], src_w, src_h);
            r.push(
                TextRegion {
                    text: read[i].clone(),
                    x: place.x,
                    y: place.y,
                    w: place.w,
                    h: place.h,
                },
            );
            proof {
                assert(regions_of(r@) =~= held.push(r@.last().region()));
            }
        }
        i = i + 1;
    }
    assert(boxes@.take(i as int) =~= boxes@);
    r
}

/// Everything found lies in the image, and has something to read.
pub proof fn what_is_found_lies_in_the_image(
    boxes: Seq<DetBox>,
    read: Seq<String>,
    src_w: u32,
    src_h: u32,
)
    requires
        src_w > 0,
        src_h > 0,
    ensures
        found_regions(boxes, read, src_w, src_h).len() <= boxes.len(),
        forall|i: int|
            0 <= i < found_regions(boxes, read, src_w, src_h).len() ==> {
                let r = #[trigger] found_regions(boxes, read, src_w, src_h)[i];
                &&& r.place.w >= 1 && r.place.h >= 1
                &&& r.place.x + r.place.w <= src_w
                &&& r.place.y + r.place.h <= src_h
                &&& text::trimmed(r.text).len() > 0
            },
    decreases boxes.len(),
{
    if boxes.len() > 0 {
        what_is_found_lies_in_the_image(boxes.drop_last(), read, src_w, src_h);
    }
}

/// How many of the pieces, from the first on, stand no lower than `top`.
pub open spec fn above(found: Seq<Region>, top: u32) -> int
    decreases found.len(),
{
    if found.len() == 0 || found[0].place.y > top {
        0
    } else {
        1 + above(found.subrange(1, found.len() as int), top)
    }
}

/// The pieces in reading order: from top to bottom by their upper edge, and as
/// they were found where that is the same.
pub open spec fn in_reading_order(found: Seq<Region>) -> Seq<Region>
    decreases found.len(),
{
    if found.len() == 0 {
        found
    } else {
        let before = in_reading_order(found.drop_last());
        before.insert(above(before, found.last().place.y), found.last())
    }
}

/// The text of the pieces, one to a line.
pub open spec fn page(found: Seq<Region>) -> Seq<char> {
    text::joined(Seq::new(found.len(), |i: int| found[i].text), "\n"@)
}

proof fn lemma_above(found: Seq<Region>, top: u32)
    ensures
        0 <= above(found, top) <= found.len(),
        forall|i: int| 0 <= i < above(found, top) ==> (#[trigger] found[i]).place.y <= top,
        above(found, top) < found.len() ==> found[above(found, top)].place.y > top,
    decreases found.len(),
{
    if !(found.len() == 0 || found[0].place.y > top) {
        let rest = found.subrange(1, found.len() as int);
        lemma_above(rest, top);
        assert forall|i: int| 0 <= i < above(found, top) implies (#[trigger] found[i]).place.y
            <= top by {
            if i > 0 {
                assert(rest[i - 1] == found[i]);
            }
        }
    }
}

proof fn lemma_above_at(found: Seq<Region>, top: u32, n: int)
    requires
        0 <= n <= found.len(),
        forall|i: int| 0 <= i < n ==> (#[trigger] found[i]).place.y <= top,
        n < found.len() ==> found[n].place.y > top,
    ensures
        above(found, top) == n,
{
    lemma_above(found, top);
    let m = above(found, top);
    if m < n {
        assert(found[m].place.y <= top);
    } else if n < m {
        assert(found[n].place.y <= top);
    }
}

/// Pieces in reading order stand one below the other.
pub proof fn reading_order_goes_down(found: Seq<Region>)
    ensures
        in_reading_order(found).len() == found.len(),
        forall|i: int, j: int|
            0 <= i <= j < found.len() ==> (#[trigger] in_reading_order(found)[i]).place.y <= (
            #[trigger] in_reading_order(found)[j]).place.y,
    decreases found.len(),
{
    if found.len() > 0 {
        let before = in_reading_order(found.drop_last());
        let last = found.last();
        reading_order_goes_down(found.drop_last());
        lemma_above(before, last.place.y);
        let k = above(before, last.place.y);
        let after = before.insert(k, last);
        assert forall|i: int, j: int| 0 <= i <= j < found.len() implies (
        #[trigger] after[i]).place.y <= (#[trigger] after[j]).place.y by {
            let a = if i < k {
                i
            } else {
                i - 1
            };
            let b = if j < k {
                j
            } else {
                j - 1
            };
            if i != k && j != k {
                assert(before[a].place.y <= before[b].place.y);
            } else if i == k && j > k {
                assert(before[k].place.y <= before[b].place.y);
            }
        }
    }
}

/// Reading order keeps every piece, and each as often as it was found.
pub proof fn reading_order_keeps_every_piece(found: Seq<Region>)
    ensures
        in_reading_order(found).to_multiset() == found.to_multiset(),
    decreases found.len(),
{
    broadcast use vstd::seq_lib::group_to_multiset_ensures;

    if found.len() > 0 {
        let before = in_reading_order(found.drop_last());
        let last = found.last();
        reading_order_keeps_every_piece(found.drop_last());
        lemma_above(before, last.place.y);
        let k = above(before, last.place.y);
        assert(found.drop_last().push(last) =~= found);
        assert(before.insert(k, last).to_multiset() =~= before.to_multiset().insert(last));
    }
}

/// The pieces of one height, in the order in which they come.
pub open spec fn level(found: Seq<Region>, top: u32) -> Seq<Region>
    decreases found.len(),
{
    if found.len() == 0 {
        Seq::empty()
    } else if found.last().place.y == top {
        level(found.drop_last(), top).push(found.last())
    } else {
        level(found.drop_last(), top)
    }
}

proof fn lemma_level_insert(found: Seq<Region>, k: int, r: Region, top: u32)
    requires
        0 <= k <= found.len(),
        forall|i: int| k <= i < found.len() ==> (#[trigger] found[i]).place.y > r.place.y,
    ensures
        level(found.insert(k, r), top) == (if r.place.y == top {
            level(found, top).push(r)
        } else {
            level(found, top)
        }),
    decreases found.len(),
{
    let longer = found.insert(k, r);
    if k == found.len() {
        assert(longer.drop_last() =~= found);
    } else {
        let shorter = found.drop_last();
        assert forall|i: int| k <= i < shorter.len() implies (#[trigger] shorter[i]).place.y
            > r.place.y by {
            assert(found[i].place.y > r.place.y);
        }
        lemma_level_insert(shorter, k, r, top);
        assert(longer.drop_last() =~= shorter.insert(k, r));
        assert(longer.last() == found.last());
        assert(found[found.len() - 1].place.y > r.place.y);
        if r.place.y == top {
            assert(level(longer, top) == level(shorter.insert(k, r), top));
        }
    }
}

/// Pieces of one height keep the order in which they were found.
pub proof fn reading_order_is_stable(found: Seq<Region>, top: u32)
    ensures
        level(in_reading_order(found), top) == level(found, top),
    decreases found.len(),
{
    if found.len() > 0 {
        let before = in_reading_order(found.drop_last());
        let last = found.last();
        reading_order_is_stable(found.drop_last(), top);
        reading_order_goes_down(found.drop_last());
        lemma_above(before, last.place.y);
        let k = above(before, last.place.y);
        assert forall|i: int| k <= i < before.len() implies (#[trigger] before[i]).place.y
            > last.place.y by {
            assert(before[k].place.y <= before[i].place.y);
        }
        lemma_level_insert(before, k, last, top);
    }
}

/// The pieces in reading order, as places in the list of what was found.
fn reading_order(found: &Vec<TextRegion>) -> (r: Vec<usize>)
    ensures
        r@.len() == found@.len(),
        forall|i: int| 0 <= i < r@.len() ==> #[trigger] r@[i] < found@.len(),
        forall|i: int|
            0 <= i < r@.len() ==> found@[#[trigger] r@[i] as int].region() == in_reading_order(
                regions_of(found@),
            )[i],
{
    let mut r: Vec<usize> = Vec::new();
    let mut n: usize = 0;
    while n < found.len()
        invariant
            n <= found@.len(),
            r@.len() == n,
            forall|i: int| 0 <= i < n ==> #[trigger] r@[i] < n,
            in_reading_order(regions_of(found@.take(n as int))).len() == n,
            forall|i: int|
                0 <= i < n ==> found@[#[trigger] r@[i] as int].region() == in_reading_order(
                    regions_of(found@.take(n as int)),
                )[i],
        decreases found@.len() - n,
    {
        let ghost before = in_reading_order(regions_of(found@.take(n as int)));
        let ghost held = r@;
        let top: u32 = found[n].y;
        let mut k: usize = 0;
        while k < n && found[r[k]].y <= top
            invariant
                n < found@.len(),
                k <= n,
                r@.len() == n,
                before.len() == n,
                forall|i: int| 0 <= i < n ==> #[trigger] r@[i] < n,
                forall|i: int|
                    0 <= i < n ==> found@[#[trigger] r@[i] as int].region() == before[i],
                forall|i: int| 0 <= i < k ==> (#[trigger] before[i]).place.y <= top,
            decreases n - k,
        {
            assert(before[k as int] == found@[r@[k as int] as int].region());
            k = k + 1;
        }
        proof {
            if k < n {
                assert(before[k as int] == found@[r@[k as int] as int].region());
            }
            lemma_above_at(before, top, k as int);
            let taken = regions_of(found@.take(n + 1));
            assert(taken.drop_last() =~= regions_of(found@.take(n as int)));
            assert(taken.last() == found@[n as int].region());
        }
        r.insert(k, n);
        proof {
            let after = in_reading_order(regions_of(found@.take(n + 1)));
            assert(after == before.insert(k as int, found@[n as int].region()));
            assert(r@ == held.insert(k as int, n));
            assert forall|i: int| 0 <= i < n + 1 implies found@[#[trigger] r@[i] as int].region()
                == after[i] by {
                if i < k {
                    assert(r@[i] == held[i]);
                } else if i > k {
                    assert(r@[i] == held[i - 1]);
                }
            }
            assert forall|i: int| 0 <= i < n + 1 implies #[trigger] r@[i] < n + 1 by {
                if i < k {
                    assert(r@[i] == held[i]);
                } else if i > k {
                    assert(r@[i] == held[i - 1]);
                }
            }
        }
        n = n + 1;
    }
    assert(found@.take(n as int) =~= found@);
    r
}

/// The text of an image: what was found in it, in reading order, one piece to
/// a line.
pub fn ocr_image(found: &Vec<TextRegion>) -> (r: String)
    ensures
        r@ == page(in_reading_order(regions_of(found@))),
{
    let order = reading_order(found);
    let ghost ordered = in_reading_order(regions_of(found@));
    proof {
        reading_order_goes_down(regions_of(found@));
    }
    let mut parts: Vec<String> = Vec::new();
    while parts.len() < order.len()
        invariant
            parts@.len() <= order@.len(),
            order@.len() == ordered.len(),
            forall|j: int| 0 <= j < order@.len() ==> #[trigger] order@[j] < found@.len(),
            forall|j: int|
                0 <= j < order@.len() ==> found@[#[trigger] order@[j] as int].region()
                    == ordered[j],
            forall|j: int| 0 <= j < parts@.len() ==> (#[trigger] parts@[j])@ == ordered[j].text,
        decreases order@.len() - parts@.len(),
    {
        let place: usize = order[parts.len()];
        parts.push(found[place].text.clone());
    }
    assert(text::texts(parts@) =~= Seq::new(ordered.len(), |i: int| ordered[i].text));
    text::join(&parts, "\n")
}

/// There is something else in a text than white space.
pub open spec fn says_something(s: Seq<char>) -> bool {
    exists|i: int| 0 <= i < s.len() && !text::blank(#[trigger] s[i])
}

/// A side of a box, from `from` on and so long, is what a side of the image
/// leaves of the one that starts at `start` and has this length: what lies in
/// the image stays, what reaches beyond is cut off at the edge, and at least one
/// pixel is kept.
pub open spec fn is_cut(start: u32, length: u32, side: u32, from: u32, kept: u32) -> bool {
    &&& kept >= 1
    &&& from + kept <= side
    &&& start < side ==> from == start
    &&& start >= side ==> from == side - 1
    &&& length >= 1 && start + length <= side ==> kept == length
    &&& length >= 1 && start + length > side ==> from + kept == side
    &&& length == 0 ==> kept == 1
}

/// Whatever a box says is found: each box in which there is something else than
/// white space is there, with what was read in it and the part of the image that
/// it covers, once, in the order of the boxes; and nothing else is there. `at`
/// tells from which box each piece comes.
pub proof fn every_box_that_says_something_is_found(
    boxes: Seq<DetBox>,
    read: Seq<String>,
    src_w: u32,
    src_h: u32,
    found: Seq<TextRegion>,
) -> (at: Seq<int>)
    requires
        boxes.len() == read.len(),
        src_w > 0,
        src_h > 0,
        regions_of(found) == found_regions(boxes, read, src_w, src_h),
    ensures
        at.len() == found.len(),
        forall|k: int, l: int| 0 <= k < l < at.len() ==> #[trigger] at[k] < #[trigger] at[l],
        forall|k: int|
            0 <= k < at.len() ==> 0 <= #[trigger] at[k] < boxes.len() && says_something(
                read[at[k]]@,
            ) && found[k].text@ == read[at[k]]@ && is_cut(
                boxes[at[k]].x,
                boxes[at[k]].w,
                src_w,
                found[k].x,
                found[k].w,
            ) && is_cut(boxes[at[k]].y, boxes[at[k]].h, src_h, found[k].y, found[k].h),
        forall|i: int|
            0 <= i < boxes.len() && says_something(#[trigger] read[i]@) ==> at.contains(i),
{
    let at = lemma_found_at(boxes, read, src_w, src_h);
    assert forall|k: int| 0 <= k < at.len() implies 0 <= #[trigger] at[k] < boxes.len()
        && says_something(read[at[k]]@) && found[k].text@ == read[at[k]]@ && is_cut(
        boxes[at[k]].x,
        boxes[at[k]].w,
        src_w,
        found[k].x,
        found[k].w,
    ) && is_cut(boxes[at[k]].y, boxes[at[k]].h, src_h, found[k].y, found[k].h) by {
        assert(regions_of(found)[k] == found[k].region());
    }
    at
}

proof fn lemma_found_at(boxes: Seq<DetBox>, read: Seq<String>, src_w: u32, src_h: u32) -> (at: Seq<
    int,
>)
    requires
        boxes.len() <= read.len(),
        src_w > 0,
        src_h > 0,
    ensures
        at.len() == found_regions(boxes, read, src_w, src_h).len(),
        forall|k: int, l: int| 0 <= k < l < at.len() ==> #[trigger] at[k] < #[trigger] at[l],
        forall|k: int|
            0 <= k < at.len() ==> 0 <= #[trigger] at[k] < boxes.len() && says_something(
                read[at[k]]@,
            ) && found_regions(boxes, read, src_w, src_h)[k] == (Region {
                text: read[at[k]]@,
                place: clamped(boxes[at[k]], src_w, src_h),
            }),
        forall|i: int|
            0 <= i < boxes.len() && says_something(#[trigger] read[i]@) ==> at.contains(i),
    decreases boxes.len(),
{
    if boxes.len() == 0 {
        Seq::empty()
    } else {
        let last = boxes.len() - 1;
        let before = lemma_found_at(boxes.drop_last(), read, src_w, src_h);
        let said = read[last]@;
        text::trimming_takes_white_space_only(said);
        if says_something(said) {
            let at = before.push(last);
            assert forall|i: int|
                0 <= i < boxes.len() && says_something(#[trigger] read[i]@) implies at.contains(
                i,
            ) by {
                if i < last {
                    let k = choose|k: int| 0 <= k < before.len() && before[k] == i;
                    assert(at[k] == i);
                } else {
                    assert(at[before.len() as int] == i);
                }
            }
            at
        } else {
            before
        }
    }
}

/// The pieces in reading order, by their places in the list.
proof fn lemma_order(found: Seq<Region>) -> (order: Seq<int>)
    ensures
        order.len() == found.len(),
        in_reading_order(found).len() == found.len(),
        forall|i: int|
            0 <= i < order.len() ==> 0 <= #[trigger] order[i] < found.len() && in_reading_order(
                found,
            )[i] == found[order[i]],
        forall|i: int, j: int|
            0 <= i < j < order.len() ==> {
                let (a, b) = (#[trigger] order[i], #[trigger] order[j]);
                found[a].place.y < found[b].place.y || (found[a].place.y == found[b].place.y && a
                    < b)
            },
        forall|k: int| 0 <= k < found.len() ==> order.contains(k),
    decreases found.len(),
{
    if found.len() == 0 {
        Seq::empty()
    } else {
        let shorter = found.drop_last();
        let last = found.len() - 1;
        let held = lemma_order(shorter);
        let before = in_reading_order(shorter);
        let top = found.last().place.y;
        reading_order_goes_down(shorter);
        lemma_above(before, top);
        let k = above(before, top);
        let order = held.insert(k, last);
        assert forall|i: int, j: int| 0 <= i < j < order.len() implies {
            let (a, b) = (#[trigger] order[i], #[trigger] order[j]);
            found[a].place.y < found[b].place.y || (found[a].place.y == found[b].place.y && a < b)
        } by {
            let p = if i < k {
                i
            } else {
                i - 1
            };
            let q = if j < k {
                j
            } else {
                j - 1
            };
            if i != k && j != k {
                assert(held[p] == order[i] && held[q] == order[j]);
                assert(shorter[held[p]] == found[held[p]] && shorter[held[q]] == found[held[q]]);
            } else if i == k {
                assert(held[q] == order[j]);
                assert(before[k].place.y <= before[q].place.y);
                assert(shorter[held[q]] == found[held[q]]);
            } else {
                assert(held[p] == order[i]);
                assert(before[p].place.y <= top);
                assert(shorter[held[p]] == found[held[p]]);
            }
        }
        assert forall|m: int| 0 <= m < found.len() implies order.contains(m) by {
            if m == last {
                assert(order[k] == m);
            } else {
                assert(held.contains(m));
                let i = choose|i: int| 0 <= i < held.len() && held[i] == m;
                assert(order[if i < k {
                    i
                } else {
                    i + 1
                }] == m);
            }
        }
        assert forall|i: int| 0 <= i < order.len() implies 0 <= #[trigger] order[i] < found.len()
            && in_reading_order(found)[i] == found[order[i]] by {
            if i < k {
                assert(held[i] == order[i]);
            } else if i > k {
                assert(held[i - 1] == order[i]);
            }
        }
        order
    }
}

/// A page holds every piece that was found, once, from the highest to the
/// lowest, and in the order in which they were found where two are equally high;
/// each but the first begins a new line. `order` tells which piece comes when.
pub proof fn a_page_holds_every_piece_from_top_to_bottom(found: Seq<TextRegion>, said: Seq<char>) -> (
order: Seq<int>)
    requires
        said == page(in_reading_order(regions_of(found))),
    ensures
        order.len() == found.len(),
        forall|i: int| 0 <= i < order.len() ==> 0 <= #[trigger] order[i] < found.len(),
        forall|k: int| 0 <= k < found.len() ==> order.contains(k),
        forall|i: int, j: int|
            0 <= i < j < order.len() ==> {
                let (a, b) = (#[trigger] order[i], #[trigger] order[j]);
                found[a].y < found[b].y || (found[a].y == found[b].y && a < b)
            },
        said == Seq::new(
            order.len(),
            |i: int|
                if i == 0 {
                    found[order[i]].text@
                } else {
                    seq!['\n'] + found[order[i]].text@
                },
        ).flatten(),
{
    let all = regions_of(found);
    let order = lemma_order(all);
    let ordered = in_reading_order(all);
    let parts = Seq::new(ordered.len(), |i: int| ordered[i].text);
    let pieces = Seq::new(
        order.len(),
        |i: int|
            if i == 0 {
                found[order[i]].text@
            } else {
                seq!['\n'] + found[order[i]].text@
            },
    );
    assert forall|i: int, j: int| 0 <= i < j < order.len() implies {
        let (a, b) = (#[trigger] order[i], #[trigger] order[j]);
        found[a].y < found[b].y || (found[a].y == found[b].y && a < b)
    } by {
        assert(all[order[i]] == found[order[i]].region());
        assert(all[order[j]] == found[order[j]].region());
    }
    reveal_strlit("\n");
    assert("\n"@ =~= seq!['\n']);
    assert forall|i: int| 0 <= i < parts.len() implies #[trigger] pieces[i] == (if i == 0 {
        parts[i]
    } else {
        "\n"@ + parts[i]
    }) by {
        assert(0 <= order[i] < found.len());
        assert(all[order[i]] == found[order[i]].region());
    }
    text::a_joined_text_is_made_of_its_parts(parts, "\n"@, pieces);
    order
}

/// The strip of a box is what a side of the image leaves of each of its sides.
pub proof fn a_strip_is_what_the_image_leaves_of_a_box(b: DetBox, src_w: u32, src_h: u32)
    requires
        src_w > 0,
        src_h > 0,
    ensures
        ({
            let c = clamped(b, src_w, src_h);
            is_cut(b.x, b.w, src_w, c.x, c.w) && is_cut(b.y, b.h, src_h, c.y, c.h)
        }),
{
}

} // verus!
