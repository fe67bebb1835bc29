//! Capturing screens: which one, which part of it, and where it is kept.
use vstd::prelude::*;
use crate::arithmetic;
use crate::bits;
use crate::float;
use crate::messages;
use crate::raster;
use crate::rounding;
use crate::text;
use crate::float::Float;
use crate::raster::RgbaImage;

verus! {

/// What is said of a monitor that is not there.
pub open spec fn no_monitor(monitor: usize) -> Seq<char> {
    "Monitor "@ + text::decimal(monitor as nat) + " not found"@
}

/// What is said of a monitor that is not there, with those that are.
pub open spec fn no_monitor_among(monitor: usize, screens: usize) -> Seq<char> {
    no_monitor(monitor) + ". Available: 0-"@ + text::decimal((screens - 1) as nat)
}

fn say_no_monitor(monitor: usize) -> (r: String)
    ensures
        r@ == no_monitor(monitor),
{
    let mut r = text::joined_texts("Monitor ", text::to_decimal(monitor as u64).as_str());
    r.append(" not found");
    r
}

/// The screen to capture, given how many there are.
pub fn pick_screen(listing: Result<usize, String>, monitor: usize) -> (r: Result<usize, String>)
    requires
        listing matches Ok(screens) ==> screens > 0,
    ensures
        match (listing, r) {
            (Ok(screens), Ok(i)) => i == monitor && monitor < screens,
            (Ok(screens), Err(e)) => monitor >= screens && e@ == no_monitor_among(monitor, screens),
            (Err(why), Err(e)) => e@ == messages::because("Failed to get screens"@, why@),
            (Err(_), Ok(_)) => false,
        },
{
    match listing {
        Ok(screens) => {
            if monitor < screens {
                Ok(monitor)
            } else {
                let mut e = say_no_monitor(monitor);
                e.append(". Available: 0-");
                e.append(text::to_decimal((screens - 1) as u64).as_str());
                Err(e)
            }
        },
        Err(why) => Err(messages::failed("Failed to get screens", why.as_str())),
    }
}

/// The width and height of a monitor, given those of all screens.
pub fn get_screen_dimensions(listing: Result<Vec<(u32, u32)>, String>, monitor: usize) -> (r: Result<
    (u32, u32),
    String,
>)
    ensures
        match (listing, r) {
            (Ok(screens), Ok(size)) => monitor < screens@.len() && size == screens@[monitor as int],
            (Ok(screens), Err(e)) => monitor >= screens@.len() && e@ == no_monitor(monitor),
            (Err(why), Err(e)) => e@ == messages::because("Failed to get screens"@, why@),
            (Err(_), Ok(_)) => false,
        },
{
    match listing {
        Ok(screens) => {
            if monitor < screens.len() {
                Ok(screens[monitor])
            } else {
                Err(say_no_monitor(monitor))
            }
        },
        Err(why) => Err(messages::failed("Failed to get screens", why.as_str())),
    }
}

/// A date and time to the second, as digits: the date, an underscore, the
/// time.
pub open spec fn is_stamp(s: Seq<char>) -> bool {
    &&& s.len() >= 15
    &&& s[s.len() - 7] == '_'
    &&& forall|i: int|
        0 < i < s.len() && i != s.len() - 7 ==> '0' <= #[trigger] s[i] && s[i] <= '9'
}

/// The time now, in this place.
///
/// Stands for `chrono::Local::now` and `DateTime::format`, with year, month
/// and day, an underscore, hour, minute and second. All are digits, two for
/// each but the year, which has four or more and a sign where there are more.
/// Which they are depends on the clock.
#[verifier::external_body]
fn now() -> (r: String)
    ensures
        is_stamp(r@),
{
    chrono::Local::now().format("%Y%m%d_%H%M%S").to_string()
}

/// What a capture is for. Each has a name of its own.
#[derive(Clone, Copy)]
pub enum Purpose {
    Screenshot,
    Region,
    Zoom,
}

/// The beginning of the names of captures.
pub open spec fn capture_name(purpose: Purpose) -> Seq<char> {
    match purpose {
        Purpose::Screenshot => "screenshot_"@,
        Purpose::Region => "region_"@,
        Purpose::Zoom => "zoom_"@,
    }
}

/// Where a capture is kept where nobody says: in `folder`, a path that ends
/// with a separator.
pub open spec fn stamped(folder: Seq<char>, purpose: Purpose, stamp: Seq<char>) -> Seq<char> {
    folder + capture_name(purpose) + stamp + ".png"@
}

/// Where a capture of this time is kept where nobody says.
pub fn stamped_path(folder: &str, purpose: Purpose, stamp: &str) -> (r: String)
    ensures
        r@ == stamped(folder@, purpose, stamp@),
{
    let name = match purpose {
        Purpose::Screenshot => "screenshot_",
        Purpose::Region => "region_",
        Purpose::Zoom => "zoom_",
    };
    let mut r = text::joined_texts(folder, name);
    r.append(stamp);
    r.append(".png");
    r
}

/// `path` is one under which a capture is kept where nobody says.
pub open spec fn is_stamped(folder: Seq<char>, purpose: Purpose, path: Seq<char>) -> bool {
    exists|stamp: Seq<char>| #[trigger] is_stamp(stamp) && path == stamped(folder, purpose, stamp)
}

/// Where a capture made now is kept where nobody says.
pub fn fresh_path(folder: &str, purpose: Purpose) -> (r: String)
    ensures
        is_stamped(folder@, purpose, r@),
{
    let stamp = now();
    let ghost told = stamp@;
    let r = stamped_path(folder, purpose, stamp.as_str());
    assert(is_stamp(told));
    r
}

/// A capture is kept where it was asked to be, or in the folder for such, under
/// a name of its own.
pub open spec fn keeps(
    folder: Seq<char>,
    purpose: Purpose,
    save_path: Option<String>,
    path: Seq<char>,
) -> bool {
    match save_path {
        Some(p) => path == p@,
        None => is_stamped(folder, purpose, path),
    }
}

/// What is kept of a captured screen, and where. Where no path is given that is
/// in `folder`, the one for temporary files.
pub fn take_screenshot(
    capture: Result<RgbaImage, String>,
    save_path: Option<String>,
    folder: &str,
) -> (r: Result<(RgbaImage, String), String>)
    ensures
        match (capture, r) {
            (Ok(img), Ok((kept, path))) => kept == img && keeps(
                folder@,
                Purpose::Screenshot,
                save_path,
                path@,
            ),
            (Err(why), Err(e)) => e@ == messages::because("Screenshot failed"@, why@),
            _ => false,
        },
{
    match capture {
        Ok(img) => {
            let path = match save_path {
                Some(p) => p,
                None => fresh_path(folder, Purpose::Screenshot),
            };
            Ok((img, path))
        },
        Err(why) => Err(messages::failed("Screenshot failed", why.as_str())),
    }
}

/// Where a region starts: at the edge, where it would start before it.
pub open spec fn from_edge(v: i32) -> int {
    if v < 0 {
        0
    } else {
        v as int
    }
}

/// How much of a region of this length lies on a side of the screen.
pub open spec fn on_screen(start: i32, length: u32, side: u32) -> int {
    raster::smaller(
        length as int,
        side - raster::smaller(from_edge(start), side as int),
    )
}

/// `part` is the region of the screen that starts at `x`, `y` and has at most
/// this size, as far as the screen reaches.
pub open spec fn is_region(
    part: RgbaImage,
    full: RgbaImage,
    x: i32,
    y: i32,
    width: u32,
    height: u32,
) -> bool {
    &&& part.valid()
    &&& part.width == on_screen(x, width, full.width)
    &&& part.height == on_screen(y, height, full.height)
    &&& forall|i: int, j: int, c: int|
        0 <= i < part.width && 0 <= j < part.height && 0 <= c < 4 ==> #[trigger] part.byte(i, j, c)
            == full.byte(from_edge(x) + i, from_edge(y) + j, c)
}

/// What is kept of a region of a captured screen, and where. Where no path is
/// given that is in `folder`, the one for temporary files.
pub fn take_screenshot_region(
    capture: Result<RgbaImage, String>,
    save_path: Option<String>,
    folder: &str,
    x: i32,
    y: i32,
    width: u32,
    height: u32,
) -> (r: Result<(RgbaImage, String), String>)
    requires
        capture matches Ok(img) ==> img.valid(),
    ensures
        match (capture, r) {
            (Ok(img), Ok((kept, path))) => is_region(kept, img, x, y, width, height) && keeps(
                folder@,
                Purpose::Region,
                save_path,
                path@,
            ),
            (Err(why), Err(e)) => e@ == messages::because("Screenshot failed"@, why@),
            _ => false,
        },
{
    match capture {
        Ok(full) => {
            let left: u32 = if x < 0 {
                0
            } else {
                x as u32
            };
            let top: u32 = if y < 0 {
                0
            } else {
                y as u32
            };
            let across: u32 = if width < full.width {
                width
            } else {
                full.width
            };
            let down: u32 = if height < full.height {
                height
            } else {
                full.height
            };
            let part = raster::crop_rgba(&full, left, top, across, down);
            let path = match save_path {
                Some(p) => p,
                None => fresh_path(folder, Purpose::Region),
            };
            Ok((part, path))
        },
        Err(why) => Err(messages::failed("Screenshot failed", why.as_str())),
    }
}

/// A region that lies on the screen is captured as it is.
pub proof fn a_region_on_the_screen_is_captured_whole(
    part: RgbaImage,
    full: RgbaImage,
    x: i32,
    y: i32,
    width: u32,
    height: u32,
)
    requires
        is_region(part, full, x, y, width, height),
        x >= 0,
        y >= 0,
        x + width <= full.width,
        y + height <= full.height,
    ensures
        part.width == width,
        part.height == height,
{
}

/// A side of a region, magnified.
pub open spec fn magnified(side: u32, scale: float::Value) -> u32 {
    let f = float::double_format();
    float::floor_u32(f, float::product(f, float::natural(f, side as nat), scale))
}

/// A side of a region, magnified.
pub fn magnified_side(side: u32, scale: u64) -> (r: u32)
    ensures
        r == magnified(side, bits::double_value(scale)),
{
    let f = float::double();
    Float::from_natural(f, side as u64).times(f, bits::double_from_bits(scale)).floor_to_u32(f)
}

/// A whole number as scale multiplies a side by it.
pub proof fn a_whole_scale_multiplies_the_side(side: u32, k: nat)
    requires
        side * k <= u32::MAX,
        k <= 10,
    ensures
        magnified(side, float::natural(float::double_format(), k)) == side * k,
{
    let f = float::double_format();
    let one = rounding::pow2(1074);
    let v = side as nat * k;
    assert(f.one() == 1074);
    float::lemma_power_120();
    rounding::lemma_pow2_pos(1074);
    arithmetic::lemma_natural_exact(f, side as nat);
    arithmetic::lemma_natural_exact(f, k);
    arithmetic::lemma_natural_exact(f, v);
    assert((side as nat * one) * (k * one) == one * (v * one)) by (nonlinear_arith)
        requires
            v == side as nat * k,
    ;
    assert(one * 1 == one);
    rounding::lemma_nearest_scale(v * one, 1, 53, one);
    vstd::arithmetic::div_mod::lemma_fundamental_div_mod_converse(
        (v * one) as int,
        one as int,
        v as int,
        0,
    );
}

/// The image can be brought to this size: it has pixels, and both stay within
/// what is held in memory and told apart in 32-bit arithmetic.
pub open spec fn magnifiable(img: RgbaImage, width: u32, height: u32) -> bool {
    &&& img.full()
    &&& img.width * height * 16 <= isize::MAX
    &&& width * height * 4 <= isize::MAX
    &&& img.width <= raster::FINE_SIDE || width <= raster::FINE_SIDE
    &&& img.height <= raster::FINE_SIDE || height <= raster::FINE_SIDE
}

/// `scaled` is the image at another size, by the Lanczos filter. At the size
/// that the image has already nothing changes.
pub open spec fn is_magnified(img: RgbaImage, width: u32, height: u32, scaled: RgbaImage) -> bool {
    &&& scaled.valid()
    &&& scaled.width == width
    &&& scaled.height == height
    &&& raster::lanczos_makes(img.data@, img.width, img.height, width, height, scaled.data@)
    &&& width == img.width && height == img.height ==> scaled.data@ == img.data@
}

/// A captured region at another size.
pub fn magnify(img: &RgbaImage, width: u32, height: u32) -> (r: RgbaImage)
    requires
        img.valid(),
        magnifiable(*img, width, height),
    ensures
        is_magnified(*img, width, height, r),
{
    raster::resize_rgba(img, width, height, raster::Filter::Lanczos3)
}

/// A captured region shows the screen: each of its pixels is the one that lies as
/// far from the corner that was asked for, or from the edge of the screen where
/// that corner lies beyond it. It is as wide and as high as was asked for, unless
/// the screen ends before, and then it reaches to the end.
pub proof fn a_region_shows_the_screen(
    part: RgbaImage,
    full: RgbaImage,
    x: i32,
    y: i32,
    width: u32,
    height: u32,
)
    requires
        is_region(part, full, x, y, width, height),
    ensures
        ({
            let left = if x < 0 {
                0
            } else {
                x as int
            };
            let top = if y < 0 {
                0
            } else {
                y as int
            };
            &&& left + width <= full.width ==> part.width == width
            &&& left <= full.width < left + width ==> left + part.width == full.width
            &&& left > full.width ==> part.width == 0
            &&& top + height <= full.height ==> part.height == height
            &&& top <= full.height < top + height ==> top + part.height == full.height
            &&& top > full.height ==> part.height == 0
            &&& forall|i: int, j: int, c: int|
                0 <= i < part.width && 0 <= j < part.height && 0 <= c < 4 ==> #[trigger] part.byte(
                    i,
                    j,
                    c,
                ) == full.byte(left + i, top + j, c)
        }),
{
}

/// The path of a capture that nobody named lies in the folder that is given,
/// begins there with what the capture is for, and ends in `.png`; captures for
/// different ends, or of different times, have different paths.
pub proof fn a_capture_nobody_named_is_a_png_in_the_folder(
    folder: Seq<char>,
    purpose: Purpose,
    path: Seq<char>,
)
    requires
        is_stamped(folder, purpose, path),
    ensures
        folder.is_prefix_of(path),
        path.len() >= folder.len() + 4,
        path.subrange(path.len() - 4, path.len() as int) == seq!['.', 'p', 'n', 'g'],
        path[folder.len() as int] == (match purpose {
            Purpose::Screenshot => 's',
            Purpose::Region => 'r',
            Purpose::Zoom => 'z',
        }),
{
    let stamp = choose|stamp: Seq<char>| #[trigger]
        is_stamp(stamp) && path == stamped(folder, purpose, stamp);
    reveal_strlit(".png");
    reveal_strlit("screenshot_");
    reveal_strlit("region_");
    reveal_strlit("zoom_");
    assert(".png"@ =~= seq!['.', 'p', 'n', 'g']);
    let name = capture_name(purpose);
    assert(path =~= folder + (name + stamp + ".png"@));
    assert(path.subrange(path.len() - 4, path.len() as int) =~= ".png"@);
    assert(path[folder.len() as int] == name[0]);
}

/// A magnified side is the side times the scale, rounded down, but for the
/// rounding of the last digit.
pub proof fn a_magnified_side_is_the_side_times_the_scale(side: u32, units: nat)
    requires
        units <= 16 * rounding::pow2(float::double_format().one()),
        side <= 0x0fff_ffff,
    ensures
        ({
            let one = rounding::pow2(float::double_format().one());
            let big = 0x20_0000_0000_0000int;
            let r = magnified(side, float::Value::Finite(false, units));
            &&& (r * one - side * units) * big <= side * units
            &&& (side * units - (r + 1) * one) * big <= side * units
        }),
{
    let f = float::double_format();
    let one = rounding::pow2(f.one());
    let big = rounding::pow2(53);
    let exact = side as nat * units;
    rounding::lemma_pow2_pos(f.one());
    float::lemma_power_120();
    arithmetic::lemma_natural_exact(f, side as nat);
    assert((side as nat * one) * units == one * exact) by (nonlinear_arith)
        requires
            exact == side as nat * units,
    ;
    assert(one * 1 == one);
    rounding::lemma_nearest_scale(exact, 1, 53, one);
    let v = rounding::nearest(exact, 1, 53);
    rounding::lemma_pow2_adds(32, f.one());
    reveal_with_fuel(rounding::pow2, 33);
    assert(rounding::pow2(32) == 0x1_0000_0000);
    assert(exact <= 0xffff_fff0 * one) by (nonlinear_arith)
        requires
            exact == side as nat * units,
            units <= 16 * one,
            side <= 0x0fff_ffff,
    ;
    assert(0xffff_fff0 * one <= 1 * rounding::pow2(32 + f.one())) by (nonlinear_arith)
        requires
            rounding::pow2(32 + f.one()) == 0x1_0000_0000 * one,
    ;
    rounding::lemma_nearest_at_most(exact, 1, 53, 32 + f.one());
    rounding::lemma_pow2_monotone((33 + f.one()) as nat, f.top as nat);
    rounding::lemma_pow2_pos(32 + f.one());
    arithmetic::lemma_exact(0xffff_fff0, f.one(), 53);
    rounding::lemma_nearest_monotone(exact, 0xffff_fff0 * one, 1, 53);
    assert((v - exact) * big <= exact && (exact - v) * big <= exact) by {
        if exact >= rounding::pow2(52) {
            assert(1 * rounding::pow2(52) == rounding::pow2(52));
            rounding::lemma_nearest_error(exact, 1, 53);
            assert(v * 1 == v);
            assert((v - exact) * big == v * big - exact * big) by (nonlinear_arith);
            assert((exact - v) * big == exact * big - v * big) by (nonlinear_arith);
            assert(exact * (big + 1) == exact * big + exact) by (nonlinear_arith);
            assert(exact * (big - 1) == exact * big - exact) by (nonlinear_arith);
        } else {
            rounding::lemma_pow2_zero(exact);
            rounding::lemma_pow2_pos(52);
            assert(big == 2 * rounding::pow2(52));
            arithmetic::lemma_exact(exact, 0, 53);
            assert((v - exact) * big == 0) by (nonlinear_arith)
                requires
                    v == exact,
            ;
        }
    }
    let r = v / one;
    vstd::arithmetic::div_mod::lemma_fundamental_div_mod(v as int, one as int);
    let rest = v % one;
    assert(r <= u32::MAX) by (nonlinear_arith)
        requires
            v == one * r + rest,
            rest >= 0,
            v <= 0xffff_fff0 * one,
            one >= 1,
    ;
    assert(magnified(side, float::Value::Finite(false, units)) == r);
    let low = r * one;
    assert(low == one * r) by (nonlinear_arith)
        requires
            low == r * one,
    ;
    assert((r + 1) * one == low + one) by (nonlinear_arith)
        requires
            low == r * one,
    ;
    assert((low - exact) * big <= exact && (exact - (low + one)) * big <= exact)
        by (nonlinear_arith)
        requires
            v == low + rest,
            0 <= rest < one,
            (v - exact) * big <= exact,
            (exact - v) * big <= exact,
            big >= 1,
    ;
}

/// A monitor that is not there is told by its number, with the last of those that
/// are, which are counted from zero.
pub proof fn a_missing_monitor_is_told_by_number(monitor: usize, screens: usize) -> (r: (
    Seq<char>,
    Seq<char>,
))
    requires
        screens > 0,
    ensures
        no_monitor(monitor) == "Monitor "@ + r.0 + " not found"@,
        no_monitor_among(monitor, screens) == "Monitor "@ + r.0 + " not found"@
            + ". Available: 0-"@ + r.1,
        text::number_read(r.0) == monitor,
        text::number_read(r.1) == screens - 1,
{
    text::decimal_digits_read_back(monitor as nat);
    text::decimal_digits_read_back((screens - 1) as nat);
    (text::decimal(monitor as nat), text::decimal((screens - 1) as nat))
}

/// A capture is kept where it was asked to be, if it was.
pub proof fn a_named_capture_is_kept_under_its_name(
    folder: Seq<char>,
    purpose: Purpose,
    save_path: String,
    path: Seq<char>,
)
    requires
        keeps(folder, purpose, Some(save_path), path),
    ensures
        path == save_path@,
{
}

/// A magnified image has the size that was asked for, and is what the Lanczos
/// filter makes of the image at that size, or the image itself where it has that
/// size already.
pub proof fn a_magnified_image_is_made_by_the_filter(
    img: RgbaImage,
    width: u32,
    height: u32,
    scaled: RgbaImage,
)
    requires
        is_magnified(img, width, height, scaled),
    ensures
        scaled.valid() && scaled.width == width && scaled.height == height,
        raster::lanczos_makes(img.data@, img.width, img.height, width, height, scaled.data@),
        width == img.width && height == img.height ==> scaled.data@ == img.data@,
{
}

} // verus!
