//! What the tools answer.
use vstd::prelude::*;
use crate::arithmetic;
use crate::bits;
use crate::diff;
use crate::float;
use crate::json;
use crate::rounding;
use crate::template;
use crate::text;
use crate::float::Float;
use crate::json::Doc;
use crate::json::Fields;
use crate::json::Json;

verus! {

/// A part of the screen: its corner and its sides.
#[derive(Clone, Copy, Debug, PartialEq, Eq)]
pub struct Area {
    pub x: i32,
    pub y: i32,
    pub width: u32,
    pub height: u32,
}

/// The answer of a tool that failed.
pub open spec fn error_fields(e: Seq<char>) -> Seq<(Seq<char>, Doc)> {
    seq![("error"@, Doc::Text(e))]
}

/// The answer of a tool that failed.
pub fn error_answer(e: &str) -> (r: Json)
    ensures
        r.doc() == Doc::Object(error_fields(e@)),
{
    let fields = Fields::new().with("error", json::text_value(e));
    assert(fields.docs() =~= error_fields(e@));
    fields.object()
}

/// How many bytes a text takes.
pub open spec fn bytes_of(s: Seq<char>) -> Doc {
    Doc::Integer(vstd::utf8::encode_utf8(s).len() as int)
}

fn bytes_value(s: &str) -> (r: Json)
    ensures
        r.doc() == bytes_of(s@),
{
    Json::Unsigned(text::byte_length(s) as u64)
}

/// A screenshot was taken: where it is, and what is in it if that was asked.
pub open spec fn screenshot_fields(
    path: Seq<char>,
    monitor: usize,
    data: Option<Seq<char>>,
) -> Seq<(Seq<char>, Doc)> {
    let fields = seq![
        ("success"@, Doc::Bool(true)),
        ("path"@, Doc::Text(path)),
        ("monitor"@, Doc::Integer(monitor as int)),
    ];
    match data {
        Some(s) => fields.push(("base64"@, Doc::Text(s))),
        None => fields,
    }
}

/// A screenshot was taken: where it is, and what is in it if that was asked.
pub fn screenshot_answer(path: &str, monitor: usize, data: Option<String>) -> (r: Json)
    ensures
        r.doc() == Doc::Object(
            screenshot_fields(path@, monitor, text::told(data)),
        ),
{
    let fields = Fields::new().with("success", Json::Bool(true)).with(
        "path",
        json::text_value(path),
    ).with("monitor", Json::Unsigned(monitor as u64));
    assert(fields.docs() =~= screenshot_fields(path@, monitor, None));
    match data {
        Some(s) => fields.with("base64", Json::Text(s)).object(),
        None => fields.object(),
    }
}

/// An image was read.
pub open spec fn ocr_fields(said: Seq<char>, image_path: Seq<char>) -> Seq<(Seq<char>, Doc)> {
    seq![
        ("success"@, Doc::Bool(true)),
        ("text"@, Doc::Text(said)),
        ("image_path"@, Doc::Text(image_path)),
        ("chars"@, bytes_of(said)),
    ]
}

/// An image was read.
pub fn ocr_answer(said: &str, image_path: &str) -> (r: Json)
    ensures
        r.doc() == Doc::Object(ocr_fields(said@, image_path@)),
{
    let fields = Fields::new().with("success", Json::Bool(true)).with(
        "text",
        json::text_value(said),
    ).with("image_path", json::text_value(image_path)).with("chars", bytes_value(said));
    assert(fields.docs() =~= ocr_fields(said@, image_path@));
    fields.object()
}

/// A screenshot was taken and read; `saved` tells whether it was kept.
pub open spec fn screenshot_ocr_fields(said: Seq<char>, saved: bool) -> Seq<(Seq<char>, Doc)> {
    seq![
        ("success"@, Doc::Bool(true)),
        ("text"@, Doc::Text(said)),
        ("chars"@, bytes_of(said)),
        ("screenshot_saved"@, Doc::Bool(saved)),
    ]
}

/// A screenshot was taken and read; `saved` tells whether it was kept.
pub fn screenshot_ocr_answer(said: &str, saved: bool) -> (r: Json)
    ensures
        r.doc() == Doc::Object(screenshot_ocr_fields(said@, saved)),
{
    let fields = Fields::new().with("success", Json::Bool(true)).with(
        "text",
        json::text_value(said),
    ).with("chars", bytes_value(said)).with("screenshot_saved", Json::Bool(saved));
    assert(fields.docs() =~= screenshot_ocr_fields(said@, saved));
    fields.object()
}

/// There is nothing but white space and bars, of which frames are drawn.
pub open spec fn only_frame(s: Seq<char>) -> bool {
    forall|i: int| 0 <= i < s.len() ==> text::blank(#[trigger] s[i]) || s[i] == '|'
}

/// What was read looks like something that was typed: trimmed, it is longer
/// than five bytes and more than the frame of an empty box.
pub open spec fn typed(said: Seq<char>) -> bool {
    let s = text::trimmed(said);
    s.len() > 0 && vstd::utf8::encode_utf8(s).len() > 5 && !only_frame(s)
}

fn is_only_frame(s: &str) -> (r: bool)
    ensures
        r == only_frame(s@),
{
    let chars = text::characters(s);
    let mut i: usize = 0;
    while i < chars.len()
        invariant
            chars@ == s@,
            i <= chars@.len(),
            forall|j: int| 0 <= j < i ==> text::blank(#[trigger] s@[j]) || s@[j] == '|',
        decreases chars@.len() - i,
    {
        if !text::is_blank(chars[i]) && chars[i] != '|' {
            assert(s@[i as int] == chars@[i as int]);
            return false;
        }
        i = i + 1;
    }
    true
}

/// What was read at the bottom of the screen: whether somebody typed, and what.
pub open spec fn input_fields(said: Seq<char>) -> Seq<(Seq<char>, Doc)> {
    let s = text::trimmed(said);
    seq![
        ("success"@, Doc::Bool(true)),
        ("has_user_input"@, Doc::Bool(typed(said))),
        (
            "text"@,
            Doc::Text(
                if typed(said) {
                    s
                } else {
                    ""@
                },
            ),
        ),
        (
            "chars"@,
            if typed(said) {
                bytes_of(s)
            } else {
                Doc::Integer(0)
            },
        ),
        (
            "hint"@,
            Doc::Text(
                if typed(said) {
                    "User may have typed input"@
                } else {
                    "No user input detected"@
                },
            ),
        ),
    ]
}

/// What was read at the bottom of the screen: whether somebody typed, and what.
pub fn input_answer(said: &str) -> (r: Json)
    ensures
        r.doc() == Doc::Object(input_fields(said@)),
{
    let trimmed = text::trim(said);
    let s = trimmed.as_str();
    let has_input = !s.is_empty() && text::byte_length(s) > 5 && !is_only_frame(s);
    let shown = if has_input {
        s
    } else {
        ""
    };
    let chars = if has_input {
        bytes_value(s)
    } else {
        Json::Unsigned(0)
    };
    let hint = if has_input {
        "User may have typed input"
    } else {
        "No user input detected"
    };
    let fields = Fields::new().with("success", Json::Bool(true)).with(
        "has_user_input",
        Json::Bool(has_input),
    ).with("text", json::text_value(shown)).with("chars", chars).with(
        "hint",
        json::text_value(hint),
    );
    assert(fields.docs() =~= input_fields(said@));
    fields.object()
}

/// White space alone does not pass for something typed.
pub proof fn white_space_is_not_typed(said: Seq<char>)
    requires
        forall|i: int| 0 <= i < said.len() ==> text::blank(#[trigger] said[i]),
    ensures
        !typed(said),
    decreases said.len(),
{
    if said.len() > 0 {
        let rest = said.subrange(1, said.len() as int);
        assert(text::blank(said[0]));
        assert forall|i: int| 0 <= i < rest.len() implies text::blank(#[trigger] rest[i]) by {
            assert(text::blank(said[i + 1]));
        }
        white_space_is_not_typed(rest);
    }
}

/// Width and height.
pub open spec fn size_doc(width: u32, height: u32) -> Doc {
    Doc::Object(
        seq![("width"@, Doc::Integer(width as int)), ("height"@, Doc::Integer(height as int))],
    )
}

fn size_value(width: u32, height: u32) -> (r: Json)
    ensures
        r.doc() == size_doc(width, height),
{
    let fields = Fields::new().with("width", Json::Unsigned(width as u64)).with(
        "height",
        Json::Unsigned(height as u64),
    );
    assert(fields.docs() =~= size_doc(width, height)->Object_0);
    fields.object()
}

/// The corner and sides of an area.
pub open spec fn area_doc(a: Area) -> Doc {
    Doc::Object(
        seq![
            ("x"@, Doc::Integer(a.x as int)),
            ("y"@, Doc::Integer(a.y as int)),
            ("width"@, Doc::Integer(a.width as int)),
            ("height"@, Doc::Integer(a.height as int)),
        ],
    )
}

fn area_value(a: Area) -> (r: Json)
    ensures
        r.doc() == area_doc(a),
{
    let fields = Fields::new().with("x", Json::Signed(a.x as i64)).with(
        "y",
        Json::Signed(a.y as i64),
    ).with("width", Json::Unsigned(a.width as u64)).with("height", Json::Unsigned(a.height as u64));
    assert(fields.docs() =~= area_doc(a)->Object_0);
    fields.object()
}

/// A part of the screen was magnified: where it is kept, and at what size.
pub open spec fn zoom_fields(
    path: Seq<char>,
    area: Area,
    scale: float::Value,
    width: u32,
    height: u32,
) -> Seq<(Seq<char>, Doc)> {
    seq![
        ("success"@, Doc::Bool(true)),
        ("path"@, Doc::Text(path)),
        ("region"@, area_doc(area)),
        ("scale"@, json::number(scale)),
        ("output_width"@, Doc::Integer(width as int)),
        ("output_height"@, Doc::Integer(height as int)),
    ]
}

/// A part of the screen was magnified: where it is kept, and at what size.
pub fn zoom_answer(path: &str, area: Area, scale: u64, width: u32, height: u32) -> (r: Json)
    ensures
        r.doc() == Doc::Object(
            zoom_fields(path@, area, bits::double_value(scale), width, height),
        ),
{
    let fields = Fields::new().with("success", Json::Bool(true)).with(
        "path",
        json::text_value(path),
    ).with("region", area_value(area)).with("scale", json::number_value(scale)).with(
        "output_width",
        Json::Unsigned(width as u64),
    ).with("output_height", Json::Unsigned(height as u64));
    assert(fields.docs() =~= zoom_fields(path@, area, bits::double_value(scale), width, height));
    fields.object()
}

/// What is noted of an answer that a service gave.
pub open spec fn service_note(service: Seq<char>) -> Seq<char> {
    "Used "@ + service + " Vision API (tokens consumed)"@
}

/// An image was analyzed by a service, which goes by this name.
pub open spec fn analyze_fields(
    analysis: Seq<char>,
    image_path: Seq<char>,
    service: Seq<char>,
) -> Seq<(Seq<char>, Doc)> {
    seq![
        ("success"@, Doc::Bool(true)),
        ("analysis"@, Doc::Text(analysis)),
        ("image_path"@, Doc::Text(image_path)),
        ("note"@, Doc::Text(service_note(service))),
    ]
}

/// An image was analyzed by a service, which goes by this name.
pub fn analyze_answer(analysis: &str, image_path: &str, service: &str) -> (r: Json)
    ensures
        r.doc() == Doc::Object(analyze_fields(analysis@, image_path@, service@)),
{
    let mut note = text::joined_texts("Used ", service);
    note.append(" Vision API (tokens consumed)");
    let fields = Fields::new().with("success", Json::Bool(true)).with(
        "analysis",
        json::text_value(analysis),
    ).with("image_path", json::text_value(image_path)).with(
        "note",
        Json::Text(note),
    );
    assert(fields.docs() =~= analyze_fields(analysis@, image_path@, service@));
    fields.object()
}

/// The contents of an image file.
pub open spec fn source_fields(media_type: Seq<char>, data: Seq<char>) -> Seq<(Seq<char>, Doc)> {
    seq![
        ("type"@, Doc::Text("base64"@)),
        ("media_type"@, Doc::Text(media_type)),
        ("data"@, Doc::Text(data)),
    ]
}

/// An image file.
pub open spec fn image_fields(media_type: Seq<char>, data: Seq<char>) -> Seq<(Seq<char>, Doc)> {
    seq![
        ("type"@, Doc::Text("image"@)),
        ("source"@, Doc::Object(source_fields(media_type, data))),
    ]
}

/// An image file.
pub fn image_answer(media_type: &str, data: &str) -> (r: Json)
    ensures
        r.doc() == Doc::Object(image_fields(media_type@, data@)),
{
    let source = Fields::new().with("type", json::text_value("base64")).with(
        "media_type",
        json::text_value(media_type),
    ).with("data", json::text_value(data));
    assert(source.docs() =~= source_fields(media_type@, data@));
    let fields = Fields::new().with("type", json::text_value("image")).with(
        "source",
        source.object(),
    );
    assert(fields.docs() =~= image_fields(media_type@, data@));
    fields.object()
}

/// A number rounded to hundredths, halves up.
pub open spec fn hundredths(v: float::Value) -> float::Value {
    let f = float::double_format();
    let hundred = float::natural(f, 100);
    if v is Nan {
        v
    } else {
        float::quotient(
            f,
            float::natural(f, float::round_u32(f, float::product(f, v, hundred)) as nat),
            hundred,
        )
    }
}

/// A number rounded to hundredths, halves up.
pub fn to_hundredths(v: u64) -> (r: u64)
    ensures
        bits::double_value(r) == hundredths(bits::double_value(v)),
{
    let f = float::double();
    let x = bits::double_from_bits(v);
    let hundred = Float::from_natural(f, 100);
    let y = match x {
        Float::Nan => x,
        _ => Float::from_natural(f, x.times(f, hundred).round_to_u32(f) as u64).over(f, hundred),
    };
    proof {
        bits::double_encoding_reads_back(y);
    }
    bits::double_to_bits(y)
}

/// Images pass for changed where more than a tenth of a percent differs.
pub open spec fn changed(percent: float::Value) -> bool {
    float::less(float::ratio(float::double_format(), 1, 10), percent)
}

/// Images were compared.
pub open spec fn diff_fields(
    percent: float::Value,
    threshold: u8,
    width: u32,
    height: u32,
) -> Seq<(Seq<char>, Doc)> {
    seq![
        ("success"@, Doc::Bool(true)),
        ("changed"@, Doc::Bool(changed(percent))),
        ("diff_percent"@, json::number(hundredths(percent))),
        ("threshold"@, Doc::Integer(threshold as int)),
        ("dimensions"@, size_doc(width, height)),
    ]
}

/// Images were compared.
pub fn diff_answer(percent: u64, threshold: u8, width: u32, height: u32) -> (r: Json)
    ensures
        r.doc() == Doc::Object(diff_fields(bits::double_value(percent), threshold, width, height)),
{
    let f = float::double();
    let tenth = Float::from_ratio(f, 1, 10);
    let is_changed = tenth.below(f, bits::double_from_bits(percent));
    let fields = Fields::new().with("success", Json::Bool(true)).with(
        "changed",
        Json::Bool(is_changed),
    ).with("diff_percent", json::number_value(to_hundredths(percent))).with(
        "threshold",
        Json::Unsigned(threshold as u64),
    ).with("dimensions", size_value(width, height));
    assert(fields.docs() =~= diff_fields(bits::double_value(percent), threshold, width, height));
    fields.object()
}

/// A template was looked for: where it is and how sure that is, or that it was
/// not found.
pub open spec fn find_fields(
    found: Option<(u32, u32, float::Value)>,
    nw: u32,
    nh: u32,
    threshold: float::Value,
) -> Seq<(Seq<char>, Doc)> {
    match found {
        Some((x, y, c)) => seq![
            ("success"@, Doc::Bool(true)),
            ("found"@, Doc::Bool(true)),
            ("x"@, Doc::Integer(x as int)),
            ("y"@, Doc::Integer(y as int)),
            ("center_x"@, Doc::Integer(x + nw / 2)),
            ("center_y"@, Doc::Integer(y + nh / 2)),
            ("confidence"@, json::number(hundredths(c))),
            ("template_size"@, size_doc(nw, nh)),
        ],
        None => seq![
            ("success"@, Doc::Bool(true)),
            ("found"@, Doc::Bool(false)),
            ("threshold"@, json::number(threshold)),
        ],
    }
}

/// A template was looked for: where it is and how sure that is, or that it was
/// not found.
pub fn find_answer(found: Option<(u32, u32, u64)>, nw: u32, nh: u32, threshold: u64) -> (r: Json)
    ensures
        r.doc() == Doc::Object(
            find_fields(template::decoded(found), nw, nh, bits::double_value(threshold)),
        ),
{
    let start = Fields::new().with("success", Json::Bool(true));
    let fields = match found {
        Some((x, y, c)) => {
            let across: u64 = x as u64 + (nw / 2) as u64;
            let down: u64 = y as u64 + (nh / 2) as u64;
            start.with("found", Json::Bool(true)).with("x", Json::Unsigned(x as u64)).with(
                "y",
                Json::Unsigned(y as u64),
            ).with("center_x", Json::Unsigned(across)).with(
                "center_y",
                Json::Unsigned(down),
            ).with("confidence", json::number_value(to_hundredths(c))).with(
                "template_size",
                size_value(nw, nh),
            )
        },
        None => start.with("found", Json::Bool(false)).with(
            "threshold",
            json::number_value(threshold),
        ),
    };
    assert(fields.docs() =~= find_fields(
        template::decoded(found),
        nw,
        nh,
        bits::double_value(threshold),
    ));
    fields.object()
}

/// Images pass for changed just where more than one pixel in a thousand differs.
/// Where it is exactly one in a thousand that rests on the last digit.
pub proof fn images_have_changed_above_one_pixel_in_a_thousand(count: nat, total: nat)
    requires
        count <= total,
        0 < total <= 0x4_0000_0000_0000,
    ensures
        1000 * count > total ==> changed(diff::percentage(count, total)),
        1000 * count < total ==> !changed(diff::percentage(count, total)),
{
    let f = float::double_format();
    let one = rounding::pow2(f.one());
    let big = rounding::pow2(53);
    let tenth = rounding::nearest(one, 10, 53);
    rounding::lemma_pow2_pos(f.one());
    float::lemma_power_120();
    rounding::lemma_pow2_monotone(60, f.one());
    rounding::lemma_pow2_pos(52);
    assert(big == 2 * rounding::pow2(52));
    assert(1 * one == one);
    rounding::lemma_nearest_error(one, 10, 53);
    rounding::lemma_nearest_at_most(one, 10, 53, f.one());
    rounding::lemma_pow2_monotone((f.one() + 1) as nat, f.top as nat);
    assert(float::ratio(f, 1, 10) == float::Value::Finite(false, tenth));
    let p = diff::a_percentage_is_a_hundred_times_the_share(count, total);
    let exact = 100 * count * one;
    lemma_thousandth(p, tenth, count, total, one, exact);
}

proof fn lemma_thousandth(p: nat, tenth: nat, count: nat, total: nat, one: nat, exact: nat)
    requires
        one >= 1,
        0 < total <= 0x4_0000_0000_0000,
        exact == 100 * count * one,
        (p * total - exact) * 0x20_0000_0000_0000 <= 3 * exact,
        (exact - p * total) * 0x20_0000_0000_0000 <= 3 * exact,
        (tenth * 10) * 0x20_0000_0000_0000 <= one * 0x20_0000_0000_0001,
        (tenth * 10) * 0x20_0000_0000_0000 >= one * 0x1f_ffff_ffff_ffff,
    ensures
        1000 * count > total ==> tenth < p,
        1000 * count < total ==> p <= tenth,
{
    let big: nat = 0x20_0000_0000_0000;
    let c = 1000 * count;
    assert(10 * exact == c * one) by (nonlinear_arith)
        requires
            exact == 100 * count * one,
            c == 1000 * count,
    ;
    if c > total && p <= tenth {
        assert(10 * (p * total) <= (tenth * 10) * total) by (nonlinear_arith)
            requires
                p <= tenth,
        ;
        let t = (tenth * 10) * total;
        assert(t * big <= (one * (big + 1)) * total) by (nonlinear_arith)
            requires
                t == (tenth * 10) * total,
                (tenth * 10) * big <= one * (big + 1),
        ;
        assert((c * one) * (big - 3) <= (one * (big + 1)) * total) by (nonlinear_arith)
            requires
                10 * exact == c * one,
                (exact - p * total) * big <= 3 * exact,
                10 * (p * total) <= t,
                t * big <= (one * (big + 1)) * total,
                big == 0x20_0000_0000_0000,
        ;
        assert((c * (big - 3)) * one <= ((big + 1) * total) * one) by (nonlinear_arith)
            requires
                (c * one) * (big - 3) <= (one * (big + 1)) * total,
        ;
        assert(c * (big - 3) <= (big + 1) * total) by (nonlinear_arith)
            requires
                (c * (big - 3)) * one <= ((big + 1) * total) * one,
                one >= 1,
        ;
        assert(false) by (nonlinear_arith)
            requires
                c * (big - 3) <= (big + 1) * total,
                c >= total + 1,
                total <= 0x4_0000_0000_0000,
                big == 0x20_0000_0000_0000,
        ;
    }
    if c < total && p > tenth {
        assert(10 * (p * total) >= (tenth * 10) * total) by (nonlinear_arith)
            requires
                p > tenth,
        ;
        let t = (tenth * 10) * total;
        assert(t * big >= (one * (big - 1)) * total) by (nonlinear_arith)
            requires
                t == (tenth * 10) * total,
                (tenth * 10) * big >= one * (big - 1),
        ;
        assert((c * one) * (big + 3) >= (one * (big - 1)) * total) by (nonlinear_arith)
            requires
                10 * exact == c * one,
                (p * total - exact) * big <= 3 * exact,
                10 * (p * total) >= t,
                t * big >= (one * (big - 1)) * total,
                big == 0x20_0000_0000_0000,
        ;
        assert((c * (big + 3)) * one >= ((big - 1) * total) * one) by (nonlinear_arith)
            requires
                (c * one) * (big + 3) >= (one * (big - 1)) * total,
        ;
        assert(c * (big + 3) >= (big - 1) * total) by (nonlinear_arith)
            requires
                (c * (big + 3)) * one >= ((big - 1) * total) * one,
                one >= 1,
        ;
        assert(false) by (nonlinear_arith)
            requires
                c * (big + 3) >= (big - 1) * total,
                c <= total - 1,
                total <= 0x4_0000_0000_0000,
                big == 0x20_0000_0000_0000,
        ;
    }
}

/// A number rounded to hundredths is a whole number of them, and no more than
/// half a hundredth away from the number, but for the rounding of the last
/// digit.
pub proof fn hundredths_are_near(units: nat) -> (n: nat)
    requires
        units <= 1000 * rounding::pow2(float::double_format().one()),
    ensures
        hundredths(float::Value::Finite(false, units)) == float::ratio(
            float::double_format(),
            n,
            100,
        ),
        ({
            let one = rounding::pow2(float::double_format().one());
            let big = 0x20_0000_0000_0000int;
            &&& 2 * (n * one - 100 * units) * big <= one * big + 200 * units
            &&& 2 * (100 * units - n * one) * big <= one * big + 200 * units
        }),
{
    let f = float::double_format();
    let one = rounding::pow2(f.one());
    let big = rounding::pow2(53);
    rounding::lemma_pow2_pos(f.one());
    float::lemma_power_120();
    arithmetic::lemma_natural_exact(f, 100);
    let exact = 100 * units;
    let v = rounding::nearest(exact, 1, 53);
    assert(units * (100 * one) == one * exact) by (nonlinear_arith)
        requires
            exact == 100 * units,
    ;
    assert(one * 1 == one);
    rounding::lemma_nearest_scale(exact, 1, 53, one);
    // The product is near, and far from too large.
    rounding::lemma_pow2_adds(17, f.one());
    reveal_with_fuel(rounding::pow2, 18);
    assert(rounding::pow2(17) == 131072);
    assert(exact <= 1 * rounding::pow2(17 + f.one())) by (nonlinear_arith)
        requires
            exact == 100 * units,
            units <= 1000 * one,
            rounding::pow2(17 + f.one()) == 131072 * one,
    ;
    rounding::lemma_nearest_at_most(exact, 1, 53, 17 + f.one());
    rounding::lemma_pow2_monotone((18 + f.one()) as nat, f.top as nat);
    rounding::lemma_pow2_pos(17 + f.one());
    if exact >= rounding::pow2(52) {
        assert(1 * rounding::pow2(52) == rounding::pow2(52));
        rounding::lemma_nearest_error(exact, 1, 53);
        assert(v * 1 == v);
    } else {
        rounding::lemma_pow2_zero(exact);
        rounding::lemma_pow2_pos(52);
        assert(big == 2 * rounding::pow2(52));
        arithmetic::lemma_exact(exact, 0, 53);
    }
    assert((v - exact) * big <= exact && (exact - v) * big <= exact) by {
        if exact >= rounding::pow2(52) {
            assert((v - exact) * big == v * big - exact * big) by (nonlinear_arith);
            assert((exact - v) * big == exact * big - v * big) by (nonlinear_arith);
            assert(exact * (big + 1) == exact * big + exact) by (nonlinear_arith);
            assert(exact * (big - 1) == exact * big - exact) by (nonlinear_arith);
        } else {
            assert((v - exact) * big == 0) by (nonlinear_arith)
                requires
                    v == exact,
            ;
        }
    }
    let q = (2 * v + one) / (2 * one);
    vstd::arithmetic::div_mod::lemma_fundamental_div_mod((2 * v + one) as int, (2 * one) as int);
    let rest = (2 * v + one) % (2 * one);
    assert(2 * v + one == (2 * one) * q + rest);
    assert(0 <= rest < 2 * one);
    assert(q <= 200000) by (nonlinear_arith)
        requires
            2 * v + one >= (2 * one) * q,
            v <= 131072 * one,
            one >= 1,
    ;
    let n = q;
    assert(float::round_u32(f, float::Value::Finite(false, v)) == n);
    assert(float::product(f, float::Value::Finite(false, units), float::natural(f, 100))
        == float::Value::Finite(false, v));
    arithmetic::lemma_natural_exact(f, n);
    assert((n * one) * one == one * (n * one)) by (nonlinear_arith);
    assert(100 * one == one * 100);
    rounding::lemma_nearest_scale(n * one, 100, 53, one);
    assert((2 * one) * q == 2 * (n * one)) by (nonlinear_arith)
        requires
            q == n,
    ;
    let near = n * one;
    assert(2 * (near - exact) * big <= one * big + 2 * exact && 2 * (exact - near) * big <= one
        * big + 2 * exact) by (nonlinear_arith)
        requires
            2 * v + one == 2 * near + rest,
            0 <= rest < 2 * one,
            (v - exact) * big <= exact,
            (exact - v) * big <= exact,
            big >= 1,
    ;
    n
}

/// Something was typed where what was read, trimmed, takes more than five bytes
/// and has something else in it than white space and bars; and nothing was where
/// one of these fails. `i` and `j` are the first and the last character that are
/// not white space.
pub proof fn what_passes_for_typed(said: Seq<char>, i: int, j: int)
    requires
        0 <= i <= j < said.len(),
        forall|k: int| 0 <= k < i || j < k < said.len() ==> text::blank(#[trigger] said[k]),
        !text::blank(said[i]),
        !text::blank(said[j]),
    ensures
        typed(said) <==> vstd::utf8::encode_utf8(said.subrange(i, j + 1)).len() > 5 && exists|
            k: int,
        |
            i <= k <= j && !text::blank(#[trigger] said[k]) && said[k] != '|',
        text::trimmed(said) == said.subrange(i, j + 1),
{
    let (a, b) = text::trimming_takes_white_space_only(said);
    assert(!text::blank(said[i]));
    assert(a == i && b == j + 1);
    let s = said.subrange(i, j + 1);
    if !only_frame(s) {
        let k = choose|k: int| 0 <= k < s.len() && !(text::blank(#[trigger] s[k]) || s[k] == '|');
        assert(said[i + k] == s[k]);
    } else {
        assert forall|k: int| i <= k <= j implies text::blank(#[trigger] said[k]) || said[k]
            == '|' by {
            assert(s[k - i] == said[k]);
        }
    }
}

/// Of images without pixels no share is told, and they have not changed.
pub proof fn images_without_pixels_have_not_changed()
    ensures
        json::number(hundredths(diff::percentage(0, 0))) == Doc::Null,
        !changed(diff::percentage(0, 0)),
{
    let f = float::double_format();
    float::lemma_power_120();
    rounding::lemma_pow2_pos(53);
    arithmetic::lemma_natural_exact(f, 0);
    assert(0 * rounding::pow2(f.one()) == 0) by (nonlinear_arith);
}

} // verus!
