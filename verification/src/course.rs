//! The course of each tool, from what it is given to what it answers.
use vstd::prelude::*;
use crate::answers;
use crate::backend;
use crate::catalogue;
use crate::diff;
use crate::encoding;
use crate::execute;
use crate::float;
use crate::json;
use crate::media;
use crate::resume;
use crate::screen;
use crate::template;
use crate::text;
use crate::answers::Area;
use crate::execute::Action;
use crate::execute::Event;
use crate::execute::Next;
use crate::execute::State;
use crate::execute::Turn;
use crate::execute::Waiting;
use crate::json::Doc;
use crate::raster::RgbaImage;
use crate::resume::Machine;

verus! {

/// The fields of one answer have names of their own.
spec fn names_differ() -> bool {
    &&& "active"@ != "available"@
    &&& "active"@ != "default"@
    &&& "active"@ != "note"@
    &&& "active"@ != "onnx_compiled"@
    &&& "active"@ != "paddle_models_present"@
    &&& "analysis"@ != "image_path"@
    &&& "analysis"@ != "note"@
    &&& "analysis"@ != "success"@
    &&& "available"@ != "default"@
    &&& "available"@ != "note"@
    &&& "available"@ != "onnx_compiled"@
    &&& "available"@ != "paddle_models_present"@
    &&& "base64"@ != "monitor"@
    &&& "base64"@ != "path"@
    &&& "base64"@ != "success"@
    &&& "center_x"@ != "center_y"@
    &&& "center_x"@ != "confidence"@
    &&& "center_x"@ != "found"@
    &&& "center_x"@ != "success"@
    &&& "center_x"@ != "template_size"@
    &&& "center_x"@ != "x"@
    &&& "center_x"@ != "y"@
    &&& "center_y"@ != "confidence"@
    &&& "center_y"@ != "found"@
    &&& "center_y"@ != "success"@
    &&& "center_y"@ != "template_size"@
    &&& "center_y"@ != "x"@
    &&& "center_y"@ != "y"@
    &&& "changed"@ != "diff_percent"@
    &&& "changed"@ != "dimensions"@
    &&& "changed"@ != "success"@
    &&& "changed"@ != "threshold"@
    &&& "chars"@ != "has_user_input"@
    &&& "chars"@ != "hint"@
    &&& "chars"@ != "image_path"@
    &&& "chars"@ != "screenshot_saved"@
    &&& "chars"@ != "success"@
    &&& "chars"@ != "text"@
    &&& "confidence"@ != "found"@
    &&& "confidence"@ != "success"@
    &&& "confidence"@ != "template_size"@
    &&& "confidence"@ != "x"@
    &&& "confidence"@ != "y"@
    &&& "data"@ != "media_type"@
    &&& "data"@ != "type"@
    &&& "default"@ != "note"@
    &&& "default"@ != "onnx_compiled"@
    &&& "default"@ != "paddle_models_present"@
    &&& "diff_percent"@ != "dimensions"@
    &&& "diff_percent"@ != "success"@
    &&& "diff_percent"@ != "threshold"@
    &&& "dimensions"@ != "success"@
    &&& "dimensions"@ != "threshold"@
    &&& "found"@ != "success"@
    &&& "found"@ != "template_size"@
    &&& "found"@ != "threshold"@
    &&& "found"@ != "x"@
    &&& "found"@ != "y"@
    &&& "has_user_input"@ != "hint"@
    &&& "has_user_input"@ != "success"@
    &&& "has_user_input"@ != "text"@
    &&& "height"@ != "width"@
    &&& "height"@ != "x"@
    &&& "height"@ != "y"@
    &&& "hint"@ != "success"@
    &&& "hint"@ != "text"@
    &&& "image_path"@ != "note"@
    &&& "image_path"@ != "success"@
    &&& "image_path"@ != "text"@
    &&& "media_type"@ != "type"@
    &&& "monitor"@ != "path"@
    &&& "monitor"@ != "success"@
    &&& "note"@ != "onnx_compiled"@
    &&& "note"@ != "paddle_models_present"@
    &&& "note"@ != "success"@
    &&& "onnx_compiled"@ != "paddle_models_present"@
    &&& "output_height"@ != "output_width"@
    &&& "output_height"@ != "path"@
    &&& "output_height"@ != "region"@
    &&& "output_height"@ != "scale"@
    &&& "output_height"@ != "success"@
    &&& "output_width"@ != "path"@
    &&& "output_width"@ != "region"@
    &&& "output_width"@ != "scale"@
    &&& "output_width"@ != "success"@
    &&& "path"@ != "region"@
    &&& "path"@ != "scale"@
    &&& "path"@ != "success"@
    &&& "region"@ != "scale"@
    &&& "region"@ != "success"@
    &&& "scale"@ != "success"@
    &&& "screenshot_saved"@ != "success"@
    &&& "screenshot_saved"@ != "text"@
    &&& "source"@ != "type"@
    &&& "success"@ != "template_size"@
    &&& "success"@ != "text"@
    &&& "success"@ != "threshold"@
    &&& "success"@ != "x"@
    &&& "success"@ != "y"@
    &&& "template_size"@ != "x"@
    &&& "template_size"@ != "y"@
    &&& "threshold"@ != "x"@
    &&& "threshold"@ != "y"@
    &&& "width"@ != "x"@
    &&& "width"@ != "y"@
    &&& "x"@ != "y"@
}

proof fn lemma_names()
    ensures
        names_differ(),
{
    reveal_strlit("active");
    reveal_strlit("analysis");
    reveal_strlit("available");
    reveal_strlit("base64");
    reveal_strlit("center_x");
    reveal_strlit("center_y");
    reveal_strlit("changed");
    reveal_strlit("chars");
    reveal_strlit("confidence");
    reveal_strlit("data");
    reveal_strlit("default");
    reveal_strlit("diff_percent");
    reveal_strlit("dimensions");
    reveal_strlit("found");
    reveal_strlit("has_user_input");
    reveal_strlit("height");
    reveal_strlit("hint");
    reveal_strlit("image_path");
    reveal_strlit("media_type");
    reveal_strlit("monitor");
    reveal_strlit("note");
    reveal_strlit("onnx_compiled");
    reveal_strlit("output_height");
    reveal_strlit("output_width");
    reveal_strlit("paddle_models_present");
    reveal_strlit("path");
    reveal_strlit("region");
    reveal_strlit("scale");
    reveal_strlit("screenshot_saved");
    reveal_strlit("source");
    reveal_strlit("success");
    reveal_strlit("template_size");
    reveal_strlit("text");
    reveal_strlit("threshold");
    reveal_strlit("type");
    reveal_strlit("width");
    reveal_strlit("x");
    reveal_strlit("y");
    assert("active"@.len() == 6);
    assert("analysis"@.len() == 8);
    assert("available"@.len() == 9);
    assert("base64"@.len() == 6);
    assert("center_x"@.len() == 8);
    assert("center_y"@.len() == 8);
    assert("changed"@.len() == 7);
    assert("chars"@.len() == 5);
    assert("confidence"@.len() == 10);
    assert("data"@.len() == 4);
    assert("default"@.len() == 7);
    assert("diff_percent"@.len() == 12);
    assert("dimensions"@.len() == 10);
    assert("found"@.len() == 5);
    assert("has_user_input"@.len() == 14);
    assert("height"@.len() == 6);
    assert("hint"@.len() == 4);
    assert("image_path"@.len() == 10);
    assert("media_type"@.len() == 10);
    assert("monitor"@.len() == 7);
    assert("note"@.len() == 4);
    assert("onnx_compiled"@.len() == 13);
    assert("output_height"@.len() == 13);
    assert("output_width"@.len() == 12);
    assert("paddle_models_present"@.len() == 21);
    assert("path"@.len() == 4);
    assert("region"@.len() == 6);
    assert("scale"@.len() == 5);
    assert("screenshot_saved"@.len() == 16);
    assert("source"@.len() == 6);
    assert("success"@.len() == 7);
    assert("template_size"@.len() == 13);
    assert("text"@.len() == 4);
    assert("threshold"@.len() == 9);
    assert("type"@.len() == 4);
    assert("width"@.len() == 5);
    assert("x"@.len() == 1);
    assert("y"@.len() == 1);
    assert("center_x"@[7] != "center_y"@[7]);
    assert("changed"@[0] != "success"@[0]);
    assert("data"@[0] != "type"@[0]);
    assert("hint"@[0] != "text"@[0]);
    assert("monitor"@[0] != "success"@[0]);
    assert("x"@[0] != "y"@[0]);
}

/// The value of a field, looked up from the first field on.
spec fn looked_up(f: Seq<(Seq<char>, Doc)>, key: Seq<char>) -> Doc {
    if f.len() > 0 && f[0].0 == key {
        f[0].1
    } else if f.len() > 1 && f[1].0 == key {
        f[1].1
    } else if f.len() > 2 && f[2].0 == key {
        f[2].1
    } else if f.len() > 3 && f[3].0 == key {
        f[3].1
    } else if f.len() > 4 && f[4].0 == key {
        f[4].1
    } else if f.len() > 5 && f[5].0 == key {
        f[5].1
    } else if f.len() > 6 && f[6].0 == key {
        f[6].1
    } else if f.len() > 7 && f[7].0 == key {
        f[7].1
    } else {
        Doc::Null
    }
}

proof fn lemma_field(d: Doc, key: Seq<char>)
    ensures
        d is Object && d->Object_0.len() <= 8 ==> d.field(key) == looked_up(d->Object_0, key),
{
    if let Doc::Object(f) = d {
        let n = f.len() as int;
        let at = if n > 0 && f[0].0 == key {
            0
        } else if n > 1 && f[1].0 == key {
            1
        } else if n > 2 && f[2].0 == key {
            2
        } else if n > 3 && f[3].0 == key {
            3
        } else if n > 4 && f[4].0 == key {
            4
        } else if n > 5 && f[5].0 == key {
            5
        } else if n > 6 && f[6].0 == key {
            6
        } else if n > 7 && f[7].0 == key {
            7
        } else {
            n
        };
        if n <= 8 {
            json::lemma_found(f, key, at);
        }
    }
}

/// Each tool begins in its own way.
proof fn lemma_opened(args: Doc, service: Seq<char>)
    ensures
        execute::opened("vision_screenshot"@, args, service) == execute::open_screenshot(args),
        execute::opened("vision_ocr"@, args, service) == execute::open_ocr(args),
        execute::opened("vision_screenshot_ocr"@, args, service) == execute::open_screenshot_ocr(
            args,
        ),
        execute::opened("vision_check_user_input"@, args, service)
            == execute::open_check_user_input(args),
        execute::opened("vision_zoom"@, args, service) == execute::open_zoom(args),
        execute::opened("vision_analyze"@, args, service) == execute::open_analyze(args, service),
        execute::opened("vision_load_image"@, args, service) == execute::open_load_image(args),
        execute::opened("vision_diff"@, args, service) == execute::open_diff(args),
        execute::opened("vision_find_template"@, args, service) == execute::open_find_template(
            args,
        ),
        execute::opened("vision_ocr_backends"@, args, service) == Turn::<
            Seq<char>,
            Doc,
            float::Value,
        >::Ask(Action::LookAround, State::LookedAround),
{
    reveal_strlit("vision_screenshot");
    reveal_strlit("vision_ocr");
    reveal_strlit("vision_screenshot_ocr");
    reveal_strlit("vision_check_user_input");
    reveal_strlit("vision_zoom");
    reveal_strlit("vision_analyze");
    reveal_strlit("vision_load_image");
    reveal_strlit("vision_diff");
    reveal_strlit("vision_find_template");
    reveal_strlit("vision_ocr_backends");
    assert("vision_screenshot"@.len() == 17);
    assert("vision_ocr"@.len() == 10);
    assert("vision_screenshot_ocr"@.len() == 21);
    assert("vision_check_user_input"@.len() == 23);
    assert("vision_zoom"@.len() == 11);
    assert("vision_analyze"@.len() == 14);
    assert("vision_load_image"@.len() == 17);
    assert("vision_diff"@.len() == 11);
    assert("vision_find_template"@.len() == 20);
    assert("vision_ocr_backends"@.len() == 19);
    assert("vision_screenshot"@[7] != "vision_load_image"@[7]);
    assert("vision_zoom"@[7] != "vision_diff"@[7]);
}

/// A text argument: what is given, or nothing where it is left out.
pub open spec fn text_given(args: Doc, key: Seq<char>, s: Option<Seq<char>>) -> bool {
    args.field(key) == match s {
        Some(s) => Doc::Text(s),
        None => Doc::Null,
    }
}

/// A whole number from `low` to `high`: what is given, or this default where it
/// is left out.
pub open spec fn number_given(
    args: Doc,
    key: Seq<char>,
    v: int,
    low: int,
    high: int,
    default: int,
) -> bool {
    low <= v <= high && (args.field(key) == Doc::Integer(v) || (args.field(key) == Doc::Null && v
        == default))
}

/// A number: what is given, whole or not, or this ratio where it is left out.
pub open spec fn fraction_given(
    args: Doc,
    key: Seq<char>,
    v: float::Value,
    default: nat,
    over: nat,
) -> bool {
    ||| args.field(key) == Doc::Float(v)
    ||| args.field(key) matches Doc::Integer(n) && v == json::integer_value(n)
    ||| args.field(key) == Doc::Null && v == float::ratio(float::double_format(), default, over)
}

/// The part of the screen that is asked for: none, or one with these corners
/// and sides, or their defaults.
pub open spec fn region_given(args: Doc, region: Option<Area>) -> bool {
    let given = args.field("region"@);
    match region {
        None => !(given is Object),
        Some(a) => {
            &&& given is Object
            &&& number_given(given, "x"@, a.x as int, i32::MIN as int, i32::MAX as int, 0)
            &&& number_given(given, "y"@, a.y as int, i32::MIN as int, i32::MAX as int, 0)
            &&& number_given(given, "width"@, a.width as int, 0, u32::MAX as int, 400)
            &&& number_given(given, "height"@, a.height as int, 0, u32::MAX as int, 200)
        },
    }
}

/// The capture of a screen, or of a part of it.
pub open spec fn capture_asked(
    action: Action<Seq<char>>,
    save_path: Option<Seq<char>>,
    monitor: int,
    region: Option<Area>,
    quality: int,
) -> bool {
    match region {
        None => action matches Action::Screenshot { save_path: p, monitor: m, quality: q } && p
            == save_path && m == monitor && q == quality,
        Some(a) => action matches Action::Region { save_path: p, monitor: m, area, quality: q }
            && p == save_path && m == monitor && area == a && q == quality,
    }
}

/// The tool asks for this.
pub open spec fn asks(turn: Next, action: Action<Seq<char>>) -> bool {
    turn is Ask && turn->Ask_0 == action
}

/// The turn after one in which the tool asked for something, once it has it.
pub open spec fn after(turn: Next, event: Event<Seq<char>>, machine: Machine) -> Next {
    resume::resumed(turn->Ask_1, event, machine)
}

/// What is answered has a field of this name, with this value.
pub open spec fn says(turn: Next, key: Seq<char>, value: Doc) -> bool {
    turn matches Turn::Answer(d) && d.field(key) == value
}

/// A screenshot is taken of the monitor, or of the part of it, that was asked
/// for, at the quality and under the path that were asked for, and then told:
/// where it is and of which monitor. Its contents are told, in base 64, just
/// where that was asked for.
pub proof fn a_screenshot_is_taken_and_told(
    args: Doc,
    service: Seq<char>,
    save_path: Option<Seq<char>>,
    monitor: int,
    region: Option<Area>,
    quality: int,
    path: Seq<char>,
    bytes: Vec<u8>,
    machine: Machine,
)
    requires
        text_given(args, "save_path"@, save_path),
        number_given(args, "monitor"@, monitor, 0, u32::MAX as int, 0),
        number_given(args, "quality"@, quality, 0, 255, 80),
        region_given(args, region),
    ensures
        ({
            let turn = execute::opened("vision_screenshot"@, args, service);
            let second = after(turn, Event::Text(Ok(path)), machine);
            let encode = args.field("return_base64"@) == Doc::Bool(true);
            let last = if encode {
                after(second, Event::File(Ok(bytes)), machine)
            } else {
                second
            };
            &&& turn is Ask && capture_asked(turn->Ask_0, save_path, monitor, region, quality)
            &&& encode ==> asks(second, Action::Fetch { path })
            &&& says(last, "success"@, Doc::Bool(true))
            &&& says(last, "path"@, Doc::Text(path))
            &&& says(last, "monitor"@, Doc::Integer(monitor))
            &&& says(
                last,
                "base64"@,
                if encode {
                    Doc::Text(encoding::encoded(bytes@))
                } else {
                    Doc::Null
                },
            )
        }),
{
    lemma_opened(args, service);
    lemma_names();
    let data = if args.field("return_base64"@) == Doc::Bool(true) {
        Some(encoding::encoded(bytes@))
    } else {
        None
    };
    let d = Doc::Object(answers::screenshot_fields(path, monitor as usize, data));
    lemma_field(d, "success"@);
    lemma_field(d, "path"@);
    lemma_field(d, "monitor"@);
    lemma_field(d, "base64"@);
}

/// The image file that is given is read, in the language that is given, and what
/// was read is answered, with its length in bytes.
pub proof fn what_was_read_is_told(
    args: Doc,
    service: Seq<char>,
    path: Seq<char>,
    language: Option<Seq<char>>,
    said: Seq<char>,
    machine: Machine,
)
    requires
        args.field("image_path"@) == Doc::Text(path),
        text_given(args, "language"@, language),
    ensures
        ({
            let turn = execute::opened("vision_ocr"@, args, service);
            let last = after(turn, Event::Text(Ok(said)), machine);
            let spoken = match language {
                Some(l) => l,
                None => "en-US"@,
            };
            &&& asks(turn, Action::Read { path, language: spoken })
            &&& says(last, "success"@, Doc::Bool(true))
            &&& says(last, "text"@, Doc::Text(said))
            &&& says(last, "image_path"@, Doc::Text(path))
            &&& says(last, "chars"@, Doc::Integer(vstd::utf8::encode_utf8(said).len() as int))
        }),
{
    lemma_opened(args, service);
    lemma_names();
    let d = Doc::Object(answers::ocr_fields(said, path));
    lemma_field(d, "success"@);
    lemma_field(d, "text"@);
    lemma_field(d, "image_path"@);
    lemma_field(d, "chars"@);
}

/// A screenshot is taken as asked, read and told; it is removed before that just
/// where nobody said that it be kept.
pub proof fn a_screenshot_is_read_and_told(
    args: Doc,
    service: Seq<char>,
    save_path: Option<Seq<char>>,
    monitor: int,
    region: Option<Area>,
    path: Seq<char>,
    said: Seq<char>,
    machine: Machine,
)
    requires
        text_given(args, "save_screenshot"@, save_path),
        number_given(args, "monitor"@, monitor, 0, u32::MAX as int, 0),
        region_given(args, region),
    ensures
        ({
            let turn = execute::opened("vision_screenshot_ocr"@, args, service);
            let second = after(turn, Event::Text(Ok(path)), machine);
            let third = after(second, Event::Text(Ok(said)), machine);
            let last = if save_path is Some {
                third
            } else {
                after(third, Event::Done, machine)
            };
            &&& turn is Ask && capture_asked(turn->Ask_0, save_path, monitor, region, 80)
            &&& asks(second, Action::Read { path, language: "en-US"@ })
            &&& save_path is None ==> asks(third, Action::Remove { path })
            &&& says(last, "success"@, Doc::Bool(true))
            &&& says(last, "text"@, Doc::Text(said))
            &&& says(last, "chars"@, Doc::Integer(vstd::utf8::encode_utf8(said).len() as int))
            &&& says(last, "screenshot_saved"@, Doc::Bool(save_path is Some))
        }),
{
    lemma_opened(args, service);
    lemma_names();
    let d = Doc::Object(answers::screenshot_ocr_fields(said, save_path is Some));
    lemma_field(d, "success"@);
    lemma_field(d, "text"@);
    lemma_field(d, "chars"@);
    lemma_field(d, "screenshot_saved"@);
}

/// Input is looked for on the monitor that was asked for, in the part of the
/// screen that reaches from the height asked for down to the bottom edge, and
/// from the left edge to the right. What stands there is read, its capture
/// removed, and then told: whether somebody typed, and if so what.
pub proof fn the_bottom_of_the_screen_is_read_and_told(
    args: Doc,
    service: Seq<char>,
    height: int,
    monitor: int,
    w: u32,
    h: u32,
    path: Seq<char>,
    said: Seq<char>,
    machine: Machine,
)
    requires
        number_given(args, "height"@, height, 0, u32::MAX as int, 200),
        number_given(args, "monitor"@, monitor, 0, u32::MAX as int, 0),
        height <= h <= i32::MAX,
    ensures
        ({
            let turn = execute::opened("vision_check_user_input"@, args, service);
            let second = after(turn, Event::Size(Ok((w, h))), machine);
            let area = second->Ask_0->area;
            let third = after(second, Event::Text(Ok(path)), machine);
            let fourth = after(third, Event::Text(Ok(said)), machine);
            let last = after(fourth, Event::Done, machine);
            let typed = answers::typed(said);
            &&& asks(turn, Action::Measure { monitor: monitor as usize })
            &&& second is Ask && capture_asked(second->Ask_0, None, monitor, Some(area), 80)
            &&& area.x == 0 && area.width == w
            &&& area.height == height && area.y + area.height == h
            &&& asks(third, Action::Read { path, language: "en-US"@ })
            &&& asks(fourth, Action::Remove { path })
            &&& says(last, "success"@, Doc::Bool(true))
            &&& says(last, "has_user_input"@, Doc::Bool(typed))
            &&& typed ==> says(last, "text"@, Doc::Text(text::trimmed(said))) && says(
                last,
                "chars"@,
                Doc::Integer(vstd::utf8::encode_utf8(text::trimmed(said)).len() as int),
            )
            &&& !typed ==> says(last, "text"@, Doc::Text(Seq::empty())) && says(
                last,
                "chars"@,
                Doc::Integer(0),
            )
        }),
{
    lemma_opened(args, service);
    lemma_names();
    reveal_strlit("");
    assert(""@ =~= Seq::<char>::empty());
    let d = Doc::Object(answers::input_fields(said));
    lemma_field(d, "success"@);
    lemma_field(d, "has_user_input"@);
    lemma_field(d, "text"@);
    lemma_field(d, "chars"@);
}

/// The part of the screen that is asked for is captured, opened, its capture
/// removed, the image magnified and kept, and then told: where it is kept, which
/// part it shows, how far it is magnified, and the size that the kept image has.
pub proof fn a_part_of_the_screen_is_magnified_and_told(
    args: Doc,
    service: Seq<char>,
    area: Area,
    scale: float::Value,
    captured: Seq<char>,
    img: RgbaImage,
    path: Seq<char>,
    machine: Machine,
)
    requires
        args.field("x"@) == Doc::Integer(area.x as int),
        args.field("y"@) == Doc::Integer(area.y as int),
        args.field("width"@) == Doc::Integer(area.width as int),
        args.field("height"@) == Doc::Integer(area.height as int),
        fraction_given(args, "scale"@, scale, 2, 1),
        area.width > 0,
        area.height > 0,
        float::less(float::natural(float::double_format(), 0), scale),
        float::at_least(float::natural(float::double_format(), 10), scale),
    ensures
        ({
            let turn = execute::opened("vision_zoom"@, args, service);
            let second = after(turn, Event::Text(Ok(captured)), machine);
            let third = after(second, Event::Image(Ok(img)), machine);
            let fourth = after(third, Event::Done, machine);
            let last = after(fourth, Event::Text(Ok(path)), machine);
            let d = last->Answer_0;
            let region = d.field("region"@);
            &&& turn is Ask && capture_asked(turn->Ask_0, None, 0, Some(area), 100)
            &&& asks(second, Action::Load { path: captured })
            &&& asks(third, Action::Remove { path: captured })
            &&& asks(fourth, Action::Keep { image: machine.scaled, quality: 100 })
            &&& says(last, "success"@, Doc::Bool(true))
            &&& says(last, "path"@, Doc::Text(path))
            &&& region.field("x"@) == Doc::Integer(area.x as int)
            &&& region.field("y"@) == Doc::Integer(area.y as int)
            &&& region.field("width"@) == Doc::Integer(area.width as int)
            &&& region.field("height"@) == Doc::Integer(area.height as int)
            &&& scale is Finite ==> says(last, "scale"@, Doc::Float(scale))
            &&& resume::settles(machine, third->Ask_1, Event::Done) ==> says(
                last,
                "output_width"@,
                Doc::Integer(machine.scaled.width as int),
            ) && says(last, "output_height"@, Doc::Integer(machine.scaled.height as int))
        }),
{
    lemma_opened(args, service);
    lemma_names();
    let d = Doc::Object(
        answers::zoom_fields(
            path,
            area,
            scale,
            screen::magnified(area.width, scale),
            screen::magnified(area.height, scale),
        ),
    );
    lemma_field(d, "success"@);
    lemma_field(d, "path"@);
    lemma_field(d, "region"@);
    lemma_field(d, "scale"@);
    lemma_field(d, "output_width"@);
    lemma_field(d, "output_height"@);
    let region = answers::area_doc(area);
    lemma_field(region, "x"@);
    lemma_field(region, "y"@);
    lemma_field(region, "width"@);
    lemma_field(region, "height"@);
}

/// The service is asked the question that is given about the image file that is
/// given, and what it says is answered.
pub proof fn what_the_service_says_is_told(
    args: Doc,
    service: Seq<char>,
    path: Seq<char>,
    query: Option<Seq<char>>,
    said: Seq<char>,
    machine: Machine,
)
    requires
        args.field("image_path"@) == Doc::Text(path),
        text_given(args, "query"@, query),
    ensures
        ({
            let turn = execute::opened("vision_analyze"@, args, service);
            let last = after(turn, Event::Text(Ok(said)), machine);
            let asked = match query {
                Some(q) => q,
                None => "Describe this image in detail"@,
            };
            &&& asks(turn, Action::Analyze { path, query: asked })
            &&& says(last, "success"@, Doc::Bool(true))
            &&& says(last, "analysis"@, Doc::Text(said))
            &&& says(last, "image_path"@, Doc::Text(path))
            &&& last->Answer_0.field("note"@) matches Doc::Text(note) && text::holds(note, service)
        }),
{
    lemma_opened(args, service);
    lemma_names();
    let d = Doc::Object(answers::analyze_fields(said, path, service));
    lemma_field(d, "success"@);
    lemma_field(d, "analysis"@);
    lemma_field(d, "image_path"@);
    lemma_field(d, "note"@);
    text::lemma_holds_start(service, Seq::empty());
    text::lemma_holds("Used "@, service, " Vision API (tokens consumed)"@, service);
}

/// The image file that is given is looked for and fetched, and its contents are
/// answered in base 64, with the media type that its extension tells.
pub proof fn an_image_file_is_told(
    args: Doc,
    service: Seq<char>,
    path: Seq<char>,
    bytes: Vec<u8>,
    machine: Machine,
)
    requires
        args.field("image_path"@) == Doc::Text(path),
    ensures
        ({
            let turn = execute::opened("vision_load_image"@, args, service);
            let second = after(turn, Event::Found(true), machine);
            let last = after(second, Event::File(Ok(bytes)), machine);
            let source = last->Answer_0.field("source"@);
            &&& asks(turn, Action::Look { path })
            &&& asks(second, Action::Fetch { path })
            &&& says(last, "type"@, Doc::Text("image"@))
            &&& source.field("type"@) == Doc::Text("base64"@)
            &&& source.field("data"@) == Doc::Text(encoding::encoded(bytes@))
            &&& source.field("media_type"@) == Doc::Text(
                media::media_type_for(media::kind(machine.extension)),
            )
            &&& resume::settles(machine, second->Ask_1, Event::File(Ok(bytes)))
                ==> media::has_extension(path, machine.extension)
        }),
{
    lemma_opened(args, service);
    lemma_names();
    let data = encoding::encoded(bytes@);
    let media_type = media::media_type_for(media::kind(machine.extension));
    let d = Doc::Object(answers::image_fields(media_type, data));
    lemma_field(d, "type"@);
    lemma_field(d, "source"@);
    let source = Doc::Object(answers::source_fields(media_type, data));
    lemma_field(source, "type"@);
    lemma_field(source, "media_type"@);
    lemma_field(source, "data"@);
}

/// The turn that ends a task on two images: the second is the screen, captured
/// for the task and removed when it is done, or another file.
pub open spec fn done_with_two(
    turn: Next,
    second: Seq<char>,
    captured: Seq<char>,
    first_image: RgbaImage,
    second_image: RgbaImage,
    machine: Machine,
) -> Next {
    let loaded = after(turn, Event::Image(Ok(first_image)), machine);
    if second == "screen"@ {
        let shot = after(loaded, Event::Text(Ok(captured)), machine);
        let judged = after(shot, Event::Image(Ok(second_image)), machine);
        after(judged, Event::Done, machine)
    } else {
        after(loaded, Event::Image(Ok(second_image)), machine)
    }
}

/// What a task on two images asks for: the first file, then the second file or a
/// screenshot of this monitor, which is removed when it was looked at.
pub open spec fn asks_for_two(
    turn: Next,
    path: Seq<char>,
    second: Seq<char>,
    monitor: int,
    captured: Seq<char>,
    first_image: RgbaImage,
    second_image: RgbaImage,
    machine: Machine,
) -> bool {
    let loaded = after(turn, Event::Image(Ok(first_image)), machine);
    let shot = after(loaded, Event::Text(Ok(captured)), machine);
    let judged = after(shot, Event::Image(Ok(second_image)), machine);
    &&& asks(turn, Action::Load { path })
    &&& if second == "screen"@ {
        &&& loaded is Ask && capture_asked(loaded->Ask_0, None, monitor, None, 80)
        &&& asks(shot, Action::Load { path: captured })
        &&& asks(judged, Action::Remove { path: captured })
    } else {
        asks(loaded, Action::Load { path: second })
    }
}

/// Two images are compared, the second held against the first at its size, and
/// it is told whether they differ, by how much, at which threshold and at what
/// size.
pub proof fn two_images_are_compared_and_told(
    args: Doc,
    service: Seq<char>,
    path: Seq<char>,
    second: Seq<char>,
    threshold: int,
    monitor: int,
    captured: Seq<char>,
    a: RgbaImage,
    b: RgbaImage,
    machine: Machine,
)
    requires
        args.field("image_a"@) == Doc::Text(path),
        args.field("image_b"@) == Doc::Text(second),
        number_given(args, "threshold"@, threshold, 0, 255, 30),
        number_given(args, "monitor"@, monitor, 0, u32::MAX as int, 0),
    ensures
        ({
            let turn = execute::opened("vision_diff"@, args, service);
            let last = done_with_two(turn, second, captured, a, b, machine);
            let share = diff::percentage(
                diff::differing_pixels(a, b, threshold as u8),
                (a.width * a.height) as nat,
            );
            let size = last->Answer_0.field("dimensions"@);
            &&& asks_for_two(turn, path, second, monitor, captured, a, b, machine)
            &&& says(last, "success"@, Doc::Bool(true))
            &&& says(last, "changed"@, Doc::Bool(answers::changed(share)))
            &&& says(last, "diff_percent"@, json::number(answers::hundredths(share)))
            &&& says(last, "threshold"@, Doc::Integer(threshold))
            &&& size.field("width"@) == Doc::Integer(a.width as int)
            &&& size.field("height"@) == Doc::Integer(a.height as int)
        }),
{
    lemma_opened(args, service);
    lemma_names();
    let share = diff::percentage(
        diff::differing_pixels(a, b, threshold as u8),
        (a.width * a.height) as nat,
    );
    let d = Doc::Object(answers::diff_fields(share, threshold as u8, a.width, a.height));
    lemma_field(d, "success"@);
    lemma_field(d, "changed"@);
    lemma_field(d, "diff_percent"@);
    lemma_field(d, "threshold"@);
    lemma_field(d, "dimensions"@);
    let size = answers::size_doc(a.width, a.height);
    lemma_field(size, "width"@);
    lemma_field(size, "height"@);
}

/// The centre of a stretch that starts at `start`: as many pixels lie before it
/// as behind it, but for one where their number is even.
pub open spec fn is_centre(centre: Doc, start: int, length: int) -> bool {
    centre matches Doc::Integer(c) && 0 <= length - 2 * (c - start) <= 1
}

/// It is told whether a template was found; if so where its corner and its
/// centre are, with what confidence it was found and of what size it is.
pub open spec fn tells_match(
    d: Doc,
    best: Option<(u32, u32, float::Value)>,
    width: u32,
    height: u32,
    threshold: float::Value,
) -> bool {
    &&& d.field("success"@) == Doc::Bool(true)
    &&& d.field("found"@) == Doc::Bool(best is Some)
    &&& match best {
        Some((x, y, c)) => {
            &&& d.field("x"@) == Doc::Integer(x as int)
            &&& d.field("y"@) == Doc::Integer(y as int)
            &&& is_centre(d.field("center_x"@), x as int, width as int)
            &&& is_centre(d.field("center_y"@), y as int, height as int)
            &&& d.field("confidence"@) == json::number(answers::hundredths(c))
            &&& d.field("template_size"@).field("width"@) == Doc::Integer(width as int)
            &&& d.field("template_size"@).field("height"@) == Doc::Integer(height as int)
        },
        None => {
            &&& d.field("x"@) == Doc::Null && d.field("y"@) == Doc::Null
            &&& d.field("threshold"@) == json::number(threshold)
        },
    }
}

/// What is answered of a template that was looked for tells the match: the
/// centre lies in the middle of it.
pub proof fn a_match_is_told(
    best: Option<(u32, u32, float::Value)>,
    width: u32,
    height: u32,
    threshold: float::Value,
)
    ensures
        tells_match(
            Doc::Object(answers::find_fields(best, width, height, threshold)),
            best,
            width,
            height,
            threshold,
        ),
{
    lemma_names();
    let d = Doc::Object(answers::find_fields(best, width, height, threshold));
    lemma_field(d, "success"@);
    lemma_field(d, "found"@);
    lemma_field(d, "x"@);
    lemma_field(d, "y"@);
    if best is Some {
        lemma_field(d, "center_x"@);
        lemma_field(d, "center_y"@);
        lemma_field(d, "confidence"@);
        lemma_field(d, "template_size"@);
        let size = answers::size_doc(width, height);
        lemma_field(size, "width"@);
        lemma_field(size, "height"@);
    } else {
        lemma_field(d, "threshold"@);
    }
}

/// A template is looked for in the image that is given, or on the screen where
/// none is, and the best match is told.
pub proof fn a_template_is_looked_for_and_told(
    args: Doc,
    service: Seq<char>,
    path: Seq<char>,
    search_in: Option<Seq<char>>,
    threshold: float::Value,
    monitor: int,
    captured: Seq<char>,
    needle: RgbaImage,
    haystack: RgbaImage,
    machine: Machine,
)
    requires
        args.field("template"@) == Doc::Text(path),
        text_given(args, "search_in"@, search_in),
        fraction_given(args, "threshold"@, threshold, 8, 10),
        number_given(args, "monitor"@, monitor, 0, u32::MAX as int, 0),
    ensures
        ({
            let turn = execute::opened("vision_find_template"@, args, service);
            let second = match search_in {
                Some(s) => s,
                None => "screen"@,
            };
            let last = done_with_two(turn, second, captured, needle, haystack, machine);
            &&& asks_for_two(turn, path, second, monitor, captured, needle, haystack, machine)
            &&& last is Answer && tells_match(
                last->Answer_0,
                template::best(haystack, needle, threshold),
                needle.width,
                needle.height,
                threshold,
            )
        }),
{
    lemma_opened(args, service);
    a_match_is_told(
        template::best(haystack, needle, threshold),
        needle.width,
        needle.height,
        threshold,
    );
}

/// The report tells which engine is the default, which are built in, which one
/// is active, and whether PaddleOCR has all three files that it needs.
pub proof fn the_engines_are_told(
    args: Doc,
    service: Seq<char>,
    around: backend::Surroundings,
    machine: Machine,
)
    ensures
        ({
            let turn = execute::opened("vision_ocr_backends"@, args, service);
            let last = after(turn, Event::Around(around), machine);
            let windows = Doc::Text("windows_media_ocr"@);
            let paddle = Doc::Text("paddleocr_onnx"@);
            let setting = text::told(around.setting);
            let by_name = setting == Some("paddle"@) || setting == Some("onnx"@) || setting == Some(
                "paddleocr"@,
            );
            let there = |m: backend::ModelPath| m.exists && m.value is Some && m.value->Some_0@.len()
                > 0;
            &&& asks(turn, Action::LookAround)
            &&& says(last, "default"@, windows)
            &&& says(
                last,
                "available"@,
                Doc::Array(
                    if around.with_onnx {
                        seq![windows, paddle]
                    } else {
                        seq![windows]
                    },
                ),
            )
            &&& says(last, "onnx_compiled"@, Doc::Bool(around.with_onnx))
            &&& says(
                last,
                "active"@,
                if by_name || (setting != Some("windows"@) && !around.on_windows) {
                    paddle
                } else {
                    windows
                },
            )
            &&& says(
                last,
                "paddle_models_present"@,
                Doc::Bool(
                    there(around.models.detector) && there(around.models.recognizer) && there(
                        around.models.dictionary,
                    ),
                ),
            )
        }),
{
    lemma_opened(args, service);
    lemma_names();
    let active = backend::backend_for(text::told(around.setting), around.on_windows);
    let d = Doc::Object(backend::report(around.with_onnx, active, around.models.present()));
    lemma_field(d, "default"@);
    lemma_field(d, "available"@);
    lemma_field(d, "onnx_compiled"@);
    lemma_field(d, "active"@);
    lemma_field(d, "paddle_models_present"@);
    reveal_strlit("windows");
    reveal_strlit("paddle");
    reveal_strlit("onnx");
    reveal_strlit("paddleocr");
    assert("windows"@.len() == 7 && "paddle"@.len() == 6 && "onnx"@.len() == 4 && "paddleocr"@.len()
        == 9);
}

/// A part of the screen without pixels is not magnified, nor is one by a scale
/// that is not above zero or is above ten: the tool says so and captures nothing.
pub proof fn a_part_that_cannot_be_magnified_is_refused(
    args: Doc,
    service: Seq<char>,
    area: Area,
    scale: float::Value,
)
    requires
        args.field("x"@) == Doc::Integer(area.x as int),
        args.field("y"@) == Doc::Integer(area.y as int),
        args.field("width"@) == Doc::Integer(area.width as int),
        args.field("height"@) == Doc::Integer(area.height as int),
        fraction_given(args, "scale"@, scale, 2, 1),
    ensures
        ({
            let turn = execute::opened("vision_zoom"@, args, service);
            let f = float::double_format();
            let off = float::at_least(float::natural(f, 0), scale) || float::less(
                float::natural(f, 10),
                scale,
            );
            &&& area.width == 0 || area.height == 0 ==> says(
                turn,
                "error"@,
                Doc::Text("width and height must be > 0"@),
            )
            &&& area.width > 0 && area.height > 0 && off ==> says(
                turn,
                "error"@,
                Doc::Text("scale must be between 0 and 10"@),
            )
        }),
{
    lemma_opened(args, service);
    lemma_field(
        Doc::Object(answers::error_fields("width and height must be > 0"@)),
        "error"@,
    );
    lemma_field(
        Doc::Object(answers::error_fields("scale must be between 0 and 10"@)),
        "error"@,
    );
}

/// What went wrong is told: the reason as it came, or what was tried with which
/// file and then the reason.
pub proof fn what_went_wrong_is_told(
    state: Waiting,
    event: Event<Seq<char>>,
    why: Seq<char>,
    machine: Machine,
)
    requires
        resume::fits(state, event),
    ensures
        ({
            let turn = resume::resumed(state, event, machine);
            let no_text = Err::<Seq<char>, Seq<char>>(why);
            &&& event == Event::Text(no_text) ==> says(turn, "error"@, Doc::Text(why))
            &&& event == Event::<Seq<char>>::Size(Err(why)) ==> says(turn, "error"@, Doc::Text(why))
            &&& event == Event::<Seq<char>>::File(Err(why)) ==> says(
                turn,
                "error"@,
                Doc::Text("Failed to read image"@ + ": "@ + why),
            )
            &&& event == Event::<Seq<char>>::Image(Err(why)) && state is ZoomLoaded ==> says(
                turn,
                "error"@,
                Doc::Text("Failed to open cropped image"@ + ": "@ + why),
            )
            &&& event == Event::<Seq<char>>::Image(Err(why)) && state is FirstLoaded ==> says(
                turn,
                "error"@,
                Doc::Text("Failed to load image "@ + state->FirstLoaded_path + ": "@ + why),
            )
            &&& event == Event::<Seq<char>>::Image(Err(why)) && state is SecondLoaded ==> says(
                turn,
                "error"@,
                Doc::Text("Failed to load image "@ + state->SecondLoaded_path + ": "@ + why),
            )
            &&& event == Event::<Seq<char>>::Found(false) && state is ImageFound ==> says(
                turn,
                "error"@,
                Doc::Text("Image not found"@ + ": "@ + state->ImageFound_image_path),
            )
        }),
{
    if let Turn::Answer(d) = resume::resumed(state, event, machine) {
        lemma_field(d, "error"@);
    }
}

/// A tool that is not known is told by its name, and an argument that is missing
/// by its own.
pub proof fn what_is_not_known_or_missing_is_told(
    name: Seq<char>,
    args: Doc,
    service: Seq<char>,
    argument: Seq<char>,
)
    ensures
        says(
            execute::wanting(argument),
            "error"@,
            Doc::Text(argument + " is required"@),
        ),
        !catalogue::tool_names().contains(name) && name != "vision_ocr_backends"@ ==> says(
            execute::opened(name, args, service),
            "error"@,
            Doc::Text("Unknown vision tool"@ + ": "@ + name),
        ),
{
    catalogue::a_described_tool_is_carried_out(name, args, service);
    lemma_field(execute::wanting(argument)->Answer_0, "error"@);
    let unknown = execute::refused("Unknown vision tool"@ + ": "@ + name);
    lemma_field(unknown->Answer_0, "error"@);
}

} // verus!
