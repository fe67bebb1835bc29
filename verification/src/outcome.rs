//! Whether a tool failed, as its answer tells.
use vstd::prelude::*;
use crate::answers;
use crate::backend;
use crate::encoding;
use crate::execute;
use crate::float;
use crate::media;
use crate::resume;
use crate::screen;
use crate::text;
use crate::answers::Area;
use crate::backend::OcrBackend;
use crate::execute::Event;
use crate::execute::Next;
use crate::execute::State;
use crate::execute::Task;
use crate::execute::Turn;
use crate::execute::Waiting;
use crate::json::Doc;
use crate::raster::RgbaImage;
use crate::resume::Machine;

verus! {

/// One of the fields has this name.
pub open spec fn holds_key(fields: Seq<(Seq<char>, Doc)>, key: Seq<char>) -> bool {
    exists|i: int| 0 <= i < fields.len() && (#[trigger] fields[i]).0 == key
}

/// The value is an object with a field of this name.
pub open spec fn has_key(d: Doc, key: Seq<char>) -> bool {
    d matches Doc::Object(fields) && holds_key(fields, key)
}

/// Something went wrong: what was asked for failed, or the file that was looked
/// for is not there.
pub open spec fn fails(state: Waiting, event: Event<Seq<char>>) -> bool {
    ||| resume::failure(event) is Some
    ||| state is ImageFound && event == Event::<Seq<char>>::Found(false)
}

/// A tool that has its answer ready did not fail.
pub open spec fn clean(state: Waiting) -> bool {
    state matches State::Closing { answer } ==> !has_key(answer, "error"@)
}

/// The answer of a tool that failed has a field for the error, and no other.
pub proof fn an_error_stands_alone(e: Seq<char>, key: Seq<char>)
    ensures
        has_key(Doc::Object(answers::error_fields(e)), key) <==> key == "error"@,
{
    let fields = answers::error_fields(e);
    assert(fields[0].0 == "error"@);
}

/// No other field is named like the one for an error.
proof fn lemma_keys()
    ensures
        "success"@ != "error"@,
        "path"@ != "error"@,
        "monitor"@ != "error"@,
        "base64"@ != "error"@,
        "text"@ != "error"@,
        "image_path"@ != "error"@,
        "chars"@ != "error"@,
        "screenshot_saved"@ != "error"@,
        "has_user_input"@ != "error"@,
        "hint"@ != "error"@,
        "region"@ != "error"@,
        "scale"@ != "error"@,
        "output_width"@ != "error"@,
        "output_height"@ != "error"@,
        "analysis"@ != "error"@,
        "note"@ != "error"@,
        "type"@ != "error"@,
        "source"@ != "error"@,
        "changed"@ != "error"@,
        "diff_percent"@ != "error"@,
        "threshold"@ != "error"@,
        "dimensions"@ != "error"@,
        "found"@ != "error"@,
        "x"@ != "error"@,
        "y"@ != "error"@,
        "center_x"@ != "error"@,
        "center_y"@ != "error"@,
        "confidence"@ != "error"@,
        "template_size"@ != "error"@,
        "default"@ != "error"@,
        "available"@ != "error"@,
        "onnx_compiled"@ != "error"@,
        "active"@ != "error"@,
        "paddle_models_present"@ != "error"@,
{
    reveal_strlit("error");
    reveal_strlit("success");
    reveal_strlit("path");
    reveal_strlit("monitor");
    reveal_strlit("base64");
    reveal_strlit("text");
    reveal_strlit("image_path");
    reveal_strlit("chars");
    reveal_strlit("screenshot_saved");
    reveal_strlit("has_user_input");
    reveal_strlit("hint");
    reveal_strlit("region");
    reveal_strlit("scale");
    reveal_strlit("output_width");
    reveal_strlit("output_height");
    reveal_strlit("analysis");
    reveal_strlit("note");
    reveal_strlit("type");
    reveal_strlit("source");
    reveal_strlit("changed");
    reveal_strlit("diff_percent");
    reveal_strlit("threshold");
    reveal_strlit("dimensions");
    reveal_strlit("found");
    reveal_strlit("x");
    reveal_strlit("y");
    reveal_strlit("center_x");
    reveal_strlit("center_y");
    reveal_strlit("confidence");
    reveal_strlit("template_size");
    reveal_strlit("default");
    reveal_strlit("available");
    reveal_strlit("onnx_compiled");
    reveal_strlit("active");
    reveal_strlit("paddle_models_present");
    assert("error"@[0] == 'e');
    assert("chars"@[0] == 'c');
    assert("found"@[0] == 'f');
    assert("scale"@[0] == 's');
}

/// No field of what is answered to a text that came is an error.
proof fn lemma_text_answers(
    said: Seq<char>,
    path: Seq<char>,
    service: Seq<char>,
    monitor: usize,
    data: Option<Seq<char>>,
    kept: bool,
)
    ensures
        !holds_key(answers::screenshot_fields(path, monitor, data), "error"@),
        !holds_key(answers::ocr_fields(said, path), "error"@),
        !holds_key(answers::screenshot_ocr_fields(said, kept), "error"@),
        !holds_key(answers::input_fields(said), "error"@),
        !holds_key(answers::analyze_fields(said, path, service), "error"@),
        !holds_key(answers::image_fields(path, said), "error"@),
{
    lemma_keys();
}

/// Nor is one of what is answered of a part of the screen.
proof fn lemma_zoom_answer(
    path: Seq<char>,
    area: Area,
    scale: float::Value,
    width: u32,
    height: u32,
)
    ensures
        !holds_key(answers::zoom_fields(path, area, scale, width, height), "error"@),
{
    lemma_keys();
}

/// Nor is one of what is answered of two images.
proof fn lemma_judgement(task: Task<float::Value>, first: RgbaImage, second: RgbaImage)
    ensures
        !has_key(resume::judged(task, first, second), "error"@),
{
    lemma_keys();
}

/// Nor is one of the report on engines.
proof fn lemma_report(with_onnx: bool, active: OcrBackend, models_present: bool)
    ensures
        !holds_key(backend::report(with_onnx, active, models_present), "error"@),
{
    lemma_keys();
}

proof fn lemma_after_text(state: Waiting, s: Seq<char>)
    requires
        resume::fits(state, Event::Text(Ok(s))),
    ensures
        match resume::after_text(state, s) {
            Turn::Answer(d) => !has_key(d, "error"@),
            Turn::Ask(_, next) => clean(next),
        },
{
    match state {
        State::Shot { monitor, .. } => lemma_text_answers(s, s, s, monitor, None, true),
        State::ImageRead { image_path } => lemma_text_answers(s, image_path, s, 0, None, true),
        State::ShotRead { kept, .. } => lemma_text_answers(s, s, s, 0, None, kept),
        State::InputRead { .. } => lemma_text_answers(s, s, s, 0, None, true),
        State::Analyzed { image_path, service } => {
            lemma_text_answers(s, image_path, service, 0, None, true);
        },
        State::ZoomKept { zoom } => {
            lemma_zoom_answer(
                s,
                zoom.area,
                zoom.scale,
                screen::magnified(zoom.area.width, zoom.scale),
                screen::magnified(zoom.area.height, zoom.scale),
            );
        },
        _ => {},
    }
}

proof fn lemma_after_file(state: Waiting, bytes: Seq<u8>, machine: Machine)
    requires
        state is ShotFetched || state is ImageFetched,
    ensures
        resume::after_file(state, bytes, machine) matches Turn::Answer(d) && !has_key(d, "error"@),
{
    let data = encoding::encoded(bytes);
    let media_type = media::media_type_for(media::kind(machine.extension));
    lemma_text_answers(data, media_type, data, 0, None, true);
    if let State::ShotFetched { monitor, path } = state {
        lemma_text_answers(data, path, data, monitor, Some(data), true);
    }
}

/// A tool that gives up at once answers with an error and nothing else. One
/// that does not has no answer ready.
pub proof fn a_tool_opens_with_an_error_or_a_question(name: Seq<char>, args: Doc, service: Seq<char>)
    ensures
        match execute::opened(name, args, service) {
            Turn::Answer(d) => exists|e: Seq<char>|
                d == Doc::Object(#[trigger] answers::error_fields(e)),
            Turn::Ask(_, first) => clean(first),
        },
{
}

/// A tool in mid course answers with an error just where something went wrong,
/// and then with nothing else. Where it goes on nothing went wrong, and no
/// error is kept for later.
pub proof fn an_error_is_answered_just_where_something_went_wrong(
    state: Waiting,
    event: Event<Seq<char>>,
    machine: Machine,
)
    requires
        resume::fits(state, event),
        clean(state),
    ensures
        match resume::resumed(state, event, machine) {
            Turn::Answer(d) => {
                &&& has_key(d, "error"@) <==> fails(state, event)
                &&& fails(state, event) ==> exists|e: Seq<char>|
                    d == Doc::Object(#[trigger] answers::error_fields(e))
            },
            Turn::Ask(_, next) => !fails(state, event) && clean(next),
        },
{
    match event {
        Event::Text(Ok(s)) => lemma_after_text(state, s),
        Event::Image(Ok(img)) => {
            if let State::SecondLoaded { task, first, .. } = state {
                lemma_judgement(task, first, img);
            }
        },
        Event::File(Ok(bytes)) => lemma_after_file(state, bytes@, machine),
        Event::Around(around) => lemma_report(
            around.with_onnx,
            backend::backend_for(text::told(around.setting), around.on_windows),
            around.models.present(),
        ),
        _ => {},
    }
    if fails(state, event) {
        if let Turn::Answer(Doc::Object(fields)) = resume::resumed(state, event, machine) {
            assert(fields[0].0 == "error"@);
        }
    }
}

/// What a tool answers that is told these events one after the other, if they
/// are enough for an answer. `machine` is what the machine settles on the way.
pub open spec fn concluded(turn: Next, events: Seq<Event<Seq<char>>>, machine: Machine) -> Option<Doc>
    decreases events.len(),
{
    match turn {
        Turn::Answer(d) => Some(d),
        Turn::Ask(_, state) => if events.len() == 0 {
            None
        } else {
            concluded(resume::resumed(state, events[0], machine), events.drop_first(), machine)
        },
    }
}

/// Each event tells what the tool waits for when it comes.
pub open spec fn told_in_turn(turn: Next, events: Seq<Event<Seq<char>>>, machine: Machine) -> bool
    decreases events.len(),
{
    match turn {
        Turn::Answer(_) => true,
        Turn::Ask(_, state) => events.len() > 0 ==> {
            &&& resume::fits(state, events[0])
            &&& told_in_turn(
                resume::resumed(state, events[0], machine),
                events.drop_first(),
                machine,
            )
        },
    }
}

/// Something goes wrong on the way to the answer.
pub open spec fn goes_wrong(turn: Next, events: Seq<Event<Seq<char>>>, machine: Machine) -> bool
    decreases events.len(),
{
    match turn {
        Turn::Answer(_) => false,
        Turn::Ask(_, state) => events.len() > 0 && (fails(state, events[0]) || goes_wrong(
            resume::resumed(state, events[0], machine),
            events.drop_first(),
            machine,
        )),
    }
}

proof fn lemma_concluded(
    state: Waiting,
    turn: Next,
    events: Seq<Event<Seq<char>>>,
    machine: Machine,
    d: Doc,
)
    requires
        turn matches Turn::Ask(_, s) && s == state,
        clean(state),
        told_in_turn(turn, events, machine),
        concluded(turn, events, machine) == Some(d),
    ensures
        has_key(d, "error"@) <==> goes_wrong(turn, events, machine),
        goes_wrong(turn, events, machine) ==> exists|e: Seq<char>|
            d == Doc::Object(#[trigger] answers::error_fields(e)),
    decreases events.len(),
{
    reveal_with_fuel(concluded, 2);
    reveal_with_fuel(goes_wrong, 2);
    an_error_is_answered_just_where_something_went_wrong(state, events[0], machine);
    let next = resume::resumed(state, events[0], machine);
    match next {
        Turn::Answer(_) => {},
        Turn::Ask(_, after) => lemma_concluded(after, next, events.drop_first(), machine, d),
    }
}

/// From first to last, a tool answers with an error, and with nothing else, just
/// where it gave up at once or something went wrong on the way. No other answer
/// has a field for an error.
pub proof fn an_answer_tells_whether_the_tool_failed(
    name: Seq<char>,
    args: Doc,
    service: Seq<char>,
    events: Seq<Event<Seq<char>>>,
    machine: Machine,
    d: Doc,
)
    requires
        told_in_turn(execute::opened(name, args, service), events, machine),
        concluded(execute::opened(name, args, service), events, machine) == Some(d),
    ensures
        has_key(d, "error"@) <==> execute::opened(name, args, service) is Answer || goes_wrong(
            execute::opened(name, args, service),
            events,
            machine,
        ),
        has_key(d, "error"@) ==> exists|e: Seq<char>|
            d == Doc::Object(#[trigger] answers::error_fields(e)),
{
    let turn = execute::opened(name, args, service);
    a_tool_opens_with_an_error_or_a_question(name, args, service);
    match turn {
        Turn::Answer(_) => {
            let e = choose|e: Seq<char>| d == Doc::Object(#[trigger] answers::error_fields(e));
            an_error_stands_alone(e, "error"@);
        },
        Turn::Ask(_, first) => lemma_concluded(first, turn, events, machine, d),
    }
}

} // verus!
