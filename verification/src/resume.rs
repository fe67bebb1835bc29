//! Going on with a tool: what it makes of what was done.
use vstd::prelude::*;
use crate::answers;
use crate::backend;
use crate::diff;
use crate::encoding;
use crate::execute;
use crate::float;
use crate::media;
use crate::messages;
use crate::screen;
use crate::template;
use crate::text;
use crate::answers::Area;
use crate::execute::Action;
use crate::execute::Event;
use crate::execute::Next;
use crate::execute::State;
use crate::execute::Task;
use crate::execute::Turn;
use crate::execute::Waiting;
use crate::json::Doc;
use crate::json::Json;
use crate::raster::RgbaImage;

verus! {

/// The event tells what the tool waits for, and its images are whole. The
/// bottom of a screen is no higher than the screen; images that are compared
/// or magnified, and files that are turned into text, stay within what is held
/// in memory.
pub open spec fn fits(state: Waiting, event: Event<Seq<char>>) -> bool {
    match (state, event) {
        (State::InputSize { height, .. }, Event::Size(r)) => r matches Ok(size) ==> height
            <= size.1,
        (State::ZoomLoaded { .. }, Event::Image(r)) => r matches Ok(img) ==> img.valid(),
        (State::ZoomCleared { zoom, image }, Event::Done) => screen::magnifiable(
            image,
            screen::magnified(zoom.area.width, zoom.scale),
            screen::magnified(zoom.area.height, zoom.scale),
        ),
        (State::ImageFound { .. }, Event::Found(_)) => true,
        (State::ImageFetched { .. }, Event::File(r)) => r matches Ok(bytes) ==> encodable(bytes),
        (State::FirstLoaded { .. }, Event::Image(r)) => r matches Ok(img) ==> img.valid(),
        (State::SecondLoaded { task, first, .. }, Event::Image(r)) => r matches Ok(img)
            ==> img.valid() && feasible(task, first, img),
        (State::Closing { .. }, Event::Done) => true,
        (State::LookedAround, Event::Around(_)) => true,
        (State::Shot { .. }, Event::Text(_)) => true,
        (State::ShotFetched { .. }, Event::File(r)) => r matches Ok(bytes) ==> encodable(bytes),
        (State::ImageRead { .. }, Event::Text(_)) => true,
        (State::ShotToRead { .. }, Event::Text(_)) => true,
        (State::ShotRead { .. }, Event::Text(_)) => true,
        (State::InputShot, Event::Text(_)) => true,
        (State::InputRead { .. }, Event::Text(_)) => true,
        (State::ZoomShot { .. }, Event::Text(_)) => true,
        (State::ZoomKept { .. }, Event::Text(_)) => true,
        (State::Analyzed { .. }, Event::Text(_)) => true,
        (State::SecondShot { .. }, Event::Text(_)) => true,
        _ => false,
    }
}

/// The images can be compared, where that is what is done with them.
pub open spec fn feasible(task: Task<float::Value>, first: RgbaImage, second: RgbaImage) -> bool {
    task is Diff ==> diff::comparable(first, second)
}

/// The contents of a file can be turned into text.
pub open spec fn encodable(bytes: Vec<u8>) -> bool {
    encoding::encoded_length(bytes@.len() as int) <= isize::MAX
}

/// What the machine settles: which extension the path of an image file has, and
/// what a part of the screen looks like when it is magnified.
pub struct Machine {
    pub extension: Option<Seq<char>>,
    pub scaled: RgbaImage,
}

/// The machine settles what it is asked for in this turn: the extension is one
/// that the path has, the image is the one at hand, magnified.
pub open spec fn settles(machine: Machine, state: Waiting, event: Event<Seq<char>>) -> bool {
    match (state, event) {
        (State::ImageFetched { image_path }, Event::File(Ok(_))) => media::has_extension(
            image_path,
            machine.extension,
        ),
        (State::ZoomCleared { zoom, image }, Event::Done) => screen::is_magnified(
            image,
            screen::magnified(zoom.area.width, zoom.scale),
            screen::magnified(zoom.area.height, zoom.scale),
            machine.scaled,
        ),
        _ => true,
    }
}

/// `next` is the next turn of a tool, by what the machine settles.
pub open spec fn follows(state: Waiting, event: Event<Seq<char>>, next: Next) -> bool {
    exists|machine: Machine| #[trigger]
        settles(machine, state, event) && next == resumed(state, event, machine)
}

/// The images that a tool has in hand are whole.
pub open spec fn sound(state: Waiting) -> bool {
    match state {
        State::ZoomCleared { image, .. } => image.valid(),
        State::SecondShot { first, .. } => first.valid(),
        State::SecondLoaded { first, .. } => first.valid(),
        _ => true,
    }
}

/// The next turn has whole images in hand.
pub open spec fn sound_turn(next: Next) -> bool {
    match next {
        Turn::Ask(_, state) => sound(state),
        Turn::Answer(_) => true,
    }
}

/// What is said of an image file that does not open.
pub open spec fn not_loaded(path: Seq<char>, why: Seq<char>) -> Seq<char> {
    messages::because("Failed to load image "@ + path, why)
}

/// What is answered of two images.
pub open spec fn judged(task: Task<float::Value>, first: RgbaImage, second: RgbaImage) -> Doc {
    Doc::Object(
        match task {
            Task::Diff { threshold } => answers::diff_fields(
                diff::percentage(
                    diff::differing_pixels(first, second, threshold),
                    (first.width * first.height) as nat,
                ),
                threshold,
                first.width,
                first.height,
            ),
            Task::Find { confidence } => answers::find_fields(
                template::best(second, first, confidence),
                first.width,
                first.height,
                confidence,
            ),
        },
    )
}

/// What a tool that waits for a text does once it has it.
pub open spec fn after_text(state: Waiting, s: Seq<char>) -> Next {
    match state {
        State::Shot { monitor, encode } => if encode {
            Turn::Ask(Action::Fetch { path: s }, State::ShotFetched { monitor, path: s })
        } else {
            Turn::Answer(Doc::Object(answers::screenshot_fields(s, monitor, None)))
        },
        State::ImageRead { image_path } => Turn::Answer(
            Doc::Object(answers::ocr_fields(s, image_path)),
        ),
        State::ShotToRead { kept } => Turn::Ask(
            Action::Read { path: s, language: "en-US"@ },
            State::ShotRead { kept, path: s },
        ),
        State::ShotRead { kept, path } => {
            let answer = Doc::Object(answers::screenshot_ocr_fields(s, kept));
            if kept {
                Turn::Answer(answer)
            } else {
                Turn::Ask(Action::Remove { path }, State::Closing { answer })
            }
        },
        State::InputShot => Turn::Ask(
            Action::Read { path: s, language: "en-US"@ },
            State::InputRead { path: s },
        ),
        State::InputRead { path } => Turn::Ask(
            Action::Remove { path },
            State::Closing { answer: Doc::Object(answers::input_fields(s)) },
        ),
        State::ZoomShot { zoom } => Turn::Ask(
            Action::Load { path: s },
            State::ZoomLoaded { zoom, path: s },
        ),
        State::ZoomKept { zoom } => Turn::Answer(
            Doc::Object(
                answers::zoom_fields(
                    s,
                    zoom.area,
                    zoom.scale,
                    screen::magnified(zoom.area.width, zoom.scale),
                    screen::magnified(zoom.area.height, zoom.scale),
                ),
            ),
        ),
        State::Analyzed { image_path, service } => Turn::Answer(
            Doc::Object(answers::analyze_fields(s, image_path, service)),
        ),
        State::SecondShot { task, first } => Turn::Ask(
            Action::Load { path: s },
            State::SecondLoaded { task, first, path: s, temporary: true },
        ),
        _ => execute::refused(s),
    }
}

/// What a tool that waits for an image does once it has it.
pub open spec fn after_image(state: Waiting, img: RgbaImage) -> Next {
    match state {
        State::ZoomLoaded { zoom, path } => Turn::Ask(
            Action::Remove { path },
            State::ZoomCleared { zoom, image: img },
        ),
        State::FirstLoaded { task, path, second, monitor } => if second == "screen"@ {
            Turn::Ask(
                Action::Screenshot { save_path: None, monitor, quality: 80 },
                State::SecondShot { task, first: img },
            )
        } else {
            Turn::Ask(
                Action::Load { path: second },
                State::SecondLoaded { task, first: img, path: second, temporary: false },
            )
        },
        State::SecondLoaded { task, first, path, temporary } => if temporary {
            Turn::Ask(
                Action::Remove { path },
                State::Closing { answer: judged(task, first, img) },
            )
        } else {
            Turn::Answer(judged(task, first, img))
        },
        _ => execute::refused(Seq::empty()),
    }
}

/// What a tool says of an image that did not open.
pub open spec fn no_image(state: Waiting, why: Seq<char>) -> Next {
    match state {
        State::ZoomLoaded { .. } => execute::refused(
            messages::because("Failed to open cropped image"@, why),
        ),
        State::FirstLoaded { path, .. } => execute::refused(not_loaded(path, why)),
        State::SecondLoaded { path, .. } => execute::refused(not_loaded(path, why)),
        _ => execute::refused(why),
    }
}

/// What a tool that waits for the contents of a file does once it has them.
pub open spec fn after_file(state: Waiting, bytes: Seq<u8>, machine: Machine) -> Next {
    let data = encoding::encoded(bytes);
    match state {
        State::ShotFetched { monitor, path } => Turn::Answer(
            Doc::Object(answers::screenshot_fields(path, monitor, Some(data))),
        ),
        State::ImageFetched { .. } => Turn::Answer(
            Doc::Object(
                answers::image_fields(
                    media::media_type_for(media::kind(machine.extension)),
                    data,
                ),
            ),
        ),
        _ => execute::refused(Seq::empty()),
    }
}

/// The next turn of a tool. `machine` is what the machine settles.
pub open spec fn resumed(state: Waiting, event: Event<Seq<char>>, machine: Machine) -> Next {
    match (state, event) {
        (_, Event::Text(Ok(s))) => after_text(state, s),
        (_, Event::Text(Err(e))) => execute::refused(e),
        (_, Event::Image(Ok(img))) => after_image(state, img),
        (_, Event::Image(Err(why))) => no_image(state, why),
        (_, Event::File(Ok(bytes))) => after_file(state, bytes@, machine),
        (_, Event::File(Err(why))) => execute::refused(
            messages::because("Failed to read image"@, why),
        ),
        (State::InputSize { height, monitor }, Event::Size(Ok((w, h)))) => Turn::Ask(
            Action::Region {
                save_path: None,
                monitor,
                area: Area { x: 0, y: ((h - height) as u32) as i32, width: w, height },
                quality: 80,
            },
            State::InputShot,
        ),
        (_, Event::Size(Err(e))) => execute::refused(e),
        (State::ZoomCleared { zoom, .. }, Event::Done) => Turn::Ask(
            Action::Keep { image: machine.scaled, quality: 100 },
            State::ZoomKept { zoom },
        ),
        (State::Closing { answer }, Event::Done) => Turn::Answer(answer),
        (State::ImageFound { image_path }, Event::Found(there)) => if there {
            Turn::Ask(Action::Fetch { path: image_path }, State::ImageFetched { image_path })
        } else {
            execute::refused(messages::because("Image not found"@, image_path))
        },
        (State::LookedAround, Event::Around(around)) => Turn::Answer(
            Doc::Object(
                backend::report(
                    around.with_onnx,
                    backend::backend_for(text::told(around.setting), around.on_windows),
                    around.models.present(),
                ),
            ),
        ),
        _ => execute::refused(Seq::empty()),
    }
}

fn refuse(e: &str) -> (r: Turn<String, Json, u64>)
    ensures
        execute::turn_seen(r) == execute::refused(e@),
{
    Turn::Answer(answers::error_answer(e))
}

fn judge(task: Task<u64>, first: &RgbaImage, second: &RgbaImage) -> (r: Json)
    requires
        first.valid(),
        second.valid(),
        feasible(execute::task_seen(task), *first, *second),
    ensures
        r.doc() == judged(execute::task_seen(task), *first, *second),
{
    match task {
        Task::Diff { threshold } => {
            let (percent, width, height) = diff::diff_images(first, second, threshold);
            answers::diff_answer(percent, threshold, width, height)
        },
        Task::Find { confidence } => {
            let found = template::find_template_match(second, first, confidence);
            answers::find_answer(found, first.width, first.height, confidence)
        },
    }
}

fn go_on_with_text(state: State<String, Json, u64>, s: String) -> (r: Turn<String, Json, u64>)
    requires
        fits(execute::state_seen(state), Event::Text(Ok(s@))),
        sound(execute::state_seen(state)),
    ensures
        execute::turn_seen(r) == after_text(execute::state_seen(state), s@),
        sound_turn(execute::turn_seen(r)),
{
    match state {
        State::Shot { monitor, encode } => {
            if encode {
                Turn::Ask(
                    Action::Fetch { path: s.clone() },
                    State::ShotFetched { monitor: monitor, path: s },
                )
            } else {
                Turn::Answer(answers::screenshot_answer(s.as_str(), monitor, None))
            }
        },
        State::ImageRead { image_path } => Turn::Answer(
            answers::ocr_answer(s.as_str(), image_path.as_str()),
        ),
        State::ShotToRead { kept } => Turn::Ask(
            Action::Read { path: s.clone(), language: "en-US".to_owned() },
            State::ShotRead { kept: kept, path: s },
        ),
        State::ShotRead { kept, path } => {
            let answer = answers::screenshot_ocr_answer(s.as_str(), kept);
            if kept {
                Turn::Answer(answer)
            } else {
                Turn::Ask(Action::Remove { path: path }, State::Closing { answer: answer })
            }
        },
        State::InputShot => Turn::Ask(
            Action::Read { path: s.clone(), language: "en-US".to_owned() },
            State::InputRead { path: s },
        ),
        State::InputRead { path } => Turn::Ask(
            Action::Remove { path: path },
            State::Closing { answer: answers::input_answer(s.as_str()) },
        ),
        State::ZoomShot { zoom } => Turn::Ask(
            Action::Load { path: s.clone() },
            State::ZoomLoaded { zoom: zoom, path: s },
        ),
        State::ZoomKept { zoom } => {
            let width = screen::magnified_side(zoom.area.width, zoom.scale);
            let height = screen::magnified_side(zoom.area.height, zoom.scale);
            Turn::Answer(
                answers::zoom_answer(s.as_str(), zoom.area, zoom.scale, width, height),
            )
        },
        State::Analyzed { image_path, service } => Turn::Answer(
            answers::analyze_answer(s.as_str(), image_path.as_str(), service.as_str()),
        ),
        State::SecondShot { task, first } => Turn::Ask(
            Action::Load { path: s.clone() },
            State::SecondLoaded { task: task, first: first, path: s, temporary: true },
        ),
        _ => refuse(s.as_str()),
    }
}

fn go_on_with_image(state: State<String, Json, u64>, img: RgbaImage) -> (r: Turn<String, Json, u64>)
    requires
        fits(execute::state_seen(state), Event::Image(Ok(img))),
        sound(execute::state_seen(state)),
    ensures
        execute::turn_seen(r) == after_image(execute::state_seen(state), img),
        sound_turn(execute::turn_seen(r)),
{
    match state {
        State::ZoomLoaded { zoom, path } => Turn::Ask(
            Action::Remove { path: path },
            State::ZoomCleared { zoom: zoom, image: img },
        ),
        State::FirstLoaded { task, path, second, monitor } => {
            if text::same_text(second.as_str(), "screen") {
                Turn::Ask(
                    Action::Screenshot { save_path: None, monitor: monitor, quality: 80 },
                    State::SecondShot { task: task, first: img },
                )
            } else {
                Turn::Ask(
                    Action::Load { path: second.clone() },
                    State::SecondLoaded { task: task, first: img, path: second, temporary: false },
                )
            }
        },
        State::SecondLoaded { task, first, path, temporary } => {
            let answer = judge(task, &first, &img);
            if temporary {
                Turn::Ask(Action::Remove { path: path }, State::Closing { answer: answer })
            } else {
                Turn::Answer(answer)
            }
        },
        _ => refuse(""),
    }
}

fn give_up_image(state: State<String, Json, u64>, why: &str) -> (r: Turn<String, Json, u64>)
    ensures
        execute::turn_seen(r) == no_image(execute::state_seen(state), why@),
{
    match state {
        State::ZoomLoaded { .. } => refuse(
            messages::failed("Failed to open cropped image", why).as_str(),
        ),
        State::FirstLoaded { path, .. } => refuse(say_not_loaded(path.as_str(), why).as_str()),
        State::SecondLoaded { path, .. } => refuse(say_not_loaded(path.as_str(), why).as_str()),
        _ => refuse(why),
    }
}

fn go_on_with_file(state: State<String, Json, u64>, read: Result<Vec<u8>, String>) -> (r: Turn<
    String,
    Json,
    u64,
>)
    requires
        fits(execute::state_seen(state), execute::event_seen(Event::File(read))),
    ensures
        follows(
            execute::state_seen(state),
            execute::event_seen(Event::File(read)),
            execute::turn_seen(r),
        ),
        sound_turn(execute::turn_seen(r)),
{
    let ghost seen = execute::state_seen(state);
    let ghost event = execute::event_seen(Event::File(read));
    let data = match media::image_to_base64(read) {
        Ok(data) => data,
        Err(e) => {
            assert(settles(arbitrary(), seen, event));
            return refuse(e.as_str());
        },
    };
    match state {
        State::ShotFetched { monitor, path } => {
            assert(settles(arbitrary(), seen, event));
            Turn::Answer(answers::screenshot_answer(path.as_str(), monitor, Some(data)))
        },
        State::ImageFetched { image_path } => {
            let media_type = media::media_type(image_path.as_str());
            proof {
                let e = choose|e: Option<Seq<char>>| #[trigger]
                    media::has_extension(image_path@, e) && media_type@ == media::media_type_for(
                        media::kind(e),
                    );
                assert(settles(Machine { extension: e, scaled: arbitrary() }, seen, event));
            }
            Turn::Answer(answers::image_answer(media_type.as_str(), data.as_str()))
        },
        _ => refuse(""),
    }
}

fn say_not_loaded(path: &str, why: &str) -> (r: String)
    ensures
        r@ == not_loaded(path@, why@),
{
    messages::failed(text::joined_texts("Failed to load image ", path).as_str(), why)
}

/// Goes on with a tool, given what became of what it asked for.
pub fn resume(state: State<String, Json, u64>, event: Event<String>) -> (r: Turn<String, Json, u64>)
    requires
        fits(execute::state_seen(state), execute::event_seen(event)),
        sound(execute::state_seen(state)),
    ensures
        follows(
            execute::state_seen(state),
            execute::event_seen(event),
            execute::turn_seen(r),
        ),
        sound_turn(execute::turn_seen(r)),
{
    let ghost seen = execute::state_seen(state);
    let ghost told = execute::event_seen(event);
    // But for two turns the machine settles nothing.
    assert(!(told is File) && !(seen is ZoomCleared) ==> settles(arbitrary(), seen, told));
    match event {
        Event::Text(Ok(s)) => go_on_with_text(state, s),
        Event::Text(Err(e)) => refuse(e.as_str()),
        Event::Image(Ok(img)) => go_on_with_image(state, img),
        Event::Image(Err(why)) => give_up_image(state, why.as_str()),
        Event::File(read) => go_on_with_file(state, read),
        Event::Size(Err(e)) => refuse(e.as_str()),
        Event::Size(Ok((w, h))) => match state {
            State::InputSize { height, monitor } => {
                let y = (h - height) as i32;
                Turn::Ask(
                    Action::Region {
                        save_path: None,
                        monitor: monitor,
                        area: Area { x: 0, y: y, width: w, height: height },
                        quality: 80,
                    },
                    State::InputShot,
                )
            },
            _ => refuse(""),
        },
        Event::Done => match state {
            State::ZoomCleared { zoom, image } => {
                let width = screen::magnified_side(zoom.area.width, zoom.scale);
                let height = screen::magnified_side(zoom.area.height, zoom.scale);
                let scaled = screen::magnify(&image, width, height);
                assert(settles(Machine { extension: None, scaled }, seen, told));
                Turn::Ask(
                    Action::Keep { image: scaled, quality: 100 },
                    State::ZoomKept { zoom: zoom },
                )
            },
            State::Closing { answer } => Turn::Answer(answer),
            _ => refuse(""),
        },
        Event::Found(there) => match state {
            State::ImageFound { image_path } => {
                if there {
                    Turn::Ask(
                        Action::Fetch { path: image_path.clone() },
                        State::ImageFetched { image_path: image_path },
                    )
                } else {
                    refuse(messages::failed("Image not found", image_path.as_str()).as_str())
                }
            },
            _ => refuse(""),
        },
        Event::Around(around) => Turn::Answer(backend::vision_ocr_backends(&around)),
    }
}

/// How many things a tool may still ask for, the one it waits for counted.
pub open spec fn stages(state: Waiting) -> nat {
    match state {
        State::Shot { .. } => 2,
        State::ShotFetched { .. } => 1,
        State::ImageRead { .. } => 1,
        State::ShotToRead { .. } => 3,
        State::ShotRead { .. } => 2,
        State::InputSize { .. } => 4,
        State::InputShot => 3,
        State::InputRead { .. } => 2,
        State::ZoomShot { .. } => 4,
        State::ZoomLoaded { .. } => 3,
        State::ZoomCleared { .. } => 2,
        State::ZoomKept { .. } => 1,
        State::Analyzed { .. } => 1,
        State::ImageFound { .. } => 2,
        State::ImageFetched { .. } => 1,
        State::FirstLoaded { .. } => 4,
        State::SecondShot { .. } => 3,
        State::SecondLoaded { .. } => 2,
        State::Closing { .. } => 1,
        State::LookedAround => 1,
    }
}

/// Every tool comes to an answer, after at most four things done: each turn
/// leaves fewer than the one before.
pub proof fn every_tool_comes_to_an_answer(
    name: Seq<char>,
    args: Doc,
    service: Seq<char>,
    state: Waiting,
    event: Event<Seq<char>>,
    machine: Machine,
)
    requires
        fits(state, event),
    ensures
        execute::opened(name, args, service) matches Turn::Ask(_, first) ==> stages(first) <= 4 && sound(
            first,
        ),
        resumed(state, event, machine) matches Turn::Ask(_, next) ==> stages(next) < stages(state),
        stages(state) == 1 ==> resumed(state, event, machine) is Answer,
{
}

/// What went wrong, if anything did.
pub open spec fn failure(event: Event<Seq<char>>) -> Option<Seq<char>> {
    match event {
        Event::Text(Err(e)) => Some(e),
        Event::File(Err(e)) => Some(e),
        Event::Size(Err(e)) => Some(e),
        Event::Image(Err(e)) => Some(e),
        _ => None,
    }
}

/// A tool stops at what went wrong: it answers with an error that holds the
/// reason, and with nothing else.
pub proof fn a_failure_is_answered_with_its_reason(
    state: Waiting,
    event: Event<Seq<char>>,
    machine: Machine,
)
    requires
        fits(state, event),
        failure(event) is Some,
    ensures
        exists|e: Seq<char>|
            resumed(state, event, machine) == #[trigger] execute::refused(e) && text::holds(
                e,
                failure(event)->Some_0,
            ),
{
    let why = failure(event)->Some_0;
    text::lemma_holds_start(why, Seq::empty());
    match event {
        Event::Image(_) | Event::File(_) => {
            let what = match state {
                State::ShotFetched { .. } => "Failed to read image"@,
                State::ImageFetched { .. } => "Failed to read image"@,
                State::ZoomLoaded { .. } => "Failed to open cropped image"@,
                State::FirstLoaded { path, .. } => "Failed to load image "@ + path,
                State::SecondLoaded { path, .. } => "Failed to load image "@ + path,
                _ => Seq::empty(),
            };
            let e = messages::because(what, why);
            text::lemma_holds(what + ": "@, why, Seq::empty(), why);
            assert(what + ": "@ + why + Seq::<char>::empty() =~= e);
            assert(resumed(state, event, machine) == execute::refused(e));
        },
        _ => {
            assert(resumed(state, event, machine) == execute::refused(why));
        },
    }
}

/// A tool that waits for the contents of a file asked for that very file, so
/// that what it answers is that file's text and, of an image file, its media
/// type.
pub proof fn the_file_asked_for_is_the_one_waited_for(
    name: Seq<char>,
    args: Doc,
    service: Seq<char>,
    state: Waiting,
    event: Event<Seq<char>>,
    machine: Machine,
)
    requires
        fits(state, event),
    ensures
        execute::opened(name, args, service) matches Turn::Ask(_, first) ==> !(first is ShotFetched)
            && !(first is ImageFetched),
        resumed(state, event, machine) matches Turn::Ask(action, next) ==> {
            &&& next matches State::ShotFetched { path, .. } ==> action == (Action::Fetch { path })
            &&& next matches State::ImageFetched { image_path } ==> action == (Action::Fetch {
                path: image_path,
            })
        },
{
}

/// The tool took this capture for itself, and is to remove it.
pub open spec fn owns(state: Waiting, path: Seq<char>) -> bool {
    match state {
        State::ShotRead { kept, path: p } => !kept && p == path,
        State::InputRead { path: p } => p == path,
        State::ZoomLoaded { path: p, .. } => p == path,
        State::SecondLoaded { path: p, temporary, .. } => temporary && p == path,
        _ => false,
    }
}

/// The tool waits for a capture that it takes for itself.
pub open spec fn takes_for_itself(state: Waiting) -> bool {
    match state {
        State::ShotToRead { kept } => !kept,
        State::InputShot => true,
        State::ZoomShot { .. } => true,
        State::SecondShot { .. } => true,
        _ => false,
    }
}

/// The action captures the screen, and nobody said where that is kept.
pub open spec fn captures_for_itself(action: Action<Seq<char>>) -> bool {
    match action {
        Action::Screenshot { save_path, .. } => save_path is None,
        Action::Region { save_path, .. } => save_path is None,
        _ => false,
    }
}

/// A tool removes nothing but a capture that it took for itself: the file is
/// one that a capture gave it, and nobody said where that capture is kept.
pub proof fn only_a_tools_own_captures_are_removed(
    name: Seq<char>,
    args: Doc,
    service: Seq<char>,
    state: Waiting,
    event: Event<Seq<char>>,
    machine: Machine,
    path: Seq<char>,
)
    requires
        fits(state, event),
    ensures
        execute::opened(name, args, service) matches Turn::Ask(action, first) ==> {
            &&& !(action is Remove)
            &&& !owns(first, path)
            &&& takes_for_itself(first) ==> captures_for_itself(action)
        },
        resumed(state, event, machine) matches Turn::Ask(action, next) ==> {
            &&& action == (Action::Remove { path }) ==> owns(state, path)
            &&& owns(next, path) ==> takes_for_itself(state) && event == Event::Text(
                Ok::<Seq<char>, Seq<char>>(path),
            )
            &&& takes_for_itself(next) ==> captures_for_itself(action)
        },
{
}

/// A capture that a tool took for itself is removed as soon as it was read,
/// opened or compared.
pub proof fn a_tools_own_capture_is_removed_after_use(
    state: Waiting,
    event: Event<Seq<char>>,
    machine: Machine,
    path: Seq<char>,
)
    requires
        fits(state, event),
        failure(event) is None,
        owns(state, path),
    ensures
        resumed(state, event, machine) matches Turn::Ask(action, _) && action == (Action::Remove { path }),
{
}

/// An image compared with itself has not changed.
pub proof fn an_image_compared_with_itself_has_not_changed(img: RgbaImage, threshold: u8)
    requires
        img.valid(),
        img.full(),
    ensures
        judged(Task::Diff { threshold }, img, img) == Doc::Object(
            answers::diff_fields(
                float::Value::Finite(false, 0),
                threshold,
                img.width,
                img.height,
            ),
        ),
        !answers::changed(float::Value::Finite(false, 0)),
{
    diff::an_image_does_not_differ_from_itself(img, threshold);
}

} // verus!
