//! Carrying out a tool: what is done next, and what is answered.
//!
//! A tool is carried out in turns. Each turn either answers, or asks for
//! something to be done on the machine and waits for what becomes of it.
use vstd::prelude::*;
use crate::answers;
use crate::bits;
use crate::definitions;
use crate::float;
use crate::messages;
use crate::text;
use crate::answers::Area;
use crate::backend::Surroundings;
use crate::float::Float;
use crate::json::Doc;
use crate::json::Json;
use crate::raster::RgbaImage;

verus! {

/// Something to be done on the machine. `T` is the type of texts.
#[derive(Debug, PartialEq, Eq)]
pub enum Action<T> {
    /// Capture a screen and keep it.
    Screenshot { save_path: Option<T>, monitor: usize, quality: u8 },
    /// Capture a part of a screen and keep it.
    Region { save_path: Option<T>, monitor: usize, area: Area, quality: u8 },
    /// Tell the width and height of a screen.
    Measure { monitor: usize },
    /// Read the text in an image file.
    Read { path: T, language: T },
    /// Give the contents of a file.
    Fetch { path: T },
    /// Tell whether there is a file.
    Look { path: T },
    /// Open an image file.
    Load { path: T },
    /// Keep a magnified image.
    Keep { image: RgbaImage, quality: u8 },
    /// Remove a file; it does not matter if that fails.
    Remove { path: T },
    /// Ask the service about an image file.
    Analyze { path: T, query: T },
    /// Tell what surrounds the library.
    LookAround,
}

/// What became of an action.
#[derive(Debug, PartialEq, Eq)]
pub enum Event<T> {
    /// A text, or why there is none: where a capture is kept, what was read,
    /// what the service said.
    Text(Result<T, T>),
    /// The contents of a file.
    File(Result<Vec<u8>, T>),
    /// The width and height of a screen.
    Size(Result<(u32, u32), T>),
    /// An image.
    Image(Result<RgbaImage, T>),
    /// Whether there is a file.
    Found(bool),
    /// It is done.
    Done,
    /// What surrounds the library.
    Around(Surroundings),
}

/// A part of the screen and how far it is magnified. `F` is the type of
/// floating point numbers.
#[derive(Clone, Copy, Debug, PartialEq, Eq)]
pub struct Zoom<F> {
    pub area: Area,
    pub scale: F,
}

/// What is done with two images.
#[derive(Clone, Copy, Debug, PartialEq, Eq)]
pub enum Task<F> {
    /// They are compared.
    Diff { threshold: u8 },
    /// The first is looked for in the second.
    Find { confidence: F },
}

/// What a tool waits for, with all it has to remember. `D` is the type of
/// answers.
#[derive(Debug, PartialEq, Eq)]
pub enum State<T, D, F> {
    /// A screenshot, whose contents may have been asked for.
    Shot { monitor: usize, encode: bool },
    /// The contents of a screenshot.
    ShotFetched { monitor: usize, path: T },
    /// The text of an image.
    ImageRead { image_path: T },
    /// A screenshot to be read, and kept or not.
    ShotToRead { kept: bool },
    /// The text of a screenshot.
    ShotRead { kept: bool, path: T },
    /// The size of the screen at whose bottom input is looked for.
    InputSize { height: u32, monitor: usize },
    /// The bottom of the screen.
    InputShot,
    /// The text at the bottom of the screen.
    InputRead { path: T },
    /// A part of the screen to be magnified.
    ZoomShot { zoom: Zoom<F> },
    /// The image of that part.
    ZoomLoaded { zoom: Zoom<F>, path: T },
    /// Its file to be gone.
    ZoomCleared { zoom: Zoom<F>, image: RgbaImage },
    /// The magnified part to be kept.
    ZoomKept { zoom: Zoom<F> },
    /// What the service says, which goes by this name.
    Analyzed { image_path: T, service: T },
    /// Whether there is an image file.
    ImageFound { image_path: T },
    /// The contents of an image file.
    ImageFetched { image_path: T },
    /// The first of two images.
    FirstLoaded { task: Task<F>, path: T, second: T, monitor: usize },
    /// A screenshot that is the second.
    SecondShot { task: Task<F>, first: RgbaImage },
    /// The second image; `temporary` tells whether its file is to go.
    SecondLoaded { task: Task<F>, first: RgbaImage, path: T, temporary: bool },
    /// A file to be gone before the answer is given.
    Closing { answer: D },
    /// What surrounds the library.
    LookedAround,
}

/// What a tool does next.
#[derive(Debug, PartialEq, Eq)]
pub enum Turn<T, D, F> {
    /// It answers.
    Answer(D),
    /// It asks for something to be done, and waits.
    Ask(Action<T>, State<T, D, F>),
}

/// What an action asks for.
pub open spec fn action_seen(a: Action<String>) -> Action<Seq<char>> {
    match a {
        Action::Screenshot { save_path, monitor, quality } => Action::Screenshot {
            save_path: text::told(save_path),
            monitor,
            quality,
        },
        Action::Region { save_path, monitor, area, quality } => Action::Region {
            save_path: text::told(save_path),
            monitor,
            area,
            quality,
        },
        Action::Measure { monitor } => Action::Measure { monitor },
        Action::Read { path, language } => Action::Read { path: path@, language: language@ },
        Action::Fetch { path } => Action::Fetch { path: path@ },
        Action::Look { path } => Action::Look { path: path@ },
        Action::Load { path } => Action::Load { path: path@ },
        Action::Keep { image, quality } => Action::Keep { image, quality },
        Action::Remove { path } => Action::Remove { path: path@ },
        Action::Analyze { path, query } => Action::Analyze { path: path@, query: query@ },
        Action::LookAround => Action::LookAround,
    }
}

/// An outcome, with its texts.
pub open spec fn outcome_seen(r: Result<String, String>) -> Result<Seq<char>, Seq<char>> {
    match r {
        Ok(s) => Ok(s@),
        Err(e) => Err(e@),
    }
}

/// An outcome, with the text of what went wrong.
pub open spec fn failure_seen<V>(r: Result<V, String>) -> Result<V, Seq<char>> {
    match r {
        Ok(v) => Ok(v),
        Err(e) => Err(e@),
    }
}

/// What an event tells.
pub open spec fn event_seen(e: Event<String>) -> Event<Seq<char>> {
    match e {
        Event::Text(r) => Event::Text(outcome_seen(r)),
        Event::File(r) => Event::File(failure_seen(r)),
        Event::Size(r) => Event::Size(failure_seen(r)),
        Event::Image(r) => Event::Image(failure_seen(r)),
        Event::Found(b) => Event::Found(b),
        Event::Done => Event::Done,
        Event::Around(a) => Event::Around(a),
    }
}

/// A part of the screen and how far it is magnified.
pub open spec fn zoom_seen(z: Zoom<u64>) -> Zoom<float::Value> {
    Zoom { area: z.area, scale: bits::double_value(z.scale) }
}

/// What is done with two images.
pub open spec fn task_seen(t: Task<u64>) -> Task<float::Value> {
    match t {
        Task::Diff { threshold } => Task::Diff { threshold },
        Task::Find { confidence } => Task::Find { confidence: bits::double_value(confidence) },
    }
}

/// What a tool waits for.
pub open spec fn state_seen(s: State<String, Json, u64>) -> State<Seq<char>, Doc, float::Value> {
    match s {
        State::Shot { monitor, encode } => State::Shot { monitor, encode },
        State::ShotFetched { monitor, path } => State::ShotFetched { monitor, path: path@ },
        State::ImageRead { image_path } => State::ImageRead { image_path: image_path@ },
        State::ShotToRead { kept } => State::ShotToRead { kept },
        State::ShotRead { kept, path } => State::ShotRead { kept, path: path@ },
        State::InputSize { height, monitor } => State::InputSize { height, monitor },
        State::InputShot => State::InputShot,
        State::InputRead { path } => State::InputRead { path: path@ },
        State::ZoomShot { zoom } => State::ZoomShot { zoom: zoom_seen(zoom) },
        State::ZoomLoaded { zoom, path } => State::ZoomLoaded {
            zoom: zoom_seen(zoom),
            path: path@,
        },
        State::ZoomCleared { zoom, image } => State::ZoomCleared { zoom: zoom_seen(zoom), image },
        State::ZoomKept { zoom } => State::ZoomKept { zoom: zoom_seen(zoom) },
        State::Analyzed { image_path, service } => State::Analyzed {
            image_path: image_path@,
            service: service@,
        },
        State::ImageFound { image_path } => State::ImageFound { image_path: image_path@ },
        State::ImageFetched { image_path } => State::ImageFetched { image_path: image_path@ },
        State::FirstLoaded { task, path, second, monitor } => State::FirstLoaded {
            task: task_seen(task),
            path: path@,
            second: second@,
            monitor,
        },
        State::SecondShot { task, first } => State::SecondShot { task: task_seen(task), first },
        State::SecondLoaded { task, first, path, temporary } => State::SecondLoaded {
            task: task_seen(task),
            first,
            path: path@,
            temporary,
        },
        State::Closing { answer } => State::Closing { answer: answer.doc() },
        State::LookedAround => State::LookedAround,
    }
}

/// What a tool does next.
pub open spec fn turn_seen(t: Turn<String, Json, u64>) -> Turn<Seq<char>, Doc, float::Value> {
    match t {
        Turn::Answer(d) => Turn::Answer(d.doc()),
        Turn::Ask(a, s) => Turn::Ask(action_seen(a), state_seen(s)),
    }
}

/// A tool in mid course, as contracts speak of it.
pub type Waiting = State<Seq<char>, Doc, float::Value>;

/// What a tool does next, as contracts speak of it.
pub type Next = Turn<Seq<char>, Doc, float::Value>;

/// The tool gives up and says why.
pub open spec fn refused(e: Seq<char>) -> Next {
    Turn::Answer(Doc::Object(answers::error_fields(e)))
}

/// The tool gives up for want of an argument.
pub open spec fn wanting(argument: Seq<char>) -> Next {
    refused(argument + " is required"@)
}

/// The monitor that is asked for.
pub open spec fn monitor_in(args: Doc) -> usize {
    match args.field("monitor"@).as_u64() {
        Some(v) => v as usize,
        None => 0,
    }
}

/// The quality that is asked for.
pub open spec fn quality_in(args: Doc) -> u8 {
    match args.field("quality"@).as_u64() {
        Some(v) => v as u8,
        None => 80,
    }
}

/// A coordinate that is asked for.
pub open spec fn coordinate_in(args: Doc, key: Seq<char>) -> i32 {
    match args.field(key).as_i64() {
        Some(v) => v as i32,
        None => 0,
    }
}

/// A length that is asked for.
pub open spec fn length_in(args: Doc, key: Seq<char>, default: u32) -> u32 {
    match args.field(key).as_u64() {
        Some(v) => v as u32,
        None => default,
    }
}

/// The part of the screen that is asked for.
pub open spec fn region_in(args: Doc) -> Option<Area> {
    let region = args.field("region"@);
    if region is Object {
        Some(
            Area {
                x: coordinate_in(region, "x"@),
                y: coordinate_in(region, "y"@),
                width: length_in(region, "width"@, 400),
                height: length_in(region, "height"@, 200),
            },
        )
    } else {
        None
    }
}

/// The capture that is asked for.
pub open spec fn capture(
    save_path: Option<Seq<char>>,
    monitor: usize,
    region: Option<Area>,
    quality: u8,
) -> Action<Seq<char>> {
    match region {
        Some(area) => Action::Region { save_path, monitor, area, quality },
        None => Action::Screenshot { save_path, monitor, quality },
    }
}

pub open spec fn open_screenshot(args: Doc) -> Next {
    let monitor = monitor_in(args);
    Turn::Ask(
        capture(args.field("save_path"@).as_text(), monitor, region_in(args), quality_in(args)),
        State::Shot { monitor, encode: args.field("return_base64"@).as_bool() == Some(true) },
    )
}

pub open spec fn open_ocr(args: Doc) -> Next {
    match args.field("image_path"@).as_text() {
        Some(path) => Turn::Ask(
            Action::Read {
                path,
                language: match args.field("language"@).as_text() {
                    Some(s) => s,
                    None => "en-US"@,
                },
            },
            State::ImageRead { image_path: path },
        ),
        None => wanting("image_path"@),
    }
}

pub open spec fn open_screenshot_ocr(args: Doc) -> Next {
    let save_path = args.field("save_screenshot"@).as_text();
    Turn::Ask(
        capture(save_path, monitor_in(args), region_in(args), 80),
        State::ShotToRead { kept: save_path is Some },
    )
}

pub open spec fn open_check_user_input(args: Doc) -> Next {
    let monitor = monitor_in(args);
    Turn::Ask(
        Action::Measure { monitor },
        State::InputSize { height: length_in(args, "height"@, 200), monitor },
    )
}

/// The scale is none that a region is magnified by.
pub open spec fn off_scale(scale: float::Value) -> bool {
    let f = float::double_format();
    float::at_least(float::natural(f, 0), scale) || float::less(float::natural(f, 10), scale)
}

pub open spec fn open_zoom(args: Doc) -> Next {
    let scale = match args.field("scale"@).as_double() {
        Some(v) => v,
        None => definitions::default_scale(),
    };
    if args.field("x"@).as_i64() is None {
        wanting("x"@)
    } else if args.field("y"@).as_i64() is None {
        wanting("y"@)
    } else if args.field("width"@).as_u64() is None {
        wanting("width"@)
    } else if args.field("height"@).as_u64() is None {
        wanting("height"@)
    } else {
        let area = Area {
            x: coordinate_in(args, "x"@),
            y: coordinate_in(args, "y"@),
            width: length_in(args, "width"@, 0),
            height: length_in(args, "height"@, 0),
        };
        if area.width == 0 || area.height == 0 {
            refused("width and height must be > 0"@)
        } else if off_scale(scale) {
            refused("scale must be between 0 and 10"@)
        } else {
            Turn::Ask(
                Action::Region { save_path: None, monitor: 0, area, quality: 100 },
                State::ZoomShot { zoom: Zoom { area, scale } },
            )
        }
    }
}

pub open spec fn open_analyze(args: Doc, service: Seq<char>) -> Next {
    match args.field("image_path"@).as_text() {
        Some(path) => Turn::Ask(
            Action::Analyze {
                path,
                query: match args.field("query"@).as_text() {
                    Some(s) => s,
                    None => "Describe this image in detail"@,
                },
            },
            State::Analyzed { image_path: path, service },
        ),
        None => wanting("image_path"@),
    }
}

pub open spec fn open_load_image(args: Doc) -> Next {
    match args.field("image_path"@).as_text() {
        Some(path) => Turn::Ask(Action::Look { path }, State::ImageFound { image_path: path }),
        None => wanting("image_path"@),
    }
}

pub open spec fn open_diff(args: Doc) -> Next {
    match (args.field("image_a"@).as_text(), args.field("image_b"@).as_text()) {
        (None, _) => wanting("image_a"@),
        (_, None) => wanting("image_b"@),
        (Some(path), Some(second)) => Turn::Ask(
            Action::Load { path },
            State::FirstLoaded {
                task: Task::Diff {
                    threshold: match args.field("threshold"@).as_u64() {
                        Some(v) => v as u8,
                        None => 30,
                    },
                },
                path,
                second,
                monitor: monitor_in(args),
            },
        ),
    }
}

pub open spec fn open_find_template(args: Doc) -> Next {
    match args.field("template"@).as_text() {
        Some(path) => Turn::Ask(
            Action::Load { path },
            State::FirstLoaded {
                task: Task::Find {
                    confidence: match args.field("threshold"@).as_double() {
                        Some(v) => v,
                        None => definitions::default_confidence(),
                    },
                },
                path,
                second: match args.field("search_in"@).as_text() {
                    Some(s) => s,
                    None => "screen"@,
                },
                monitor: monitor_in(args),
            },
        ),
        None => wanting("template"@),
    }
}

/// The first turn of a tool. `service` is what the service is called that
/// analyzes images.
pub open spec fn opened(name: Seq<char>, args: Doc, service: Seq<char>) -> Next {
    if name == "vision_screenshot"@ {
        open_screenshot(args)
    } else if name == "vision_ocr"@ {
        open_ocr(args)
    } else if name == "vision_screenshot_ocr"@ {
        open_screenshot_ocr(args)
    } else if name == "vision_check_user_input"@ {
        open_check_user_input(args)
    } else if name == "vision_zoom"@ {
        open_zoom(args)
    } else if name == "vision_analyze"@ {
        open_analyze(args, service)
    } else if name == "vision_load_image"@ {
        open_load_image(args)
    } else if name == "vision_diff"@ {
        open_diff(args)
    } else if name == "vision_find_template"@ {
        open_find_template(args)
    } else if name == "vision_ocr_backends"@ {
        Turn::Ask(Action::LookAround, State::LookedAround)
    } else {
        refused(messages::because("Unknown vision tool"@, name))
    }
}

fn refuse(e: &str) -> (r: Turn<String, Json, u64>)
    ensures
        turn_seen(r) == refused(e@),
{
    Turn::Answer(answers::error_answer(e))
}

fn want(argument: &str) -> (r: Turn<String, Json, u64>)
    ensures
        turn_seen(r) == wanting(argument@),
{
    refuse(text::joined_texts(argument, " is required").as_str())
}

fn read_monitor(args: &Json) -> (r: usize)
    ensures
        r == monitor_in(args.doc()),
{
    match args.u64_at("monitor") {
        Some(v) => v as usize,
        None => 0,
    }
}

fn read_quality(args: &Json) -> (r: u8)
    ensures
        r == quality_in(args.doc()),
{
    match args.u64_at("quality") {
        Some(v) => v as u8,
        None => 80,
    }
}

fn read_coordinate(args: &Json, key: &str) -> (r: i32)
    ensures
        r == coordinate_in(args.doc(), key@),
{
    match args.i64_at(key) {
        Some(v) => v as i32,
        None => 0,
    }
}

fn read_length(args: &Json, key: &str, default: u32) -> (r: u32)
    ensures
        r == length_in(args.doc(), key@, default),
{
    match args.u64_at(key) {
        Some(v) => v as u32,
        None => default,
    }
}

fn read_region(args: &Json) -> (r: Option<Area>)
    ensures
        r == region_in(args.doc()),
{
    match args.field("region") {
        Some(region) => {
            if region.is_object() {
                Some(
                    Area {
                        x: read_coordinate(region, "x"),
                        y: read_coordinate(region, "y"),
                        width: read_length(region, "width", 400),
                        height: read_length(region, "height", 200),
                    },
                )
            } else {
                None
            }
        },
        None => None,
    }
}

fn capture_action(
    save_path: Option<String>,
    monitor: usize,
    region: Option<Area>,
    quality: u8,
) -> (r: Action<String>)
    ensures
        action_seen(r) == capture(text::told(save_path), monitor, region, quality),
{
    match region {
        Some(area) => Action::Region {
            save_path: save_path,
            monitor: monitor,
            area: area,
            quality: quality,
        },
        None => Action::Screenshot { save_path: save_path, monitor: monitor, quality: quality },
    }
}

fn start_screenshot(args: &Json) -> (r: Turn<String, Json, u64>)
    ensures
        turn_seen(r) == open_screenshot(args.doc()),
{
    let monitor = read_monitor(args);
    let encode = match args.bool_at("return_base64") {
        Some(b) => b,
        None => false,
    };
    let action = capture_action(
        args.text_at("save_path"),
        monitor,
        read_region(args),
        read_quality(args),
    );
    Turn::Ask(action, State::Shot { monitor: monitor, encode: encode })
}

fn start_ocr(args: &Json) -> (r: Turn<String, Json, u64>)
    ensures
        turn_seen(r) == open_ocr(args.doc()),
{
    match args.text_at("image_path") {
        Some(path) => {
            let language = match args.text_at("language") {
                Some(s) => s,
                None => "en-US".to_owned(),
            };
            Turn::Ask(
                Action::Read { path: path.clone(), language: language },
                State::ImageRead { image_path: path },
            )
        },
        None => want("image_path"),
    }
}

fn start_screenshot_ocr(args: &Json) -> (r: Turn<String, Json, u64>)
    ensures
        turn_seen(r) == open_screenshot_ocr(args.doc()),
{
    let save_path = args.text_at("save_screenshot");
    let kept = save_path.is_some();
    let action = capture_action(save_path, read_monitor(args), read_region(args), 80);
    Turn::Ask(action, State::ShotToRead { kept: kept })
}

fn start_check_user_input(args: &Json) -> (r: Turn<String, Json, u64>)
    ensures
        turn_seen(r) == open_check_user_input(args.doc()),
{
    let monitor = read_monitor(args);
    Turn::Ask(
        Action::Measure { monitor: monitor },
        State::InputSize { height: read_length(args, "height", 200), monitor: monitor },
    )
}

fn is_off_scale(scale: u64) -> (r: bool)
    ensures
        r == off_scale(bits::double_value(scale)),
{
    let f = float::double();
    let x = bits::double_from_bits(scale);
    Float::from_natural(f, 0).reaches(f, x) || Float::from_natural(f, 10).below(f, x)
}

fn start_zoom(args: &Json) -> (r: Turn<String, Json, u64>)
    ensures
        turn_seen(r) == open_zoom(args.doc()),
{
    let x = match args.i64_at("x") {
        Some(v) => v as i32,
        None => return want("x"),
    };
    let y = match args.i64_at("y") {
        Some(v) => v as i32,
        None => return want("y"),
    };
    let width = match args.u64_at("width") {
        Some(v) => v as u32,
        None => return want("width"),
    };
    let height = match args.u64_at("height") {
        Some(v) => v as u32,
        None => return want("height"),
    };
    let scale = match args.double_at("scale") {
        Some(v) => v,
        None => definitions::default_scale_bits(),
    };
    if width == 0 || height == 0 {
        return refuse("width and height must be > 0");
    }
    if is_off_scale(scale) {
        return refuse("scale must be between 0 and 10");
    }
    let area = Area { x: x, y: y, width: width, height: height };
    Turn::Ask(
        Action::Region { save_path: None, monitor: 0, area: area, quality: 100 },
        State::ZoomShot { zoom: Zoom { area: area, scale: scale } },
    )
}

fn start_analyze(args: &Json, service: &str) -> (r: Turn<String, Json, u64>)
    ensures
        turn_seen(r) == open_analyze(args.doc(), service@),
{
    match args.text_at("image_path") {
        Some(path) => {
            let query = match args.text_at("query") {
                Some(s) => s,
                None => "Describe this image in detail".to_owned(),
            };
            Turn::Ask(
                Action::Analyze { path: path.clone(), query: query },
                State::Analyzed { image_path: path, service: service.to_owned() },
            )
        },
        None => want("image_path"),
    }
}

fn start_load_image(args: &Json) -> (r: Turn<String, Json, u64>)
    ensures
        turn_seen(r) == open_load_image(args.doc()),
{
    match args.text_at("image_path") {
        Some(path) => Turn::Ask(
            Action::Look { path: path.clone() },
            State::ImageFound { image_path: path },
        ),
        None => want("image_path"),
    }
}

fn start_diff(args: &Json) -> (r: Turn<String, Json, u64>)
    ensures
        turn_seen(r) == open_diff(args.doc()),
{
    let path = match args.text_at("image_a") {
        Some(s) => s,
        None => return want("image_a"),
    };
    let second = match args.text_at("image_b") {
        Some(s) => s,
        None => return want("image_b"),
    };
    let threshold = match args.u64_at("threshold") {
        Some(v) => v as u8,
        None => 30,
    };
    Turn::Ask(
        Action::Load { path: path.clone() },
        State::FirstLoaded {
            task: Task::Diff { threshold: threshold },
            path: path,
            second: second,
            monitor: read_monitor(args),
        },
    )
}

fn start_find_template(args: &Json) -> (r: Turn<String, Json, u64>)
    ensures
        turn_seen(r) == open_find_template(args.doc()),
{
    let path = match args.text_at("template") {
        Some(s) => s,
        None => return want("template"),
    };
    let second = match args.text_at("search_in") {
        Some(s) => s,
        None => "screen".to_owned(),
    };
    let threshold = match args.double_at("threshold") {
        Some(v) => v,
        None => definitions::default_confidence_bits(),
    };
    Turn::Ask(
        Action::Load { path: path.clone() },
        State::FirstLoaded {
            task: Task::Find { confidence: threshold },
            path: path,
            second: second,
            monitor: read_monitor(args),
        },
    )
}

/// Begins to carry out a tool. `service` is what the service is called that
/// analyzes images.
pub fn execute(name: &str, args: &Json, service: &str) -> (r: Turn<String, Json, u64>)
    ensures
        turn_seen(r) == opened(name@, args.doc(), service@),
{
    if text::same_text(name, "vision_screenshot") {
        start_screenshot(args)
    } else if text::same_text(name, "vision_ocr") {
        start_ocr(args)
    } else if text::same_text(name, "vision_screenshot_ocr") {
        start_screenshot_ocr(args)
    } else if text::same_text(name, "vision_check_user_input") {
        start_check_user_input(args)
    } else if text::same_text(name, "vision_zoom") {
        start_zoom(args)
    } else if text::same_text(name, "vision_analyze") {
        start_analyze(args, service)
    } else if text::same_text(name, "vision_load_image") {
        start_load_image(args)
    } else if text::same_text(name, "vision_diff") {
        start_diff(args)
    } else if text::same_text(name, "vision_find_template") {
        start_find_template(args)
    } else if text::same_text(name, "vision_ocr_backends") {
        Turn::Ask(Action::LookAround, State::LookedAround)
    } else {
        refuse(messages::failed("Unknown vision tool", name).as_str())
    }
}

} // verus!
