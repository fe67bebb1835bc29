//! Tools carried out, turn by turn.
use vision_core::answers::Area;
use vision_core::backend::{ModelPath, Models, Surroundings};
use vision_core::definitions::get_all_definitions;
use vision_core::execute::{execute, Action, Event, State, Task, Turn, Zoom};
use vision_core::json::Json;
use vision_core::raster::RgbaImage;
use vision_core::resume::resume;

type Next = Turn<String, Json, u64>;

fn args(s: &str) -> Json {
    inside(&serde_json::from_str(s).unwrap())
}

fn inside(v: &serde_json::Value) -> Json {
    match v {
        serde_json::Value::Null => Json::Null,
        serde_json::Value::Bool(b) => Json::Bool(*b),
        serde_json::Value::Number(n) => {
            if let Some(u) = n.as_u64() {
                Json::Unsigned(u)
            } else if let Some(i) = n.as_i64() {
                Json::Signed(i)
            } else {
                Json::Float(n.as_f64().unwrap().to_bits())
            }
        }
        serde_json::Value::String(s) => Json::Text(s.clone()),
        serde_json::Value::Array(items) => Json::Array(items.iter().map(inside).collect()),
        serde_json::Value::Object(fields) => {
            Json::Object(fields.iter().map(|(k, v)| (k.clone(), inside(v))).collect())
        }
    }
}

fn outside(v: &Json) -> serde_json::Value {
    match v {
        Json::Null => serde_json::Value::Null,
        Json::Bool(b) => serde_json::Value::from(*b),
        Json::Unsigned(n) => serde_json::Value::from(*n),
        Json::Signed(n) => serde_json::Value::from(*n),
        Json::Float(n) => serde_json::Value::from(f64::from_bits(*n)),
        Json::Text(s) => serde_json::Value::from(s.as_str()),
        Json::Array(items) => serde_json::Value::Array(items.iter().map(outside).collect()),
        Json::Object(fields) => serde_json::Value::Object(
            fields.iter().map(|(k, v)| (k.clone(), outside(v))).collect(),
        ),
    }
}

fn begin(name: &str, s: &str) -> Next {
    execute(name, &args(s), "Example")
}

fn asked(t: Next) -> (Action<String>, State<String, Json, u64>) {
    match t {
        Turn::Ask(a, s) => (a, s),
        Turn::Answer(d) => panic!("answered {d:?}"),
    }
}

fn answered(t: Next, expected: &str) {
    match t {
        Turn::Answer(d) => {
            let e: serde_json::Value = serde_json::from_str(expected).unwrap();
            assert_eq!(outside(&d), e);
        }
        Turn::Ask(a, _) => panic!("asked {a:?}"),
    }
}

fn ok(s: &str) -> Event<String> {
    Event::Text(Ok(s.to_string()))
}

fn failed(s: &str) -> Event<String> {
    Event::Text(Err(s.to_string()))
}

fn text(s: &str) -> Option<String> {
    Some(s.to_string())
}

fn image(width: u32, height: u32, byte: u8) -> RgbaImage {
    RgbaImage { width, height, data: vec![byte; (width * height * 4) as usize] }
}

#[test]
fn a_screenshot_is_taken() {
    let (action, state) = asked(begin("vision_screenshot", "{}"));
    assert_eq!(action, Action::Screenshot { save_path: None, monitor: 0, quality: 80 });
    answered(
        resume(state, ok("p.png")),
        r#"{"success": true, "path": "p.png", "monitor": 0}"#,
    );
}

#[test]
fn a_screenshot_of_a_region_is_taken_and_encoded() {
    let (action, state) = asked(begin(
        "vision_screenshot",
        r#"{"save_path": "q.jpg", "return_base64": true, "monitor": 2, "quality": 55,
            "region": {"x": -4, "y": 7, "width": 30, "height": 20}}"#,
    ));
    let area = Area { x: -4, y: 7, width: 30, height: 20 };
    assert_eq!(action, Action::Region { save_path: text("q.jpg"), monitor: 2, area, quality: 55 });
    let (action, state) = asked(resume(state, ok("q.jpg")));
    assert_eq!(action, Action::Fetch { path: "q.jpg".to_string() });
    answered(
        resume(state, Event::File(Ok(b"ABC".to_vec()))),
        r#"{"success": true, "path": "q.jpg", "monitor": 2, "base64": "QUJD"}"#,
    );
}

#[test]
fn a_region_has_defaults_and_must_be_an_object() {
    let (action, _) = asked(begin("vision_screenshot", r#"{"region": {}}"#));
    let area = Area { x: 0, y: 0, width: 400, height: 200 };
    assert_eq!(action, Action::Region { save_path: None, monitor: 0, area, quality: 80 });
    let (action, _) = asked(begin("vision_screenshot", r#"{"region": [1, 2]}"#));
    assert_eq!(action, Action::Screenshot { save_path: None, monitor: 0, quality: 80 });
}

#[test]
fn numbers_are_cut_to_their_types() {
    let (action, _) = asked(begin(
        "vision_screenshot",
        r#"{"quality": 300, "region": {"x": 4294967301, "width": 4294967299}}"#,
    ));
    let area = Area { x: 5, y: 0, width: 3, height: 200 };
    assert_eq!(action, Action::Region { save_path: None, monitor: 0, area, quality: 44 });
    // What is not a number of the kind asked for counts as left out.
    let (action, _) = asked(begin(
        "vision_screenshot",
        r#"{"quality": -3, "monitor": "1", "save_path": 7, "return_base64": 1}"#,
    ));
    assert_eq!(action, Action::Screenshot { save_path: None, monitor: 0, quality: 80 });
}

#[test]
fn a_failed_capture_is_answered() {
    let (_, state) = asked(begin("vision_screenshot", "{}"));
    answered(resume(state, failed("no screen")), r#"{"error": "no screen"}"#);
    let (_, state) = asked(begin("vision_screenshot", r#"{"return_base64": true}"#));
    let (_, state) = asked(resume(state, ok("p.png")));
    answered(resume(state, failed("no file")), r#"{"error": "no file"}"#);
}

#[test]
fn an_image_is_read() {
    let (action, state) = asked(begin("vision_ocr", r#"{"image_path": "i.png"}"#));
    assert_eq!(
        action,
        Action::Read { path: "i.png".to_string(), language: "en-US".to_string() }
    );
    answered(
        resume(state, ok("héllo")),
        r#"{"success": true, "text": "héllo", "image_path": "i.png", "chars": 6}"#,
    );
    let (action, state) =
        asked(begin("vision_ocr", r#"{"image_path": "i.png", "language": "de-DE"}"#));
    assert_eq!(
        action,
        Action::Read { path: "i.png".to_string(), language: "de-DE".to_string() }
    );
    answered(resume(state, failed("blind")), r#"{"error": "blind"}"#);
}

#[test]
fn a_screenshot_is_read_and_removed() {
    let (action, state) = asked(begin("vision_screenshot_ocr", r#"{"monitor": 1}"#));
    assert_eq!(action, Action::Screenshot { save_path: None, monitor: 1, quality: 80 });
    let (action, state) = asked(resume(state, ok("t.png")));
    assert_eq!(
        action,
        Action::Read { path: "t.png".to_string(), language: "en-US".to_string() }
    );
    let (action, state) = asked(resume(state, ok("hi")));
    assert_eq!(action, Action::Remove { path: "t.png".to_string() });
    answered(
        resume(state, Event::Done),
        r#"{"success": true, "text": "hi", "chars": 2, "screenshot_saved": false}"#,
    );
}

#[test]
fn a_screenshot_that_was_asked_for_stays() {
    let (action, state) = asked(begin(
        "vision_screenshot_ocr",
        r#"{"save_screenshot": "keep.png", "region": {"x": 1, "y": 2, "width": 3, "height": 4}}"#,
    ));
    let area = Area { x: 1, y: 2, width: 3, height: 4 };
    assert_eq!(
        action,
        Action::Region { save_path: text("keep.png"), monitor: 0, area, quality: 80 }
    );
    let (_, state) = asked(resume(state, ok("keep.png")));
    answered(
        resume(state, ok("hi")),
        r#"{"success": true, "text": "hi", "chars": 2, "screenshot_saved": true}"#,
    );
}

#[test]
fn a_screenshot_that_cannot_be_read_is_answered() {
    let (_, state) = asked(begin("vision_screenshot_ocr", "{}"));
    let (_, state) = asked(resume(state, ok("t.png")));
    answered(resume(state, failed("blind")), r#"{"error": "blind"}"#);
}

fn looked_at(said: &str) -> Next {
    let (action, state) = asked(begin("vision_check_user_input", "{}"));
    assert_eq!(action, Action::Measure { monitor: 0 });
    let (action, state) = asked(resume(state, Event::Size(Ok((1920, 1080)))));
    let area = Area { x: 0, y: 880, width: 1920, height: 200 };
    assert_eq!(action, Action::Region { save_path: None, monitor: 0, area, quality: 80 });
    let (action, state) = asked(resume(state, ok("b.png")));
    assert_eq!(
        action,
        Action::Read { path: "b.png".to_string(), language: "en-US".to_string() }
    );
    let (action, state) = asked(resume(state, ok(said)));
    assert_eq!(action, Action::Remove { path: "b.png".to_string() });
    resume(state, Event::Done)
}

#[test]
fn typed_input_is_noticed() {
    answered(
        looked_at("  hello there \n"),
        r#"{"success": true, "has_user_input": true, "text": "hello there", "chars": 11,
            "hint": "User may have typed input"}"#,
    );
    // Bytes are counted, not characters.
    answered(
        looked_at("äöü"),
        r#"{"success": true, "has_user_input": true, "text": "äöü", "chars": 6,
            "hint": "User may have typed input"}"#,
    );
}

#[test]
fn frames_and_specks_are_not_input() {
    for said in ["", "   \n\t ", "hello", "| |  | | |", "\u{3000}|\u{3000}||"] {
        answered(
            looked_at(said),
            r#"{"success": true, "has_user_input": false, "text": "", "chars": 0,
                "hint": "No user input detected"}"#,
        );
    }
}

#[test]
fn the_bottom_of_another_screen_is_looked_at() {
    let (action, state) =
        asked(begin("vision_check_user_input", r#"{"height": 100, "monitor": 3}"#));
    assert_eq!(action, Action::Measure { monitor: 3 });
    let (action, _) = asked(resume(state, Event::Size(Ok((800, 100)))));
    let area = Area { x: 0, y: 0, width: 800, height: 100 };
    assert_eq!(action, Action::Region { save_path: None, monitor: 3, area, quality: 80 });
    let (_, state) = asked(begin("vision_check_user_input", "{}"));
    let event = Event::Size(Err("Monitor 0 not found".to_string()));
    answered(resume(state, event), r#"{"error": "Monitor 0 not found"}"#);
}

#[test]
fn a_region_is_magnified() {
    let (action, state) = asked(begin(
        "vision_zoom",
        r#"{"x": 10, "y": -20, "width": 30, "height": 15, "scale": 1.5}"#,
    ));
    let area = Area { x: 10, y: -20, width: 30, height: 15 };
    assert_eq!(action, Action::Region { save_path: None, monitor: 0, area, quality: 100 });
    assert_eq!(state, State::ZoomShot { zoom: Zoom { area, scale: 1.5f64.to_bits() } });
    let (action, state) = asked(resume(state, ok("r.png")));
    assert_eq!(action, Action::Load { path: "r.png".to_string() });
    let (action, state) = asked(resume(state, Event::Image(Ok(image(30, 15, 9)))));
    assert_eq!(action, Action::Remove { path: "r.png".to_string() });
    let (action, state) = asked(resume(state, Event::Done));
    // An image of one colour keeps it.
    assert_eq!(action, Action::Keep { image: image(45, 22, 9), quality: 100 });
    answered(
        resume(state, ok("z.png")),
        r#"{"success": true, "path": "z.png",
            "region": {"x": 10, "y": -20, "width": 30, "height": 15},
            "scale": 1.5, "output_width": 45, "output_height": 22}"#,
    );
}

#[test]
fn the_scale_is_two_where_nothing_is_said() {
    let (_, left_out) =
        asked(begin("vision_zoom", r#"{"x": 1, "y": 2, "width": 3, "height": 4}"#));
    let (_, given) =
        asked(begin("vision_zoom", r#"{"x": 1, "y": 2, "width": 3, "height": 4, "scale": 2}"#));
    assert_eq!(left_out, given);
    let zoom = Zoom {
        area: Area { x: 1, y: 2, width: 3, height: 4 },
        scale: 2.0f64.to_bits(),
    };
    assert_eq!(left_out, State::ZoomShot { zoom });
}

#[test]
fn zooming_has_bounds() {
    let refuse = |s: &str, e: &str| {
        answered(begin("vision_zoom", s), &format!("{{\"error\": \"{e}\"}}"));
    };
    refuse(
        r#"{"x": 1, "y": 2, "width": 0, "height": 4}"#,
        "width and height must be > 0",
    );
    refuse(
        r#"{"x": 1, "y": 2, "width": 3, "height": 0}"#,
        "width and height must be > 0",
    );
    for scale in ["0", "-1.5", "0.0", "10.5", "11"] {
        let s = format!("{{\"x\": 1, \"y\": 2, \"width\": 3, \"height\": 4, \"scale\": {scale}}}");
        refuse(&s, "scale must be between 0 and 10");
    }
    asked(begin("vision_zoom", r#"{"x": 1, "y": 2, "width": 3, "height": 4, "scale": 10}"#));
}

#[test]
fn a_cropped_image_that_does_not_open_is_answered() {
    let (_, state) =
        asked(begin("vision_zoom", r#"{"x": 1, "y": 2, "width": 3, "height": 4}"#));
    let (_, state) = asked(resume(state, ok("r.png")));
    answered(
        resume(state, Event::Image(Err("torn".to_string()))),
        r#"{"error": "Failed to open cropped image: torn"}"#,
    );
}

#[test]
fn an_image_is_analyzed() {
    let (action, state) = asked(begin("vision_analyze", r#"{"image_path": "i.png"}"#));
    assert_eq!(
        action,
        Action::Analyze {
            path: "i.png".to_string(),
            query: "Describe this image in detail".to_string(),
        }
    );
    answered(
        resume(state, ok("a cat")),
        r#"{"success": true, "analysis": "a cat", "image_path": "i.png",
            "note": "Used Example Vision API (tokens consumed)"}"#,
    );
    let (action, _) =
        asked(begin("vision_analyze", r#"{"image_path": "i.png", "query": "who?"}"#));
    assert_eq!(
        action,
        Action::Analyze { path: "i.png".to_string(), query: "who?".to_string() }
    );
}

#[test]
fn an_image_file_is_given() {
    let (action, state) = asked(begin("vision_load_image", r#"{"image_path": "i.gif"}"#));
    assert_eq!(action, Action::Look { path: "i.gif".to_string() });
    let (action, state) = asked(resume(state, Event::Found(true)));
    assert_eq!(action, Action::Fetch { path: "i.gif".to_string() });
    answered(
        resume(state, Event::File(Ok(b"ABC".to_vec()))),
        r#"{"type": "image",
            "source": {"type": "base64", "media_type": "image/gif", "data": "QUJD"}}"#,
    );
}

#[test]
fn the_path_tells_the_media_type() {
    for (path, kind) in [("a.JPG", "jpeg"), ("d/b.webp", "webp"), ("c.bmp", "png"), ("d", "png")] {
        let (_, state) =
            asked(begin("vision_load_image", &format!("{{\"image_path\": \"{path}\"}}")));
        let (action, state) = asked(resume(state, Event::Found(true)));
        assert_eq!(action, Action::Fetch { path: path.to_string() });
        assert_eq!(state, State::ImageFetched { image_path: path.to_string() });
        answered(
            resume(state, Event::File(Ok(vec![255]))),
            &format!(
                "{{\"type\": \"image\", \"source\": {{\"type\": \"base64\",
                    \"media_type\": \"image/{kind}\", \"data\": \"/w==\"}}}}"
            ),
        );
    }
}

#[test]
fn an_image_file_that_is_not_there_is_answered() {
    let (_, state) = asked(begin("vision_load_image", r#"{"image_path": "i.gif"}"#));
    answered(resume(state, Event::Found(false)), r#"{"error": "Image not found: i.gif"}"#);
    let (_, state) = asked(begin("vision_load_image", r#"{"image_path": "i.gif"}"#));
    let (_, state) = asked(resume(state, Event::Found(true)));
    answered(
        resume(state, Event::File(Err("no".to_string()))),
        r#"{"error": "Failed to read image: no"}"#,
    );
}

#[test]
fn files_are_compared() {
    let (action, state) =
        asked(begin("vision_diff", r#"{"image_a": "a.png", "image_b": "b.png"}"#));
    assert_eq!(action, Action::Load { path: "a.png".to_string() });
    let (action, state) = asked(resume(state, Event::Image(Ok(image(3, 1, 0)))));
    assert_eq!(action, Action::Load { path: "b.png".to_string() });
    let mut other = image(3, 1, 0);
    other.data[0] = 31;
    answered(
        resume(state, Event::Image(Ok(other))),
        r#"{"success": true, "changed": true, "diff_percent": 33.33, "threshold": 30,
            "dimensions": {"width": 3, "height": 1}}"#,
    );
}

#[test]
fn the_same_file_has_not_changed() {
    let (_, state) = asked(begin(
        "vision_diff",
        r#"{"image_a": "a.png", "image_b": "a.png", "threshold": 0}"#,
    ));
    let (_, state) = asked(resume(state, Event::Image(Ok(image(3, 2, 77)))));
    answered(
        resume(state, Event::Image(Ok(image(3, 2, 77)))),
        r#"{"success": true, "changed": false, "diff_percent": 0.0, "threshold": 0,
            "dimensions": {"width": 3, "height": 2}}"#,
    );
}

#[test]
fn empty_images_have_no_number_to_tell() {
    let (_, state) = asked(begin("vision_diff", r#"{"image_a": "a", "image_b": "b"}"#));
    let (_, state) = asked(resume(state, Event::Image(Ok(image(0, 0, 0)))));
    answered(
        resume(state, Event::Image(Ok(image(0, 0, 0)))),
        r#"{"success": true, "changed": false, "diff_percent": null, "threshold": 30,
            "dimensions": {"width": 0, "height": 0}}"#,
    );
}

#[test]
fn a_file_is_compared_with_the_screen() {
    let (_, state) = asked(begin(
        "vision_diff",
        r#"{"image_a": "a.png", "image_b": "screen", "monitor": 1}"#,
    ));
    let (action, state) = asked(resume(state, Event::Image(Ok(image(2, 2, 0)))));
    assert_eq!(action, Action::Screenshot { save_path: None, monitor: 1, quality: 80 });
    let (action, state) = asked(resume(state, ok("s.png")));
    assert_eq!(action, Action::Load { path: "s.png".to_string() });
    let (action, state) = asked(resume(state, Event::Image(Ok(image(2, 2, 255)))));
    assert_eq!(action, Action::Remove { path: "s.png".to_string() });
    answered(
        resume(state, Event::Done),
        r#"{"success": true, "changed": true, "diff_percent": 100.0, "threshold": 30,
            "dimensions": {"width": 2, "height": 2}}"#,
    );
}

#[test]
fn an_image_that_does_not_load_is_named() {
    let (_, state) = asked(begin("vision_diff", r#"{"image_a": "a", "image_b": "b"}"#));
    answered(
        resume(state, Event::Image(Err("torn".to_string()))),
        r#"{"error": "Failed to load image a: torn"}"#,
    );
    let (_, state) = asked(begin("vision_diff", r#"{"image_a": "a", "image_b": "b"}"#));
    let (_, state) = asked(resume(state, Event::Image(Ok(image(1, 1, 0)))));
    answered(
        resume(state, Event::Image(Err("torn".to_string()))),
        r#"{"error": "Failed to load image b: torn"}"#,
    );
}

#[test]
fn a_template_is_looked_for_on_the_screen() {
    let (action, state) = asked(begin("vision_find_template", r#"{"template": "t.png"}"#));
    assert_eq!(action, Action::Load { path: "t.png".to_string() });
    assert_eq!(
        state,
        State::FirstLoaded {
            task: Task::Find { confidence: 0.8f64.to_bits() },
            path: "t.png".to_string(),
            second: "screen".to_string(),
            monitor: 0,
        }
    );
    let (action, state) = asked(resume(state, Event::Image(Ok(image(3, 2, 200)))));
    assert_eq!(action, Action::Screenshot { save_path: None, monitor: 0, quality: 80 });
    let (_, state) = asked(resume(state, ok("s.png")));
    let mut screen = image(10, 8, 0);
    for y in 4..6usize {
        for x in 5..8usize {
            for c in 0..4usize {
                screen.data[(y * 10 + x) * 4 + c] = 200;
            }
        }
    }
    let (action, state) = asked(resume(state, Event::Image(Ok(screen))));
    assert_eq!(action, Action::Remove { path: "s.png".to_string() });
    answered(
        resume(state, Event::Done),
        r#"{"success": true, "found": true, "x": 5, "y": 4, "center_x": 6, "center_y": 5,
            "confidence": 1.0, "template_size": {"width": 3, "height": 2}}"#,
    );
}

#[test]
fn a_template_is_not_found_in_a_file() {
    let (_, state) = asked(begin(
        "vision_find_template",
        r#"{"template": "t.png", "search_in": "big.png", "threshold": 0.95}"#,
    ));
    let (action, state) = asked(resume(state, Event::Image(Ok(image(2, 2, 255)))));
    assert_eq!(action, Action::Load { path: "big.png".to_string() });
    answered(
        resume(state, Event::Image(Ok(image(4, 4, 0)))),
        r#"{"success": true, "found": false, "threshold": 0.95}"#,
    );
}

#[test]
fn confidence_is_told_in_hundredths() {
    let (_, state) = asked(begin(
        "vision_find_template",
        r#"{"template": "t", "search_in": "b", "threshold": 0}"#,
    ));
    let (_, state) = asked(resume(state, Event::Image(Ok(image(1, 1, 255)))));
    // Each colour is 85 apart: two thirds alike.
    answered(
        resume(state, Event::Image(Ok(image(1, 1, 170)))),
        r#"{"success": true, "found": true, "x": 0, "y": 0, "center_x": 0, "center_y": 0,
            "confidence": 0.67, "template_size": {"width": 1, "height": 1}}"#,
    );
}

#[test]
fn a_missing_argument_is_told() {
    let lacks = |name: &str, s: &str, e: &str| {
        answered(begin(name, s), &format!("{{\"error\": \"{e} is required\"}}"));
    };
    lacks("vision_ocr", "{}", "image_path");
    lacks("vision_ocr", r#"{"image_path": 3}"#, "image_path");
    lacks("vision_ocr", "[]", "image_path");
    lacks("vision_analyze", "{}", "image_path");
    lacks("vision_load_image", "null", "image_path");
    lacks("vision_diff", "{}", "image_a");
    lacks("vision_diff", r#"{"image_a": "a"}"#, "image_b");
    lacks("vision_find_template", "{}", "template");
    lacks("vision_zoom", "{}", "x");
    lacks("vision_zoom", r#"{"x": 1}"#, "y");
    lacks("vision_zoom", r#"{"x": 1, "y": 1}"#, "width");
    lacks("vision_zoom", r#"{"x": 1, "y": 1, "width": 1}"#, "height");
    lacks("vision_zoom", r#"{"x": 1, "y": 1, "width": -1, "height": 1}"#, "width");
    // The first is named where more than one is missing.
    lacks("vision_zoom", r#"{"width": 1}"#, "x");
    lacks("vision_zoom", r#"{"x": 1, "y": "1"}"#, "y");
    lacks("vision_diff", r#"{"image_a": null, "image_b": 3}"#, "image_a");
}

#[test]
fn an_error_stands_alone() {
    let only_error = |t: Next, failed: bool| match t {
        Turn::Answer(Json::Object(fields)) => {
            assert_eq!(fields.iter().any(|(k, _)| k == "error"), failed);
            assert_eq!(fields.len() == 1, failed);
        }
        _ => panic!("no answer"),
    };
    only_error(begin("vision_zoom", r#"{"x": 0, "y": 0, "width": 0, "height": 1}"#), true);
    let look = r#"{"image_path": "a.png"}"#;
    let (_, state) = asked(begin("vision_load_image", look));
    only_error(resume(state, Event::Found(false)), true);
    let (_, state) = asked(begin("vision_load_image", look));
    let (_, state) = asked(resume(state, Event::Found(true)));
    only_error(resume(state, Event::File(Ok(b"ABC".to_vec()))), false);
    let (_, state) = asked(begin("vision_ocr", look));
    only_error(resume(state, Event::Text(Err("dark".to_string()))), true);
    let (_, state) = asked(begin("vision_ocr", look));
    only_error(resume(state, Event::Text(Ok("error".to_string()))), false);
}

#[test]
fn a_tool_that_is_not_known_is_told() {
    answered(
        begin("vision_dream", "{}"),
        r#"{"error": "Unknown vision tool: vision_dream"}"#,
    );
    answered(begin("", "{}"), r#"{"error": "Unknown vision tool: "}"#);
}

#[test]
fn every_tool_that_is_described_is_known() {
    for tool in get_all_definitions("Example") {
        let name = tool.text_at("name").unwrap();
        if let Turn::Answer(d) = begin(&name, "{}") {
            assert!(!d.text_at("error").unwrap().starts_with("Unknown"));
        }
    }
}

#[test]
fn the_engines_are_reported() {
    let (action, state) = asked(begin("vision_ocr_backends", "{}"));
    assert_eq!(action, Action::LookAround);
    let none = || ModelPath { value: None, exists: false };
    let around = Surroundings {
        setting: None,
        on_windows: false,
        with_onnx: true,
        models: Models { detector: none(), recognizer: none(), dictionary: none() },
    };
    match resume(state, Event::Around(around)) {
        Turn::Answer(d) => {
            assert_eq!(d.text_at("active"), text("paddleocr_onnx"));
            assert_eq!(d.bool_at("paddle_models_present"), Some(false));
        }
        Turn::Ask(a, _) => panic!("asked {a:?}"),
    }
}

#[test]
fn to_leave_out_a_default_is_to_give_it() {
    let cases = [
        ("vision_screenshot", "{}", r#"{"monitor": 0}"#),
        ("vision_screenshot", "{}", r#"{"quality": 80}"#),
        ("vision_screenshot", "{}", r#"{"return_base64": false}"#),
        (
            "vision_ocr",
            r#"{"image_path": "i"}"#,
            r#"{"image_path": "i", "language": "en-US"}"#,
        ),
        ("vision_screenshot_ocr", "{}", r#"{"monitor": 0}"#),
        ("vision_check_user_input", "{}", r#"{"height": 200, "monitor": 0}"#),
        (
            "vision_diff",
            r#"{"image_a": "a", "image_b": "b"}"#,
            r#"{"image_a": "a", "image_b": "b", "threshold": 30, "monitor": 0}"#,
        ),
        (
            "vision_find_template",
            r#"{"template": "t"}"#,
            r#"{"template": "t", "threshold": 0.8, "monitor": 0, "search_in": "screen"}"#,
        ),
        (
            "vision_analyze",
            r#"{"image_path": "i"}"#,
            r#"{"image_path": "i", "query": "Describe this image in detail"}"#,
        ),
    ];
    for (name, left_out, given) in cases {
        assert_eq!(begin(name, left_out), begin(name, given));
    }
}
