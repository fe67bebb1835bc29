//! What a service is asked, and what it says.
use vision_core::analyze::{
    analyze_reply, analyze_request, analyze_with_claude, key_variable, service_key, Service,
};
use vision_core::json::Json;

fn service() -> Service {
    Service { name: "Example".to_string(), model: "example-1".to_string() }
}

fn text(s: &str) -> Json {
    Json::Text(s.to_string())
}

fn object(fields: Vec<(&str, Json)>) -> Json {
    Json::Object(fields.into_iter().map(|(k, v)| (k.to_string(), v)).collect())
}

#[test]
fn a_key_is_needed() {
    assert_eq!(service_key(&service(), Some("k".to_string())), Ok("k".to_string()));
    assert_eq!(
        service_key(&service(), None),
        Err("ANTHROPIC_API_KEY not set. Set it to use Example Vision.".to_string())
    );
    assert_eq!(key_variable(), "ANTHROPIC_API_KEY");
}

#[test]
fn a_request_goes_to_the_service() {
    let key = Some("k".to_string());
    let request =
        analyze_with_claude(&service(), key, Ok(b"ABC".to_vec()), "x/a.JPEG", "what?").unwrap();
    assert_eq!(request.url, "https://api.anthropic.com/v1/messages");
    let expected = [
        ("x-api-key", "k"),
        ("anthropic-version", "2023-06-01"),
        ("content-type", "application/json"),
    ];
    let expected: Vec<(String, String)> =
        expected.iter().map(|(k, v)| (k.to_string(), v.to_string())).collect();
    assert_eq!(request.headers, expected);
    assert_eq!(request.body, analyze_request(&service(), "image/jpeg", "QUJD", "what?"));
}

#[test]
fn a_request_needs_a_key_and_then_a_file() {
    let missing = Err("ANTHROPIC_API_KEY not set. Set it to use Example Vision.".to_string());
    let unread = Err("gone".to_string());
    assert_eq!(analyze_with_claude(&service(), None, Ok(vec![1]), "a.png", "q"), missing);
    assert_eq!(analyze_with_claude(&service(), None, unread.clone(), "a.png", "q"), missing);
    assert_eq!(
        analyze_with_claude(&service(), Some("k".to_string()), unread, "a.png", "q"),
        Err("Failed to read image: gone".to_string())
    );
}

#[test]
fn a_request_holds_image_and_question() {
    let source = object(vec![
        ("type", text("base64")),
        ("media_type", text("image/png")),
        ("data", text("QUJD")),
    ]);
    let image = object(vec![("type", text("image")), ("source", source)]);
    let question = object(vec![("type", text("text")), ("text", text("what?"))]);
    let message =
        object(vec![("role", text("user")), ("content", Json::Array(vec![image, question]))]);
    let expected = object(vec![
        ("model", text("example-1")),
        ("max_tokens", Json::Unsigned(1024)),
        ("messages", Json::Array(vec![message])),
    ]);
    assert_eq!(analyze_request(&service(), "image/png", "QUJD", "what?"), expected);
}

#[test]
fn the_first_text_is_the_reply() {
    let reply = object(vec![(
        "content",
        Json::Array(vec![
            object(vec![("type", text("text")), ("text", text("a cat"))]),
            object(vec![("text", text("a dog"))]),
        ]),
    )]);
    assert_eq!(analyze_reply(&reply, "printed"), Ok("a cat".to_string()));
}

#[test]
fn a_reply_without_text_is_shown() {
    let shown = Err("Unexpected API response: printed".to_string());
    let wrong = vec![
        Json::Null,
        object(vec![]),
        object(vec![("content", text("x"))]),
        object(vec![("content", Json::Array(vec![]))]),
        object(vec![("content", Json::Array(vec![object(vec![])]))]),
        object(vec![("content", Json::Array(vec![object(vec![("text", Json::Unsigned(1))])]))]),
        object(vec![(
            "content",
            Json::Array(vec![Json::Null, object(vec![("text", text("late"))])]),
        )]),
    ];
    for reply in wrong {
        assert_eq!(analyze_reply(&reply, "printed"), shown);
    }
}
