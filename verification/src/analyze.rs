//! Asking a service what is in an image.
use vstd::prelude::*;
use crate::answers;
use crate::encoding;
use crate::json;
use crate::media;
use crate::messages;
use crate::text;
use crate::json::Doc;
use crate::json::Fields;
use crate::json::Json;

verus! {

/// The service: what it is called, and the model that is asked.
#[derive(Debug, PartialEq, Eq)]
pub struct Service {
    pub name: String,
    pub model: String,
}

/// The variable of the environment that holds the key to the service.
pub fn key_variable() -> (r: String)
    ensures
        r@ == "ANTHROPIC_API_KEY"@,
{
    "ANTHROPIC_API_KEY".to_owned()
}

/// What is said where the key is missing.
pub open spec fn no_key(service: Service) -> Seq<char> {
    "ANTHROPIC_API_KEY not set. Set it to use "@ + service.name@ + " Vision."@
}

/// The key that the service asks for, or that it is not set.
pub fn service_key(service: &Service, value: Option<String>) -> (r: Result<String, String>)
    ensures
        match (value, r) {
            (Some(key), Ok(k)) => k == key,
            (None, Err(e)) => e@ == no_key(*service),
            _ => false,
        },
{
    match value {
        Some(key) => Ok(key),
        None => {
            let mut e = text::joined_texts(
                "ANTHROPIC_API_KEY not set. Set it to use ",
                service.name.as_str(),
            );
            e.append(" Vision.");
            Err(e)
        },
    }
}

/// A question, in words.
pub open spec fn question_fields(query: Seq<char>) -> Seq<(Seq<char>, Doc)> {
    seq![("type"@, Doc::Text("text"@)), ("text"@, Doc::Text(query))]
}

/// What the user says: an image and a question about it.
pub open spec fn content(media_type: Seq<char>, data: Seq<char>, query: Seq<char>) -> Seq<Doc> {
    seq![
        Doc::Object(answers::image_fields(media_type, data)),
        Doc::Object(question_fields(query)),
    ]
}

/// The user's message.
pub open spec fn message_fields(media_type: Seq<char>, data: Seq<char>, query: Seq<char>) -> Seq<
    (Seq<char>, Doc),
> {
    seq![
        ("role"@, Doc::Text("user"@)),
        ("content"@, Doc::Array(content(media_type, data, query))),
    ]
}

/// What the service is asked.
pub open spec fn request_fields(
    model: Seq<char>,
    media_type: Seq<char>,
    data: Seq<char>,
    query: Seq<char>,
) -> Seq<(Seq<char>, Doc)> {
    seq![
        ("model"@, Doc::Text(model)),
        ("max_tokens"@, Doc::Integer(1024)),
        ("messages"@, Doc::Array(seq![Doc::Object(message_fields(media_type, data, query))])),
    ]
}

/// What the service is asked about an image file.
pub fn analyze_request(service: &Service, media_type: &str, data: &str, query: &str) -> (r: Json)
    ensures
        r.doc() == Doc::Object(request_fields(service.model@, media_type@, data@, query@)),
{
    let question = Fields::new().with("type", json::text_value("text")).with(
        "text",
        json::text_value(query),
    );
    assert(question.docs() =~= question_fields(query@));
    let mut parts: Vec<Json> = Vec::new();
    parts.push(answers::image_answer(media_type, data));
    parts.push(question.object());
    assert(json::docs(parts@) =~= content(media_type@, data@, query@));
    let message = Fields::new().with("role", json::text_value("user")).with(
        "content",
        json::array_value(parts),
    );
    assert(message.docs() =~= message_fields(media_type@, data@, query@));
    let mut list: Vec<Json> = Vec::new();
    list.push(message.object());
    assert(json::docs(list@) =~= seq![
        Doc::Object(message_fields(media_type@, data@, query@)),
    ]);
    let fields = Fields::new().with("model", json::text_value(service.model.as_str())).with(
        "max_tokens",
        Json::Unsigned(1024),
    ).with("messages", json::array_value(list));
    assert(fields.docs() =~= request_fields(service.model@, media_type@, data@, query@));
    fields.object()
}

/// A request: where it goes, its headers, and what it says.
#[derive(Debug, PartialEq, Eq)]
pub struct Request {
    pub url: String,
    pub headers: Vec<(String, String)>,
    pub body: Json,
}

/// Headers, as contracts speak of them.
pub open spec fn headers_seen(headers: Seq<(String, String)>) -> Seq<(Seq<char>, Seq<char>)> {
    Seq::new(headers.len(), |i: int| (headers[i].0@, headers[i].1@))
}

/// The headers of a request.
pub open spec fn headers_with(key: Seq<char>) -> Seq<(Seq<char>, Seq<char>)> {
    seq![
        ("x-api-key"@, key),
        ("anthropic-version"@, "2023-06-01"@),
        ("content-type"@, "application/json"@),
    ]
}

/// The request asks about an image of this kind.
pub open spec fn asks(
    request: Request,
    service: Service,
    key: Seq<char>,
    extension: Option<Seq<char>>,
    bytes: Seq<u8>,
    query: Seq<char>,
) -> bool {
    &&& request.url@ == "https://api.anthropic.com/v1/messages"@
    &&& headers_seen(request.headers@) == headers_with(key)
    &&& request.body.doc() == Doc::Object(
        request_fields(
            service.model@,
            media::media_type_for(media::kind(extension)),
            encoding::encoded(bytes),
            query,
        ),
    )
}

/// The request that asks the service about an image file. `value` is what the
/// environment has for the key, `read` what became of reading the file. The key
/// is looked for first.
pub fn analyze_with_claude(
    service: &Service,
    value: Option<String>,
    read: Result<Vec<u8>, String>,
    image_path: &str,
    query: &str,
) -> (r: Result<Request, String>)
    requires
        read matches Ok(bytes) ==> encoding::encoded_length(bytes@.len() as int) <= isize::MAX,
    ensures
        match (value, read, r) {
            (None, _, Err(e)) => e@ == no_key(*service),
            (Some(_), Err(why), Err(e)) => e@ == messages::because("Failed to read image"@, why@),
            (Some(key), Ok(bytes), Ok(request)) => exists|extension: Option<Seq<char>>|
                #[trigger] media::has_extension(image_path@, extension) && asks(
                    request,
                    *service,
                    key@,
                    extension,
                    bytes@,
                    query@,
                ),
            _ => false,
        },
{
    let key = match service_key(service, value) {
        Ok(key) => key,
        Err(e) => return Err(e),
    };
    let data = match media::image_to_base64(read) {
        Ok(data) => data,
        Err(e) => return Err(e),
    };
    let media_type = media::media_type(image_path);
    let mut headers: Vec<(String, String)> = Vec::new();
    headers.push(("x-api-key".to_owned(), key));
    headers.push(("anthropic-version".to_owned(), "2023-06-01".to_owned()));
    headers.push(("content-type".to_owned(), "application/json".to_owned()));
    assert(headers_seen(headers@) =~= headers_with(key@));
    Ok(
        Request {
            url: "https://api.anthropic.com/v1/messages".to_owned(),
            headers: headers,
            body: analyze_request(service, media_type.as_str(), data.as_str(), query),
        },
    )
}

/// The text of a reply: that of the first part of its content.
pub open spec fn reply_text(reply: Doc) -> Option<Seq<char>> {
    match reply.field("content"@) {
        Doc::Array(parts) => if parts.len() > 0 {
            parts[0].field("text"@).as_text()
        } else {
            None
        },
        _ => None,
    }
}

/// What the service says of an image. `printed` is the reply as it came, to be
/// shown where there is no text in it.
pub fn analyze_reply(reply: &Json, printed: &str) -> (r: Result<String, String>)
    ensures
        match r {
            Ok(s) => reply_text(reply.doc()) == Some(s@),
            Err(e) => reply_text(reply.doc()) is None && e@ == messages::because(
                "Unexpected API response"@,
                printed@,
            ),
        },
{
    if let Some(Json::Array(parts)) = reply.field("content") {
        proof {
            let none: Vec<(String, Json)> = arbitrary();
            json::lemma_doc(none, *parts);
        }
        if parts.len() > 0 {
            assert(json::docs(parts@)[0] == parts@[0].doc());
            if let Some(s) = parts[0].text_at("text") {
                return Ok(s);
            }
        }
    }
    Err(messages::failed("Unexpected API response", printed))
}

/// The service is asked about the image and the question that are given: the
/// request names the model, and holds one message of the user, made of the image,
/// with its media type and its data in base 64, and of the question.
pub proof fn a_request_holds_image_and_question(
    model: Seq<char>,
    media_type: Seq<char>,
    data: Seq<char>,
    query: Seq<char>,
)
    ensures
        ({
            let d = Doc::Object(request_fields(model, media_type, data, query));
            let message = d.field("messages"@)->Array_0[0];
            let parts = message.field("content"@)->Array_0;
            let source = parts[0].field("source"@);
            &&& d.field("model"@) == Doc::Text(model)
            &&& d.field("max_tokens"@) == Doc::Integer(1024)
            &&& d.field("messages"@) is Array && d.field("messages"@)->Array_0.len() == 1
            &&& message.field("role"@) == Doc::Text("user"@)
            &&& message.field("content"@) is Array && parts.len() == 2
            &&& parts[0].field("type"@) == Doc::Text("image"@)
            &&& source.field("type"@) == Doc::Text("base64"@)
            &&& source.field("media_type"@) == Doc::Text(media_type)
            &&& source.field("data"@) == Doc::Text(data)
            &&& parts[1].field("type"@) == Doc::Text("text"@)
            &&& parts[1].field("text"@) == Doc::Text(query)
        }),
{
    reveal_strlit("model");
    reveal_strlit("max_tokens");
    reveal_strlit("messages");
    reveal_strlit("role");
    reveal_strlit("content");
    reveal_strlit("type");
    reveal_strlit("source");
    reveal_strlit("media_type");
    reveal_strlit("data");
    reveal_strlit("text");
    assert("model"@.len() == 5 && "max_tokens"@.len() == 10 && "messages"@.len() == 8);
    assert("role"@.len() == 4 && "content"@.len() == 7);
    assert("type"@.len() == 4 && "source"@.len() == 6 && "media_type"@.len() == 10);
    assert("data"@.len() == 4 && "text"@.len() == 4);
    assert("type"@[1] == 'y' && "data"@[1] == 'a' && "text"@[1] == 'e');
    let fields = request_fields(model, media_type, data, query);
    json::lemma_found(fields, "model"@, 0);
    json::lemma_found(fields, "max_tokens"@, 1);
    json::lemma_found(fields, "messages"@, 2);
    let message = message_fields(media_type, data, query);
    json::lemma_found(message, "role"@, 0);
    json::lemma_found(message, "content"@, 1);
    let image = answers::image_fields(media_type, data);
    json::lemma_found(image, "type"@, 0);
    json::lemma_found(image, "source"@, 1);
    let source = answers::source_fields(media_type, data);
    json::lemma_found(source, "type"@, 0);
    json::lemma_found(source, "media_type"@, 1);
    json::lemma_found(source, "data"@, 2);
    let question = question_fields(query);
    json::lemma_found(question, "type"@, 0);
    json::lemma_found(question, "text"@, 1);
}

/// What the service said is the text of the first part of its reply, whatever
/// comes after it. A reply without parts, or whose first part has no text, says
/// nothing.
pub proof fn the_reply_is_the_text_of_its_first_part(reply: Doc, parts: Seq<Doc>)
    requires
        reply.field("content"@) == Doc::Array(parts),
    ensures
        parts.len() > 0 && parts[0].field("text"@) is Text ==> reply_text(reply) == Some(
            parts[0].field("text"@)->Text_0,
        ),
        parts.len() > 0 && !(parts[0].field("text"@) is Text) ==> reply_text(reply) is None,
        parts.len() == 0 ==> reply_text(reply) is None,
{
}

} // verus!
