//! What is described of the tools holds of how they are carried out.
use vstd::prelude::*;
use crate::answers;
use crate::definitions;
use crate::execute;
use crate::json;
use crate::messages;
use crate::json::Doc;

verus! {

/// The tools that are described, in order. `service` is what the service is
/// called that analyzes images.
pub open spec fn described_tools(service: Seq<char>) -> Seq<Doc> {
    definitions::local_tools() + definitions::api_tools(service)
}

/// Their names.
pub open spec fn tool_names() -> Seq<Seq<char>> {
    seq![
        "vision_screenshot"@,
        "vision_ocr"@,
        "vision_screenshot_ocr"@,
        "vision_check_user_input"@,
        "vision_load_image"@,
        "vision_diff"@,
        "vision_zoom"@,
        "vision_find_template"@,
        "vision_analyze"@,
    ]
}

/// The arguments that a tool must not go without, in the order in which they
/// are looked for.
pub open spec fn required_arguments(name: Seq<char>) -> Seq<Seq<char>> {
    if name == "vision_ocr"@ || name == "vision_load_image"@ || name == "vision_analyze"@ {
        seq!["image_path"@]
    } else if name == "vision_diff"@ {
        seq!["image_a"@, "image_b"@]
    } else if name == "vision_zoom"@ {
        seq!["x"@, "y"@, "width"@, "height"@]
    } else if name == "vision_find_template"@ {
        seq!["template"@]
    } else {
        Seq::empty()
    }
}

/// The letters of the names.
proof fn lemma_names()
    ensures
        forall|i: int|
            0 <= i < 9 ==> (#[trigger] tool_names()[i]).len() >= 7 && tool_names()[i].subrange(0, 7)
                == "vision_"@,
        forall|i: int, j: int|
            0 <= i < j < 9 ==> #[trigger] tool_names()[i] != #[trigger] tool_names()[j],
{
    reveal_strlit("vision_");
    reveal_strlit("vision_screenshot");
    reveal_strlit("vision_ocr");
    reveal_strlit("vision_screenshot_ocr");
    reveal_strlit("vision_check_user_input");
    reveal_strlit("vision_load_image");
    reveal_strlit("vision_diff");
    reveal_strlit("vision_zoom");
    reveal_strlit("vision_find_template");
    reveal_strlit("vision_analyze");
    let n = tool_names();
    // The lengths tell most apart, a letter the rest.
    assert(n[0].len() == 17 && n[1].len() == 10 && n[2].len() == 21 && n[3].len() == 23
        && n[4].len() == 17 && n[5].len() == 11 && n[6].len() == 11 && n[7].len() == 20
        && n[8].len() == 14);
    assert(n[0][7] == 's' && n[4][7] == 'l');
    assert(n[5][7] == 'd' && n[6][7] == 'z');
    assert forall|i: int| 0 <= i < 9 implies (#[trigger] n[i]).len() >= 7 && n[i].subrange(0, 7)
        == "vision_"@ by {
        assert(n[i].subrange(0, 7) =~= "vision_"@);
    }
    assert forall|i: int, j: int| 0 <= i < j < 9 implies #[trigger] n[i] != #[trigger] n[j] by {
        assert(n[i].len() != n[j].len() || n[i][7] != n[j][7]);
    }
}

/// Every tool is described under a name of its own that starts with `vision_`.
pub proof fn every_tool_has_a_name_of_its_own(service: Seq<char>)
    ensures
        described_tools(service).len() == tool_names().len(),
        forall|i: int|
            0 <= i < tool_names().len() ==> (#[trigger] described_tools(service)[i]).field("name"@)
                == Doc::Text(tool_names()[i]),
        forall|i: int|
            0 <= i < tool_names().len() ==> (#[trigger] tool_names()[i]).len() >= 7
                && tool_names()[i].subrange(0, 7) == "vision_"@,
        forall|i: int, j: int|
            0 <= i < j < tool_names().len() ==> #[trigger] tool_names()[i]
                != #[trigger] tool_names()[j],
{
    lemma_names();
    assert forall|i: int| 0 <= i < 9 implies (#[trigger] described_tools(service)[i]).field("name"@)
        == Doc::Text(tool_names()[i]) by {
        let d = described_tools(service)[i];
        assert(d->Object_0[0] == ("name"@, Doc::Text(tool_names()[i])));
    }
}

/// A tool that is described is never answered as unknown, whatever it is
/// given; a name that is neither described nor that of the report is.
pub proof fn a_described_tool_is_carried_out(name: Seq<char>, args: Doc, service: Seq<char>)
    ensures
        tool_names().contains(name) ==> execute::opened(name, args, service) != execute::refused(
            messages::because("Unknown vision tool"@, name),
        ),
        !tool_names().contains(name) && name != "vision_ocr_backends"@ ==> execute::opened(
            name,
            args,
            service,
        ) == execute::refused(messages::because("Unknown vision tool"@, name)),
{
    let n = tool_names();
    let unknown = messages::because("Unknown vision tool"@, name);
    lemma_names();
    if n.contains(name) {
        reveal_strlit("Unknown vision tool");
        assert(unknown[0] == 'U');
        assert forall|e: Seq<char>| e.len() > 0 && e[0] != 'U' implies #[trigger] execute::refused(e)
            != execute::refused(unknown) by {
            let a = answers::error_fields(e);
            let b = answers::error_fields(unknown);
            assert(a[0].1 != b[0].1);
        }
        lemma_refusals(args);
    } else {
        assert(n[0] != name && n[1] != name && n[2] != name && n[3] != name && n[4] != name && n[5]
            != name && n[6] != name && n[7] != name && n[8] != name);
    }
}

/// How the texts begin with which a tool refuses what it is given.
proof fn lemma_refusals(args: Doc)
    ensures
        forall|a: Seq<char>|
            a.len() > 0 && a[0] != 'U' ==> (#[trigger] execute::wanting(a)) == execute::refused(
                a + " is required"@,
            ) && (a + " is required"@)[0] != 'U',
        "image_path"@.len() > 0 && "image_path"@[0] != 'U',
        "image_a"@.len() > 0 && "image_a"@[0] != 'U',
        "image_b"@.len() > 0 && "image_b"@[0] != 'U',
        "template"@.len() > 0 && "template"@[0] != 'U',
        "x"@.len() > 0 && "x"@[0] != 'U',
        "y"@.len() > 0 && "y"@[0] != 'U',
        "width"@.len() > 0 && "width"@[0] != 'U',
        "height"@.len() > 0 && "height"@[0] != 'U',
        "width and height must be > 0"@.len() > 0 && "width and height must be > 0"@[0] != 'U',
        "scale must be between 0 and 10"@.len() > 0 && "scale must be between 0 and 10"@[0] != 'U',
{
    reveal_strlit("image_path");
    reveal_strlit("image_a");
    reveal_strlit("image_b");
    reveal_strlit("template");
    reveal_strlit("x");
    reveal_strlit("y");
    reveal_strlit("width");
    reveal_strlit("height");
    reveal_strlit("width and height must be > 0");
    reveal_strlit("scale must be between 0 and 10");
}

/// The tool is given this argument, and what it is given has the type that the
/// tool asks for.
pub open spec fn given(name: Seq<char>, args: Doc, key: Seq<char>) -> bool {
    if name != "vision_zoom"@ {
        args.field(key).as_text() is Some
    } else if key == "x"@ || key == "y"@ {
        args.field(key).as_i64() is Some
    } else {
        args.field(key).as_u64() is Some
    }
}

/// A tool that goes without an argument that it must have says which: the first
/// of those that are missing or of another type. What is null is missing.
pub proof fn a_missing_argument_is_named(
    name: Seq<char>,
    args: Doc,
    service: Seq<char>,
    i: int,
)
    requires
        tool_names().contains(name),
        0 <= i < required_arguments(name).len(),
        !given(name, args, required_arguments(name)[i]),
        forall|j: int| 0 <= j < i ==> given(name, args, #[trigger] required_arguments(name)[j]),
    ensures
        execute::opened(name, args, service) == execute::wanting(required_arguments(name)[i]),
        forall|key: Seq<char>|
            args.field(key) == Doc::Null ==> !(#[trigger] given(name, args, key)),
{
    let n = tool_names();
    let r = required_arguments(name);
    lemma_names();
    lemma_different_keys();
    let k = choose|k: int| 0 <= k < n.len() && n[k] == name;
    assert(n[k] == name);
    if name == n[5] {
        assert(r[0] == "image_a"@ && r[1] == "image_b"@);
    } else if name == n[6] {
        assert(r[0] == "x"@ && r[1] == "y"@ && r[2] == "width"@ && r[3] == "height"@);
    } else {
        assert(r[0] == r[i]);
    }
}

/// What a tool takes for an argument that it is not given; null where it has
/// no such argument, or none to take.
pub open spec fn default_for(name: Seq<char>, key: Seq<char>) -> Doc {
    if name == "vision_screenshot"@ {
        if key == "return_base64"@ {
            Doc::Bool(false)
        } else if key == "monitor"@ {
            Doc::Integer(0)
        } else if key == "quality"@ {
            Doc::Integer(80)
        } else {
            Doc::Null
        }
    } else if name == "vision_ocr"@ && key == "language"@ {
        Doc::Text("en-US"@)
    } else if name == "vision_screenshot_ocr"@ && key == "monitor"@ {
        Doc::Integer(0)
    } else if name == "vision_check_user_input"@ {
        if key == "height"@ {
            Doc::Integer(200)
        } else if key == "monitor"@ {
            Doc::Integer(0)
        } else {
            Doc::Null
        }
    } else if name == "vision_diff"@ {
        if key == "threshold"@ {
            Doc::Integer(30)
        } else if key == "monitor"@ {
            Doc::Integer(0)
        } else {
            Doc::Null
        }
    } else if name == "vision_zoom"@ && key == "scale"@ {
        Doc::Float(definitions::default_scale())
    } else if name == "vision_find_template"@ {
        if key == "threshold"@ {
            Doc::Float(definitions::default_confidence())
        } else if key == "monitor"@ {
            Doc::Integer(0)
        } else {
            Doc::Null
        }
    } else if name == "vision_analyze"@ && key == "query"@ {
        Doc::Text("Describe this image in detail"@)
    } else {
        Doc::Null
    }
}

/// The arguments of one tool have names of their own.
spec fn keys_differ() -> bool {
    &&& "height"@ != "monitor"@
    &&& "height"@ != "scale"@
    &&& "height"@ != "width"@
    &&& "height"@ != "x"@
    &&& "height"@ != "y"@
    &&& "image_a"@ != "image_b"@
    &&& "image_a"@ != "monitor"@
    &&& "image_a"@ != "threshold"@
    &&& "image_b"@ != "monitor"@
    &&& "image_b"@ != "threshold"@
    &&& "image_path"@ != "language"@
    &&& "image_path"@ != "query"@
    &&& "monitor"@ != "quality"@
    &&& "monitor"@ != "region"@
    &&& "monitor"@ != "return_base64"@
    &&& "monitor"@ != "save_path"@
    &&& "monitor"@ != "save_screenshot"@
    &&& "monitor"@ != "search_in"@
    &&& "monitor"@ != "template"@
    &&& "monitor"@ != "threshold"@
    &&& "quality"@ != "region"@
    &&& "quality"@ != "return_base64"@
    &&& "quality"@ != "save_path"@
    &&& "region"@ != "return_base64"@
    &&& "region"@ != "save_path"@
    &&& "region"@ != "save_screenshot"@
    &&& "return_base64"@ != "save_path"@
    &&& "scale"@ != "width"@
    &&& "scale"@ != "x"@
    &&& "scale"@ != "y"@
    &&& "search_in"@ != "template"@
    &&& "search_in"@ != "threshold"@
    &&& "template"@ != "threshold"@
    &&& "width"@ != "x"@
    &&& "width"@ != "y"@
    &&& "x"@ != "y"@
}

proof fn lemma_different_keys()
    ensures
        keys_differ(),
{
    reveal_strlit("save_path");
    reveal_strlit("return_base64");
    reveal_strlit("monitor");
    reveal_strlit("region");
    reveal_strlit("quality");
    reveal_strlit("image_path");
    reveal_strlit("language");
    reveal_strlit("save_screenshot");
    reveal_strlit("height");
    reveal_strlit("image_a");
    reveal_strlit("image_b");
    reveal_strlit("threshold");
    reveal_strlit("x");
    reveal_strlit("y");
    reveal_strlit("width");
    reveal_strlit("scale");
    reveal_strlit("template");
    reveal_strlit("search_in");
    reveal_strlit("query");
    assert("save_path"@.len() == 9 && "save_path"@[0] == 's');
    assert("return_base64"@.len() == 13 && "return_base64"@[0] == 'r');
    assert("monitor"@.len() == 7 && "monitor"@[0] == 'm');
    assert("region"@.len() == 6 && "region"@[0] == 'r');
    assert("quality"@.len() == 7 && "quality"@[0] == 'q');
    assert("image_path"@.len() == 10 && "image_path"@[0] == 'i');
    assert("language"@.len() == 8 && "language"@[0] == 'l');
    assert("save_screenshot"@.len() == 15 && "save_screenshot"@[0] == 's');
    assert("height"@.len() == 6 && "height"@[0] == 'h');
    assert("image_a"@.len() == 7 && "image_a"@[0] == 'i');
    assert("image_b"@.len() == 7 && "image_b"@[0] == 'i');
    assert("threshold"@.len() == 9 && "threshold"@[0] == 't');
    assert("x"@.len() == 1 && "x"@[0] == 'x');
    assert("y"@.len() == 1 && "y"@[0] == 'y');
    assert("width"@.len() == 5 && "width"@[0] == 'w');
    assert("scale"@.len() == 5 && "scale"@[0] == 's');
    assert("template"@.len() == 8 && "template"@[0] == 't');
    assert("search_in"@.len() == 9 && "search_in"@[0] == 's');
    assert("query"@.len() == 5 && "query"@[0] == 'q');
    assert("image_a"@[6] != "image_b"@[6]);
}

/// To leave out an argument that has a default is to give its default.
pub proof fn a_default_is_taken_where_nothing_is_said(
    name: Seq<char>,
    args: Doc,
    given: Doc,
    service: Seq<char>,
    key: Seq<char>,
)
    requires
        tool_names().contains(name),
        default_for(name, key) != Doc::Null,
        args.field(key) == Doc::Null,
        given.field(key) == default_for(name, key),
        forall|k: Seq<char>| k != key ==> args.field(k) == #[trigger] given.field(k),
    ensures
        execute::opened(name, args, service) == execute::opened(name, given, service),
{
    let n = tool_names();
    lemma_names();
    lemma_different_keys();
    let k = choose|k: int| 0 <= k < n.len() && n[k] == name;
    assert(n[k] == name);
    assert(execute::region_in(args) == execute::region_in(given)) by {
        assert("region"@ != key ==> args.field("region"@) == given.field("region"@));
    }
    assert(args.field("monitor"@) == given.field("monitor"@) || key == "monitor"@);
    assert(execute::monitor_in(args) == execute::monitor_in(given));
}

/// The words of which descriptions are made differ.
proof fn lemma_words()
    ensures
        "name"@ != "inputSchema"@ && "description"@ != "inputSchema"@,
        "type"@ != "properties"@ && "type"@ != "required"@ && "properties"@ != "required"@,
        "type"@ != "default"@ && "description"@ != "default"@ && "properties"@ != "default"@,
{
    reveal_strlit("name");
    reveal_strlit("description");
    reveal_strlit("inputSchema");
    reveal_strlit("type");
    reveal_strlit("properties");
    reveal_strlit("required");
    reveal_strlit("default");
    assert("name"@.len() == 4 && "description"@.len() == 11 && "inputSchema"@.len() == 11
        && "type"@.len() == 4 && "properties"@.len() == 10 && "required"@.len() == 8
        && "default"@.len() == 7);
    assert("description"@[0] == 'd' && "inputSchema"@[0] == 'i');
}

/// Where the arguments of a tool stand in its description.
proof fn lemma_tool(properties: Seq<(Seq<char>, Doc)>, required: Seq<Seq<char>>)
    ensures
        forall|name: Seq<char>, description: Seq<char>|
            ({
                let schema = (#[trigger] definitions::tool(name, description, properties, required))
                    .field("inputSchema"@);
                &&& schema.field("properties"@) == Doc::Object(properties)
                &&& schema.field("required"@) == (if required.len() == 0 {
                    Doc::Null
                } else {
                    definitions::names(required)
                })
            }),
{
    lemma_words();
    let s = definitions::schema(properties, required);
    json::lemma_found(s, "properties"@, 1);
    json::lemma_found(s, "required"@, 2);
    assert forall|name: Seq<char>, description: Seq<char>|
        (#[trigger] definitions::tool(name, description, properties, required)).field(
            "inputSchema"@,
        ) == Doc::Object(s) by {
        let whole = definitions::tool(name, description, properties, required)->Object_0;
        json::lemma_found(whole, "inputSchema"@, 2);
    }
}

/// What the description of an argument tells of its default.
spec fn defaults_told() -> bool {
    &&& forall|kind: Seq<char>, description: Seq<char>|
        (#[trigger] definitions::property(kind, description)).field("default"@) == Doc::Null
    &&& forall|kind: Seq<char>, description: Seq<char>, d: Doc|
        (#[trigger] definitions::defaulting(kind, description, d)).field("default"@) == d
    &&& forall|kind: Seq<char>, description: Seq<char>, n: int, a: int, b: int|
        (#[trigger] definitions::bounded(kind, description, n, a, b)).field("default"@)
            == Doc::Integer(n)
    &&& definitions::region_property().field("default"@) == Doc::Null
}

proof fn lemma_property()
    ensures
        defaults_told(),
{
    lemma_words();
    json::lemma_found(definitions::region_property()->Object_0, "default"@, 3);
    assert forall|kind: Seq<char>, description: Seq<char>|
        (#[trigger] definitions::property(kind, description)).field("default"@) == Doc::Null by {
        json::lemma_found(definitions::property(kind, description)->Object_0, "default"@, 2);
    }
    assert forall|kind: Seq<char>, description: Seq<char>, d: Doc|
        (#[trigger] definitions::defaulting(kind, description, d)).field("default"@) == d by {
        json::lemma_found(definitions::defaulting(kind, description, d)->Object_0, "default"@, 2);
    }
    assert forall|kind: Seq<char>, description: Seq<char>, n: int, a: int, b: int|
        (#[trigger] definitions::bounded(kind, description, n, a, b)).field("default"@)
            == Doc::Integer(n) by {
        json::lemma_found(
            definitions::bounded(kind, description, n, a, b)->Object_0,
            "default"@,
            2,
        );
    }
}

/// The default that the description of a tool tells for an argument.
pub open spec fn told_default(tool: Doc, key: Seq<char>) -> Doc {
    tool.field("inputSchema"@).field("properties"@).field(key).field("default"@)
}

/// The arguments that the description of a tool calls required.
pub open spec fn told_required(tool: Doc) -> Doc {
    tool.field("inputSchema"@).field("required"@)
}

/// The arguments that a tool must not go without, as a list; null where there
/// are none.
pub open spec fn required_by(name: Seq<char>) -> Doc {
    if required_arguments(name).len() == 0 {
        Doc::Null
    } else {
        definitions::names(required_arguments(name))
    }
}

/// Which field of a list has this name.
proof fn lemma_pick(fields: Seq<(Seq<char>, Doc)>, key: Seq<char>)
    ensures
        fields.len() <= 5 ==> json::found(fields, key) == (if fields.len() > 0 && fields[0].0
            == key {
            fields[0].1
        } else if fields.len() > 1 && fields[1].0 == key {
            fields[1].1
        } else if fields.len() > 2 && fields[2].0 == key {
            fields[2].1
        } else if fields.len() > 3 && fields[3].0 == key {
            fields[3].1
        } else if fields.len() > 4 && fields[4].0 == key {
            fields[4].1
        } else {
            Doc::Null
        }),
{
    let n = fields.len() as int;
    let at = if n > 0 && fields[0].0 == key {
        0
    } else if n > 1 && fields[1].0 == key {
        1
    } else if n > 2 && fields[2].0 == key {
        2
    } else if n > 3 && fields[3].0 == key {
        3
    } else if n > 4 && fields[4].0 == key {
        4
    } else {
        n
    };
    if n <= 5 {
        json::lemma_found(fields, key, at);
    }
}

/// A tool's name is no other's; its arguments have names of their own, and their
/// descriptions tell their defaults.
proof fn lemma_place(i: int)
    requires
        0 <= i < tool_names().len(),
    ensures
        tool_names()[i] == "vision_screenshot"@ <==> i == 0,
        tool_names()[i] == "vision_ocr"@ <==> i == 1,
        tool_names()[i] == "vision_screenshot_ocr"@ <==> i == 2,
        tool_names()[i] == "vision_check_user_input"@ <==> i == 3,
        tool_names()[i] == "vision_load_image"@ <==> i == 4,
        tool_names()[i] == "vision_diff"@ <==> i == 5,
        tool_names()[i] == "vision_zoom"@ <==> i == 6,
        tool_names()[i] == "vision_find_template"@ <==> i == 7,
        tool_names()[i] == "vision_analyze"@ <==> i == 8,
        keys_differ(),
        defaults_told(),
{
    let n = tool_names();
    lemma_names();
    lemma_different_keys();
    lemma_property();
    assert(n[0] == "vision_screenshot"@);
    assert(n[1] == "vision_ocr"@);
    assert(n[2] == "vision_screenshot_ocr"@);
    assert(n[3] == "vision_check_user_input"@);
    assert(n[4] == "vision_load_image"@);
    assert(n[5] == "vision_diff"@);
    assert(n[6] == "vision_zoom"@);
    assert(n[7] == "vision_find_template"@);
    assert(n[8] == "vision_analyze"@);
}

/// The description of a tool tells the truth: its defaults are those that are
/// taken, and the arguments it calls required are those that are asked for.
pub proof fn the_descriptions_tell_the_truth(service: Seq<char>, i: int, key: Seq<char>)
    requires
        0 <= i < tool_names().len(),
    ensures
        told_default(described_tools(service)[i], key) == default_for(tool_names()[i], key),
        told_required(described_tools(service)[i]) == required_by(tool_names()[i]),
{
    lemma_place(i);
    if i == 0 {
        lemma_pick(definitions::screenshot_arguments(), key);
        lemma_tool(definitions::screenshot_arguments(), Seq::empty());
    } else if i == 1 {
        lemma_pick(definitions::ocr_arguments(), key);
        lemma_tool(definitions::ocr_arguments(), seq!["image_path"@]);
    } else if i == 2 {
        lemma_pick(definitions::screenshot_ocr_arguments(), key);
        lemma_tool(definitions::screenshot_ocr_arguments(), Seq::empty());
    } else if i == 3 {
        lemma_pick(definitions::check_user_input_arguments(), key);
        lemma_tool(definitions::check_user_input_arguments(), Seq::empty());
    } else if i == 4 {
        lemma_pick(definitions::load_image_arguments(), key);
        lemma_tool(definitions::load_image_arguments(), seq!["image_path"@]);
    } else if i == 5 {
        lemma_pick(definitions::diff_arguments(), key);
        lemma_tool(definitions::diff_arguments(), seq!["image_a"@, "image_b"@]);
    } else if i == 6 {
        lemma_pick(definitions::zoom_arguments(), key);
        lemma_tool(definitions::zoom_arguments(), seq!["x"@, "y"@, "width"@, "height"@]);
    } else if i == 7 {
        lemma_pick(definitions::find_template_arguments(), key);
        lemma_tool(definitions::find_template_arguments(), seq!["template"@]);
    } else {
        lemma_pick(definitions::analyze_arguments(), key);
        lemma_tool(definitions::analyze_arguments(), seq!["image_path"@]);
    }
}

} // verus!
