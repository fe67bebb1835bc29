//! The tools that the library offers, described for whoever may call them.
use vstd::prelude::*;
use crate::bits;
use crate::float;
use crate::json;
use crate::text;
use crate::float::Float;
use crate::json::Doc;
use crate::json::Fields;
use crate::json::Json;

verus! {

/// How far a region is magnified where nothing is said.
pub open spec fn default_scale() -> float::Value {
    float::natural(float::double_format(), 2)
}

/// How sure a template match has to be where nothing is said.
pub open spec fn default_confidence() -> float::Value {
    float::ratio(float::double_format(), 8, 10)
}

/// How far a region is magnified where nothing is said.
pub fn default_scale_bits() -> (r: u64)
    ensures
        bits::double_value(r) == default_scale(),
{
    let x = Float::from_natural(float::double(), 2);
    proof {
        bits::double_encoding_reads_back(x);
    }
    bits::double_to_bits(x)
}

/// How sure a template match has to be where nothing is said.
pub fn default_confidence_bits() -> (r: u64)
    ensures
        bits::double_value(r) == default_confidence(),
{
    let x = Float::from_ratio(float::double(), 8, 10);
    proof {
        bits::double_encoding_reads_back(x);
    }
    bits::double_to_bits(x)
}

/// The type of an argument and what it is for.
pub open spec fn described(kind: Seq<char>, description: Seq<char>) -> Seq<(Seq<char>, Doc)> {
    seq![("type"@, Doc::Text(kind)), ("description"@, Doc::Text(description))]
}

/// An argument.
pub open spec fn property(kind: Seq<char>, description: Seq<char>) -> Doc {
    Doc::Object(described(kind, description))
}

/// An argument that may be left out.
pub open spec fn defaulting(kind: Seq<char>, description: Seq<char>, default: Doc) -> Doc {
    Doc::Object(described(kind, description).push(("default"@, default)))
}

/// A number that may be left out, and its bounds.
pub open spec fn bounded(
    kind: Seq<char>,
    description: Seq<char>,
    default: int,
    least: int,
    most: int,
) -> Doc {
    Doc::Object(
        described(kind, description).push(("default"@, Doc::Integer(default))).push(
            ("minimum"@, Doc::Integer(least)),
        ).push(("maximum"@, Doc::Integer(most))),
    )
}

/// An argument of which only the type is told.
pub open spec fn bare(kind: Seq<char>) -> Doc {
    Doc::Object(seq![("type"@, Doc::Text(kind))])
}

/// The corner and the sides of a region.
pub open spec fn region_arguments() -> Seq<(Seq<char>, Doc)> {
    seq![
        ("x"@, bare("integer"@)),
        ("y"@, bare("integer"@)),
        ("width"@, bare("integer"@)),
        ("height"@, bare("integer"@)),
    ]
}

/// The part of the screen that is captured.
pub open spec fn region_property() -> Doc {
    Doc::Object(
        described("object"@, "Capture specific region: {x, y, width, height}"@).push(
            ("properties"@, Doc::Object(region_arguments())),
        ),
    )
}

/// A list of texts.
pub open spec fn names(list: Seq<Seq<char>>) -> Doc {
    Doc::Array(Seq::new(list.len(), |i: int| Doc::Text(list[i])))
}

/// The arguments of a tool, with those that must not be left out.
pub open spec fn schema(properties: Seq<(Seq<char>, Doc)>, required: Seq<Seq<char>>) -> Seq<
    (Seq<char>, Doc),
> {
    let kind = seq![("type"@, Doc::Text("object"@)), ("properties"@, Doc::Object(properties))];
    if required.len() == 0 {
        kind
    } else {
        kind.push(("required"@, names(required)))
    }
}

/// A tool: its name, what it does, and its arguments with those that must not
/// be left out.
pub open spec fn tool(
    name: Seq<char>,
    description: Seq<char>,
    properties: Seq<(Seq<char>, Doc)>,
    required: Seq<Seq<char>>,
) -> Doc {
    Doc::Object(
        seq![
            ("name"@, Doc::Text(name)),
            ("description"@, Doc::Text(description)),
            ("inputSchema"@, Doc::Object(schema(properties, required))),
        ],
    )
}

pub open spec fn screenshot_arguments() -> Seq<(Seq<char>, Doc)> {
    seq![
        (
            "save_path"@,
            property("string"@, "Path to save screenshot (optional, uses temp if not provided)"@),
        ),
        (
            "return_base64"@,
            defaulting(
                "boolean"@,
                "Return base64 encoded image data (default: false)"@,
                Doc::Bool(false),
            ),
        ),
        ("monitor"@, defaulting("integer"@, "Monitor index (0 = primary)"@, Doc::Integer(0))),
        ("region"@, region_property()),
        ("quality"@, bounded("integer"@, "JPEG quality 1-100 (default: 80)"@, 80, 1, 100)),
    ]
}

pub open spec fn screenshot_tool() -> Doc {
    tool(
        "vision_screenshot"@,
        "[Vision] Take a screenshot of the screen or a specific region. Returns the image path and optionally base64 data."@,
        screenshot_arguments(),
        Seq::empty(),
    )
}

pub open spec fn ocr_arguments() -> Seq<(Seq<char>, Doc)> {
    seq![
        ("image_path"@, property("string"@, "Path to image file"@)),
        ("language"@, defaulting("string"@, "OCR language (default: en-US)"@, Doc::Text("en-US"@))),
    ]
}

pub open spec fn ocr_tool() -> Doc {
    tool(
        "vision_ocr"@,
        "[Vision] Extract text from an image using Windows OCR. Local processing, no tokens used."@,
        ocr_arguments(),
        seq!["image_path"@],
    )
}

pub open spec fn screenshot_ocr_arguments() -> Seq<(Seq<char>, Doc)> {
    seq![
        ("monitor"@, defaulting("integer"@, "Monitor index (0 = primary)"@, Doc::Integer(0))),
        ("save_screenshot"@, property("string"@, "Optional path to save the screenshot"@)),
        ("region"@, region_property()),
    ]
}

pub open spec fn screenshot_ocr_tool() -> Doc {
    tool(
        "vision_screenshot_ocr"@,
        "[Vision] Take screenshot and immediately OCR it. Returns extracted text. Local processing."@,
        screenshot_ocr_arguments(),
        Seq::empty(),
    )
}

pub open spec fn check_user_input_arguments() -> Seq<(Seq<char>, Doc)> {
    seq![
        (
            "height"@,
            defaulting(
                "integer"@,
                "Height from bottom to capture (default: 200px)"@,
                Doc::Integer(200),
            ),
        ),
        ("monitor"@, defaulting("integer"@, "Monitor index (default: 0)"@, Doc::Integer(0))),
    ]
}

pub open spec fn check_user_input_tool() -> Doc {
    tool(
        "vision_check_user_input"@,
        "[Vision] Screenshot and OCR bottom of screen to detect if user typed during tool execution."@,
        check_user_input_arguments(),
        Seq::empty(),
    )
}

pub open spec fn load_image_arguments() -> Seq<(Seq<char>, Doc)> {
    seq![
        ("image_path"@, property("string"@, "Path to image file"@)),
    ]
}

pub open spec fn load_image_tool() -> Doc {
    tool(
        "vision_load_image"@,
        "[Vision] Load image as base64 for direct vision analysis in chat."@,
        load_image_arguments(),
        seq!["image_path"@],
    )
}

pub open spec fn diff_arguments() -> Seq<(Seq<char>, Doc)> {
    seq![
        ("image_a"@, property("string"@, "Path to first image (reference/before)"@)),
        ("image_b"@, property("string"@, "Path to second image, or 'screen' for current screen"@)),
        (
            "threshold"@,
            defaulting(
                "number"@,
                "Pixel difference threshold 0-255 (default: 30)"@,
                Doc::Integer(30),
            ),
        ),
        (
            "monitor"@,
            defaulting(
                "integer"@,
                "Monitor index if image_b is 'screen' (default: 0)"@,
                Doc::Integer(0),
            ),
        ),
    ]
}

pub open spec fn diff_tool() -> Doc {
    tool(
        "vision_diff"@,
        "[Vision] Compare two images and return difference percentage. Use 'screen' as image_b to compare against current screen."@,
        diff_arguments(),
        seq!["image_a"@, "image_b"@],
    )
}

pub open spec fn zoom_arguments() -> Seq<(Seq<char>, Doc)> {
    seq![
        ("x"@, property("integer"@, "Left edge of region"@)),
        ("y"@, property("integer"@, "Top edge of region"@)),
        ("width"@, property("integer"@, "Width of region"@)),
        ("height"@, property("integer"@, "Height of region"@)),
        (
            "scale"@,
            defaulting(
                "number"@,
                "Magnification factor (default 2.0)"@,
                Doc::Float(default_scale()),
            ),
        ),
    ]
}

pub open spec fn zoom_tool() -> Doc {
    tool(
        "vision_zoom"@,
        "Crop and magnify a screen region for closer inspection. Takes a screenshot, crops to the specified rectangle, and scales up."@,
        zoom_arguments(),
        seq!["x"@, "y"@, "width"@, "height"@],
    )
}

pub open spec fn find_template_arguments() -> Seq<(Seq<char>, Doc)> {
    seq![
        ("template"@, property("string"@, "Path to template image to find"@)),
        ("search_in"@, property("string"@, "Path to image or 'screen' (default: screen)"@)),
        (
            "threshold"@,
            defaulting(
                "number"@,
                "Match confidence 0.0-1.0 (default: 0.8)"@,
                Doc::Float(default_confidence()),
            ),
        ),
        (
            "monitor"@,
            defaulting(
                "integer"@,
                "Monitor index if search_in is 'screen' (default: 0)"@,
                Doc::Integer(0),
            ),
        ),
    ]
}

pub open spec fn find_template_tool() -> Doc {
    tool(
        "vision_find_template"@,
        "[Vision] Find a template image within the screen or another image. Returns best match location and confidence."@,
        find_template_arguments(),
        seq!["template"@],
    )
}

pub open spec fn analyze_arguments() -> Seq<(Seq<char>, Doc)> {
    seq![
        ("image_path"@, property("string"@, "Path to image file"@)),
        (
            "query"@,
            defaulting(
                "string"@,
                "What to analyze/look for"@,
                Doc::Text("Describe this image in detail"@),
            ),
        ),
    ]
}

/// What the tool that asks a service does; the service goes by its name.
pub open spec fn analyze_description(service: Seq<char>) -> Seq<char> {
    "[Vision] Analyze image with "@ + service
        + " Vision API. Uses tokens but provides intelligent analysis."@
}

pub open spec fn analyze_tool(service: Seq<char>) -> Doc {
    tool(
        "vision_analyze"@,
        analyze_description(service),
        analyze_arguments(),
        seq!["image_path"@],
    )
}

/// The tools that work on this machine alone.
pub open spec fn local_tools() -> Seq<Doc> {
    seq![
        screenshot_tool(),
        ocr_tool(),
        screenshot_ocr_tool(),
        check_user_input_tool(),
        load_image_tool(),
        diff_tool(),
        zoom_tool(),
        find_template_tool(),
    ]
}

/// The tools that call a service, which goes by this name.
pub open spec fn api_tools(service: Seq<char>) -> Seq<Doc> {
    seq![analyze_tool(service)]
}

fn make_described(kind: &str, description: &str) -> (r: Fields)
    ensures
        r.docs() == described(kind@, description@),
{
    Fields::new().with("type", json::text_value(kind)).with(
        "description",
        json::text_value(description),
    )
}

fn make_property(kind: &str, description: &str) -> (r: Json)
    ensures
        r.doc() == property(kind@, description@),
{
    make_described(kind, description).object()
}

fn make_defaulting(kind: &str, description: &str, default: Json) -> (r: Json)
    ensures
        r.doc() == defaulting(kind@, description@, default.doc()),
{
    make_described(kind, description).with("default", default).object()
}

fn make_bounded(kind: &str, description: &str, default: u64, least: u64, most: u64) -> (r: Json)
    ensures
        r.doc() == bounded(kind@, description@, default as int, least as int, most as int),
{
    make_described(kind, description).with("default", Json::Unsigned(default)).with(
        "minimum",
        Json::Unsigned(least),
    ).with("maximum", Json::Unsigned(most)).object()
}

fn make_bare(kind: &str) -> (r: Json)
    ensures
        r.doc() == bare(kind@),
{
    Fields::new().with("type", json::text_value(kind)).object()
}

fn make_region_property() -> (r: Json)
    ensures
        r.doc() == region_property(),
{
    let sides = Fields::new().with("x", make_bare("integer")).with("y", make_bare("integer")).with(
        "width",
        make_bare("integer"),
    ).with("height", make_bare("integer"));
    assert(sides.docs() =~= region_arguments());
    make_described("object", "Capture specific region: {x, y, width, height}").with(
        "properties",
        sides.object(),
    ).object()
}

/// The names in a list.
pub open spec fn listed(list: Seq<&str>) -> Seq<Seq<char>> {
    Seq::new(list.len(), |i: int| list[i]@)
}

fn make_tool(name: &str, description: &str, properties: Fields, required: Vec<&str>) -> (r: Json)
    ensures
        r.doc() == tool(name@, description@, properties.docs(), listed(required@)),
{
    let kind = Fields::new().with("type", json::text_value("object")).with(
        "properties",
        properties.object(),
    );
    let fields = if required.len() == 0 {
        kind
    } else {
        let list = json::texts_value(&required);
        assert(list.doc()->Array_0 =~= names(listed(required@))->Array_0);
        kind.with("required", list)
    };
    assert(fields.docs() =~= schema(properties.docs(), listed(required@)));
    let whole = Fields::new().with("name", json::text_value(name)).with(
        "description",
        json::text_value(description),
    ).with("inputSchema", fields.object());
    assert(whole.docs() =~= tool(
        name@,
        description@,
        properties.docs(),
        listed(required@),
    )->Object_0);
    whole.object()
}

fn make_screenshot_tool() -> (r: Json)
    ensures
        r.doc() == screenshot_tool(),
{
    let properties = Fields::new()
        .with(
            "save_path",
            make_property(
                "string",
                "Path to save screenshot (optional, uses temp if not provided)",
            ),
        )
        .with(
            "return_base64",
            make_defaulting(
                "boolean",
                "Return base64 encoded image data (default: false)",
                Json::Bool(false),
            ),
        )
        .with(
            "monitor",
            make_defaulting("integer", "Monitor index (0 = primary)", Json::Unsigned(0)),
        )
        .with("region", make_region_property())
        .with("quality", make_bounded("integer", "JPEG quality 1-100 (default: 80)", 80, 1, 100));
    assert(properties.docs() =~= screenshot_arguments());
    let required: Vec<&str> = vec![];
    assert(listed(required@) =~= Seq::empty());
    make_tool(
        "vision_screenshot",
        "[Vision] Take a screenshot of the screen or a specific region. Returns the image path and optionally base64 data.",
        properties,
        required,
    )
}

fn make_ocr_tool() -> (r: Json)
    ensures
        r.doc() == ocr_tool(),
{
    let properties = Fields::new()
        .with("image_path", make_property("string", "Path to image file"))
        .with(
            "language",
            make_defaulting("string", "OCR language (default: en-US)", json::text_value("en-US")),
        );
    assert(properties.docs() =~= ocr_arguments());
    let required: Vec<&str> = vec!["image_path"];
    assert(listed(required@) =~= seq!["image_path"@]);
    make_tool(
        "vision_ocr",
        "[Vision] Extract text from an image using Windows OCR. Local processing, no tokens used.",
        properties,
        required,
    )
}

fn make_screenshot_ocr_tool() -> (r: Json)
    ensures
        r.doc() == screenshot_ocr_tool(),
{
    let properties = Fields::new()
        .with(
            "monitor",
            make_defaulting("integer", "Monitor index (0 = primary)", Json::Unsigned(0)),
        )
        .with("save_screenshot", make_property("string", "Optional path to save the screenshot"))
        .with("region", make_region_property());
    assert(properties.docs() =~= screenshot_ocr_arguments());
    let required: Vec<&str> = vec![];
    assert(listed(required@) =~= Seq::empty());
    make_tool(
        "vision_screenshot_ocr",
        "[Vision] Take screenshot and immediately OCR it. Returns extracted text. Local processing.",
        properties,
        required,
    )
}

fn make_check_user_input_tool() -> (r: Json)
    ensures
        r.doc() == check_user_input_tool(),
{
    let properties = Fields::new()
        .with(
            "height",
            make_defaulting(
                "integer",
                "Height from bottom to capture (default: 200px)",
                Json::Unsigned(200),
            ),
        )
        .with(
            "monitor",
            make_defaulting("integer", "Monitor index (default: 0)", Json::Unsigned(0)),
        );
    assert(properties.docs() =~= check_user_input_arguments());
    let required: Vec<&str> = vec![];
    assert(listed(required@) =~= Seq::empty());
    make_tool(
        "vision_check_user_input",
        "[Vision] Screenshot and OCR bottom of screen to detect if user typed during tool execution.",
        properties,
        required,
    )
}

fn make_load_image_tool() -> (r: Json)
    ensures
        r.doc() == load_image_tool(),
{
    let properties = Fields::new()
        .with("image_path", make_property("string", "Path to image file"));
    assert(properties.docs() =~= load_image_arguments());
    let required: Vec<&str> = vec!["image_path"];
    assert(listed(required@) =~= seq!["image_path"@]);
    make_tool(
        "vision_load_image",
        "[Vision] Load image as base64 for direct vision analysis in chat.",
        properties,
        required,
    )
}

fn make_diff_tool() -> (r: Json)
    ensures
        r.doc() == diff_tool(),
{
    let properties = Fields::new()
        .with("image_a", make_property("string", "Path to first image (reference/before)"))
        .with(
            "image_b",
            make_property("string", "Path to second image, or 'screen' for current screen"),
        )
        .with(
            "threshold",
            make_defaulting(
                "number",
                "Pixel difference threshold 0-255 (default: 30)",
                Json::Unsigned(30),
            ),
        )
        .with(
            "monitor",
            make_defaulting(
                "integer",
                "Monitor index if image_b is 'screen' (default: 0)",
                Json::Unsigned(0),
            ),
        );
    assert(properties.docs() =~= diff_arguments());
    let required: Vec<&str> = vec!["image_a", "image_b"];
    assert(listed(required@) =~= seq!["image_a"@, "image_b"@]);
    make_tool(
        "vision_diff",
        "[Vision] Compare two images and return difference percentage. Use 'screen' as image_b to compare against current screen.",
        properties,
        required,
    )
}

fn make_zoom_tool() -> (r: Json)
    ensures
        r.doc() == zoom_tool(),
{
    let properties = Fields::new()
        .with("x", make_property("integer", "Left edge of region"))
        .with("y", make_property("integer", "Top edge of region"))
        .with("width", make_property("integer", "Width of region"))
        .with("height", make_property("integer", "Height of region"))
        .with(
            "scale",
            make_defaulting(
                "number",
                "Magnification factor (default 2.0)",
                Json::Float(default_scale_bits()),
            ),
        );
    assert(properties.docs() =~= zoom_arguments());
    let required: Vec<&str> = vec!["x", "y", "width", "height"];
    assert(listed(required@) =~= seq!["x"@, "y"@, "width"@, "height"@]);
    make_tool(
        "vision_zoom",
        "Crop and magnify a screen region for closer inspection. Takes a screenshot, crops to the specified rectangle, and scales up.",
        properties,
        required,
    )
}

fn make_find_template_tool() -> (r: Json)
    ensures
        r.doc() == find_template_tool(),
{
    let properties = Fields::new()
        .with("template", make_property("string", "Path to template image to find"))
        .with("search_in", make_property("string", "Path to image or 'screen' (default: screen)"))
        .with(
            "threshold",
            make_defaulting(
                "number",
                "Match confidence 0.0-1.0 (default: 0.8)",
                Json::Float(default_confidence_bits()),
            ),
        )
        .with(
            "monitor",
            make_defaulting(
                "integer",
                "Monitor index if search_in is 'screen' (default: 0)",
                Json::Unsigned(0),
            ),
        );
    assert(properties.docs() =~= find_template_arguments());
    let required: Vec<&str> = vec!["template"];
    assert(listed(required@) =~= seq!["template"@]);
    make_tool(
        "vision_find_template",
        "[Vision] Find a template image within the screen or another image. Returns best match location and confidence.",
        properties,
        required,
    )
}

fn make_analyze_tool(service: &str) -> (r: Json)
    ensures
        r.doc() == analyze_tool(service@),
{
    let properties = Fields::new().with(
        "image_path",
        make_property("string", "Path to image file"),
    ).with(
        "query",
        make_defaulting(
            "string",
            "What to analyze/look for",
            json::text_value("Describe this image in detail"),
        ),
    );
    assert(properties.docs() =~= analyze_arguments());
    let required: Vec<&str> = vec!["image_path"];
    assert(listed(required@) =~= seq!["image_path"@]);
    let mut description = text::joined_texts("[Vision] Analyze image with ", service);
    description.append(" Vision API. Uses tokens but provides intelligent analysis.");
    make_tool("vision_analyze", description.as_str(), properties, required)
}

/// The tools that work on this machine alone: no service is called.
pub fn get_local_definitions() -> (r: Vec<Json>)
    ensures
        json::docs(r@) == local_tools(),
{
    let mut r: Vec<Json> = Vec::new();
    r.push(make_screenshot_tool());
    r.push(make_ocr_tool());
    r.push(make_screenshot_ocr_tool());
    r.push(make_check_user_input_tool());
    r.push(make_load_image_tool());
    r.push(make_diff_tool());
    r.push(make_zoom_tool());
    r.push(make_find_template_tool());
    assert(json::docs(r@) =~= local_tools());
    r
}

/// The tools that call a service, which goes by this name.
pub fn get_api_definitions(service: &str) -> (r: Vec<Json>)
    ensures
        json::docs(r@) == api_tools(service@),
{
    let mut r: Vec<Json> = Vec::new();
    r.push(make_analyze_tool(service));
    assert(json::docs(r@) =~= api_tools(service@));
    r
}

/// All tools: those that work on this machine alone, then those that call a
/// service.
pub fn get_all_definitions(service: &str) -> (r: Vec<Json>)
    ensures
        json::docs(r@) == local_tools() + api_tools(service@),
{
    let mut r = get_local_definitions();
    let mut others = get_api_definitions(service);
    let ghost first = r@;
    let ghost second = others@;
    r.append(&mut others);
    assert(r@ =~= first + second);
    assert(json::docs(r@) =~= json::docs(first) + json::docs(second));
    r
}

} // verus!
