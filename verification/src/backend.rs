//! Which engine reads text, and what it needs.
use vstd::prelude::*;
use crate::json;
use crate::messages;
use crate::text;
use crate::json::Doc;
use crate::json::Fields;
use crate::json::Json;

verus! {

/// The engines that read text.
#[derive(Debug, Clone, Copy, PartialEq, Eq, Structural)]
pub enum OcrBackend {
    Windows,
    Paddle,
}

/// The engine that a setting asks for; without one that is known, the engine
/// of Windows where there is one, and PaddleOCR elsewhere.
pub open spec fn backend_for(setting: Option<Seq<char>>, on_windows: bool) -> OcrBackend {
    match setting {
        Some(s) => if s == "paddle"@ || s == "onnx"@ || s == "paddleocr"@ {
            OcrBackend::Paddle
        } else if s == "windows"@ || on_windows {
            OcrBackend::Windows
        } else {
            OcrBackend::Paddle
        },
        None => if on_windows {
            OcrBackend::Windows
        } else {
            OcrBackend::Paddle
        },
    }
}

/// The engine that a setting asks for. `paddle`, `onnx` and `paddleocr` ask
/// for PaddleOCR, `windows` for that of Windows; anything else leaves it to
/// the system.
pub fn selected_backend(setting: &Option<String>, on_windows: bool) -> (r: OcrBackend)
    ensures
        r == backend_for(text::told(*setting), on_windows),
{
    match setting {
        Some(s) => {
            let s = s.as_str();
            if text::same_text(s, "paddle") || text::same_text(s, "onnx") || text::same_text(
                s,
                "paddleocr",
            ) {
                OcrBackend::Paddle
            } else if text::same_text(s, "windows") || on_windows {
                OcrBackend::Windows
            } else {
                OcrBackend::Paddle
            }
        },
        None => {
            if on_windows {
                OcrBackend::Windows
            } else {
                OcrBackend::Paddle
            }
        },
    }
}

/// On Windows its own engine reads text, unless PaddleOCR is asked for.
pub proof fn windows_reads_with_its_own_engine(setting: Option<Seq<char>>)
    ensures
        backend_for(setting, true) == OcrBackend::Paddle <==> (setting == Some("paddle"@)
            || setting == Some("onnx"@) || setting == Some("paddleocr"@)),
{
}

/// What is said where PaddleOCR is asked for and not built in.
pub open spec fn paddle_not_compiled() -> Seq<char> {
    "VISION_CORE_OCR_BACKEND=paddle requested but vision-core was built without the `onnx` feature. Rebuild with --features onnx, or unset the env var to use Windows OCR."@
}

/// What is said where the engine of Windows is asked for elsewhere.
pub open spec fn windows_unavailable() -> Seq<char> {
    "Windows.Media.Ocr is unavailable on this platform. Build vision-core with `--features onnx` for cross-platform OCR, or use screenshot capture only."@
}

/// The engine to read with, where it is there.
pub fn ocr_backend(backend: OcrBackend, on_windows: bool, with_onnx: bool) -> (r: Result<
    OcrBackend,
    String,
>)
    ensures
        match r {
            Ok(b) => b == backend && (if backend == OcrBackend::Paddle {
                with_onnx
            } else {
                on_windows
            }),
            Err(e) => if backend == OcrBackend::Paddle {
                !with_onnx && e@ == paddle_not_compiled()
            } else {
                !on_windows && e@ == windows_unavailable()
            },
        },
{
    match backend {
        OcrBackend::Paddle => {
            if with_onnx {
                Ok(backend)
            } else {
                Err(
                    "VISION_CORE_OCR_BACKEND=paddle requested but vision-core was built without the `onnx` feature. Rebuild with --features onnx, or unset the env var to use Windows OCR.".to_owned(),
                )
            }
        },
        OcrBackend::Windows => {
            if on_windows {
                Ok(backend)
            } else {
                Err(
                    "Windows.Media.Ocr is unavailable on this platform. Build vision-core with `--features onnx` for cross-platform OCR, or use screenshot capture only.".to_owned(),
                )
            }
        },
    }
}

/// The path that a variable of the environment gives, if it is set, and
/// whether there is a file.
#[derive(Debug, PartialEq, Eq)]
pub struct ModelPath {
    pub value: Option<String>,
    pub exists: bool,
}

impl ModelPath {
    /// The variable gives a path.
    pub open spec fn set(self) -> bool {
        self.value matches Some(p) && p@.len() > 0
    }

    /// The variable gives the path of a file.
    pub open spec fn present(self) -> bool {
        self.set() && self.exists
    }

    fn is_set(&self) -> (r: bool)
        ensures
            r == self.set(),
    {
        match &self.value {
            Some(p) => !p.as_str().is_empty(),
            None => false,
        }
    }

    /// The path that the variable gives.
    fn path(self) -> (r: String)
        requires
            self.set(),
        ensures
            r@ == text::told(self.value)->Some_0,
    {
        match self.value {
            Some(p) => p,
            None => String::new(),
        }
    }
}

/// What PaddleOCR is made of: detector, recognizer and dictionary.
#[derive(Debug, PartialEq, Eq)]
pub struct Models {
    pub detector: ModelPath,
    pub recognizer: ModelPath,
    pub dictionary: ModelPath,
}

impl Models {
    /// All three are there.
    pub open spec fn present(self) -> bool {
        self.detector.present() && self.recognizer.present() && self.dictionary.present()
    }

    /// What is missing, by the names of the variables.
    pub open spec fn missing(self) -> Seq<Seq<char>> {
        lacking("VISION_CORE_PADDLE_DET_MODEL"@, self.detector) + lacking(
            "VISION_CORE_PADDLE_REC_MODEL"@,
            self.recognizer,
        ) + lacking("VISION_CORE_PADDLE_DICT"@, self.dictionary)
    }

    /// All three are there.
    pub fn are_present(&self) -> (r: bool)
        ensures
            r == self.present(),
    {
        self.detector.is_set() && self.detector.exists && self.recognizer.is_set()
            && self.recognizer.exists && self.dictionary.is_set() && self.dictionary.exists
    }
}

/// What is said of a variable, if it does not give the path of a file.
pub open spec fn lacking(name: Seq<char>, m: ModelPath) -> Seq<Seq<char>> {
    if m.present() {
        Seq::empty()
    } else if m.set() {
        seq![name + " (path does not exist)"@]
    } else {
        seq![name]
    }
}

/// What is said where something is missing.
pub open spec fn missing_message(missing: Seq<Seq<char>>) -> Seq<char> {
    "PaddleOCR-ONNX backend is missing model configuration. Set VISION_CORE_PADDLE_DET_MODEL / VISION_CORE_PADDLE_REC_MODEL / VISION_CORE_PADDLE_DICT to valid files. Missing/invalid: "@
        + text::joined(missing, ", "@)
        + ". See docs/paddle-onnx.md for how to fetch PP-OCRv4 ONNX models."@
}

/// Adds what is said of a variable to what is missing.
fn push_lacking(missing: &mut Vec<String>, name: &str, m: &ModelPath)
    ensures
        text::texts(final(missing)@) == text::texts(old(missing)@) + lacking(name@, *m),
{
    let ghost before = missing@;
    if m.is_set() {
        if !m.exists {
            missing.push(text::joined_texts(name, " (path does not exist)"));
        }
    } else {
        missing.push(name.to_owned());
    }
    assert(text::texts(missing@) =~= text::texts(before) + lacking(name@, *m));
}

/// The paths of what PaddleOCR is made of.
#[derive(Debug, PartialEq, Eq)]
pub struct PaddleConfig {
    pub det_model: String,
    pub rec_model: String,
    pub dict: String,
}

/// The paths of what PaddleOCR is made of, or everything that is missing.
pub fn resolve_config(models: Models) -> (r: Result<PaddleConfig, String>)
    ensures
        match r {
            Ok(c) => {
                &&& models.present()
                &&& Some(c.det_model@) == text::told(models.detector.value)
                &&& Some(c.rec_model@) == text::told(models.recognizer.value)
                &&& Some(c.dict@) == text::told(models.dictionary.value)
            },
            Err(e) => !models.present() && e@ == missing_message(models.missing()),
        },
{
    if models.are_present() {
        return Ok(
            PaddleConfig {
                det_model: models.detector.path(),
                rec_model: models.recognizer.path(),
                dict: models.dictionary.path(),
            },
        );
    }
    let mut missing: Vec<String> = Vec::new();
    push_lacking(&mut missing, "VISION_CORE_PADDLE_DET_MODEL", &models.detector);
    push_lacking(&mut missing, "VISION_CORE_PADDLE_REC_MODEL", &models.recognizer);
    push_lacking(&mut missing, "VISION_CORE_PADDLE_DICT", &models.dictionary);
    assert(text::texts(missing@) =~= models.missing());
    let mut e =
        "PaddleOCR-ONNX backend is missing model configuration. Set VISION_CORE_PADDLE_DET_MODEL / VISION_CORE_PADDLE_REC_MODEL / VISION_CORE_PADDLE_DICT to valid files. Missing/invalid: ".to_owned();
    e.append(text::join(&missing, ", ").as_str());
    e.append(". See docs/paddle-onnx.md for how to fetch PP-OCRv4 ONNX models.");
    Err(e)
}

/// Whatever is missing is named: the message holds what is said of each
/// variable that does not give the path of a file, and of no other.
pub proof fn the_message_names_what_is_missing(models: Models)
    ensures
        models.missing().len() == 0 <==> models.present(),
        forall|i: int|
            0 <= i < models.missing().len() ==> text::holds(
                missing_message(models.missing()),
                #[trigger] models.missing()[i],
            ),
        !models.detector.present() ==> models.missing().contains(
            lacking("VISION_CORE_PADDLE_DET_MODEL"@, models.detector)[0],
        ),
        !models.recognizer.present() ==> models.missing().contains(
            lacking("VISION_CORE_PADDLE_REC_MODEL"@, models.recognizer)[0],
        ),
        !models.dictionary.present() ==> models.missing().contains(
            lacking("VISION_CORE_PADDLE_DICT"@, models.dictionary)[0],
        ),
{
    let all = models.missing();
    let a = lacking("VISION_CORE_PADDLE_DET_MODEL"@, models.detector);
    let b = lacking("VISION_CORE_PADDLE_REC_MODEL"@, models.recognizer);
    let c = lacking("VISION_CORE_PADDLE_DICT"@, models.dictionary);
    assert forall|i: int| 0 <= i < all.len() implies text::holds(
        missing_message(all),
        #[trigger] all[i],
    ) by {
        text::a_joined_text_holds_its_parts(all, ", "@, i);
        text::lemma_holds(
            "PaddleOCR-ONNX backend is missing model configuration. Set VISION_CORE_PADDLE_DET_MODEL / VISION_CORE_PADDLE_REC_MODEL / VISION_CORE_PADDLE_DICT to valid files. Missing/invalid: "@,
            text::joined(all, ", "@),
            ". See docs/paddle-onnx.md for how to fetch PP-OCRv4 ONNX models."@,
            all[i],
        );
    }
    if !models.detector.present() {
        assert(all[0] == a[0]);
    }
    if !models.recognizer.present() {
        assert(all[a.len() as int] == b[0]);
    }
    if !models.dictionary.present() {
        assert(all[(a.len() + b.len()) as int] == c[0]);
    }
}

/// The tokens of a dictionary, one to a line, given what was read of its file.
pub fn dictionary(dict_path: &str, read: Result<String, String>) -> (r: Result<Vec<String>, String>)
    ensures
        match (read, r) {
            (Ok(s), Ok(tokens)) => text::texts(tokens@) == text::lines(s@) && tokens@.len() > 0,
            (Ok(s), Err(e)) => s@.len() == 0 && e@ == messages::quoting(
                "PaddleOCR dictionary"@,
                dict_path@,
                " is empty"@,
            ),
            (Err(why), Err(e)) => e@ == messages::because(
                messages::quoting("Failed to read PaddleOCR dictionary"@, dict_path@, ""@),
                why@,
            ),
            (Err(_), Ok(_)) => false,
        },
{
    match read {
        Ok(s) => {
            let tokens = text::split_lines(s.as_str());
            assert(text::texts(tokens@).len() == tokens@.len());
            if tokens.len() == 0 {
                Err(messages::quote("PaddleOCR dictionary", dict_path, " is empty"))
            } else {
                Ok(tokens)
            }
        },
        Err(why) => {
            let what = messages::quote("Failed to read PaddleOCR dictionary", dict_path, "");
            Err(messages::failed(what.as_str(), why.as_str()))
        },
    }
}

/// The engine's name in the report.
pub open spec fn backend_name(b: OcrBackend) -> Seq<char> {
    match b {
        OcrBackend::Windows => "windows_media_ocr"@,
        OcrBackend::Paddle => "paddleocr_onnx"@,
    }
}

/// The engines that are built in.
pub open spec fn available(with_onnx: bool) -> Doc {
    if with_onnx {
        Doc::Array(seq![Doc::Text("windows_media_ocr"@), Doc::Text("paddleocr_onnx"@)])
    } else {
        Doc::Array(seq![Doc::Text("windows_media_ocr"@)])
    }
}

/// What is reported of the engines.
pub open spec fn report(with_onnx: bool, active: OcrBackend, models_present: bool) -> Seq<
    (Seq<char>, Doc),
> {
    seq![
        ("default"@, Doc::Text("windows_media_ocr"@)),
        ("available"@, available(with_onnx)),
        ("onnx_compiled"@, Doc::Bool(with_onnx)),
        ("active"@, Doc::Text(backend_name(active))),
        ("paddle_models_present"@, Doc::Bool(models_present)),
        (
            "note"@,
            Doc::Text(
                "PaddleOCR-ONNX is experimental; set VISION_CORE_OCR_BACKEND=paddle + the 3 model env vars to enable. Windows.Media.Ocr is the default and only verified backend."@,
            ),
        ),
    ]
}

/// What surrounds the library: the engine that is asked for, the system, what
/// is built in, and what PaddleOCR is made of.
#[derive(Debug, PartialEq, Eq)]
pub struct Surroundings {
    pub setting: Option<String>,
    pub on_windows: bool,
    pub with_onnx: bool,
    pub models: Models,
}

/// Which engines there are, which one is active, and whether PaddleOCR has
/// what it needs.
pub fn vision_ocr_backends(around: &Surroundings) -> (r: Json)
    ensures
        r.doc() == Doc::Object(
            report(
                around.with_onnx,
                backend_for(text::told(around.setting), around.on_windows),
                around.models.present(),
            ),
        ),
{
    let mut list: Vec<Json> = Vec::new();
    list.push(json::text_value("windows_media_ocr"));
    if around.with_onnx {
        list.push(json::text_value("paddleocr_onnx"));
    }
    assert(json::docs(list@) =~= available(around.with_onnx)->Array_0);
    let active = match selected_backend(&around.setting, around.on_windows) {
        OcrBackend::Windows => "windows_media_ocr",
        OcrBackend::Paddle => "paddleocr_onnx",
    };
    let fields = Fields::new().with("default", json::text_value("windows_media_ocr")).with(
        "available",
        json::array_value(list),
    ).with("onnx_compiled", Json::Bool(around.with_onnx)).with(
        "active",
        json::text_value(active),
    ).with("paddle_models_present", Json::Bool(around.models.are_present())).with(
        "note",
        json::text_value(
            "PaddleOCR-ONNX is experimental; set VISION_CORE_OCR_BACKEND=paddle + the 3 model env vars to enable. Windows.Media.Ocr is the default and only verified backend.",
        ),
    );
    assert(fields.docs() =~= report(
        around.with_onnx,
        backend_for(text::told(around.setting), around.on_windows),
        around.models.present(),
    ));
    fields.object()
}

/// What is missing is told by the name of its variable: alone where the variable
/// is not set or is empty, with a note where it gives a path at which there is no
/// file, and not at all where there is one. Detector, recognizer and dictionary
/// come in this order.
pub proof fn what_is_missing_is_told_by_its_variable(models: Models)
    ensures
        ({
            let told = |name: Seq<char>, m: ModelPath|
                if m.value is None || m.value->Some_0@.len() == 0 {
                    seq![name]
                } else if !m.exists {
                    seq![name + " (path does not exist)"@]
                } else {
                    Seq::empty()
                };
            models.missing() == told("VISION_CORE_PADDLE_DET_MODEL"@, models.detector) + told(
                "VISION_CORE_PADDLE_REC_MODEL"@,
                models.recognizer,
            ) + told("VISION_CORE_PADDLE_DICT"@, models.dictionary)
        }),
        models.present() <==> models.missing().len() == 0,
{
}

} // verus!
