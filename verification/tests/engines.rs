//! Which engine reads text, and what it needs.
use vision_core::backend::{
    dictionary, ocr_backend, resolve_config, selected_backend, vision_ocr_backends, ModelPath,
    Models, OcrBackend, PaddleConfig, Surroundings,
};
use vision_core::json::Json;

fn set(s: &str) -> Option<String> {
    Some(s.to_string())
}

fn path(value: Option<&str>, exists: bool) -> ModelPath {
    ModelPath { value: value.map(|s| s.to_string()), exists }
}

fn complete() -> Models {
    Models {
        detector: path(Some("det.onnx"), true),
        recognizer: path(Some("rec.onnx"), true),
        dictionary: path(Some("dict.txt"), true),
    }
}

#[test]
fn an_engine_is_asked_for_by_name() {
    for on_windows in [false, true] {
        for name in ["paddle", "onnx", "paddleocr"] {
            assert_eq!(selected_backend(&set(name), on_windows), OcrBackend::Paddle);
        }
        assert_eq!(selected_backend(&set("windows"), on_windows), OcrBackend::Windows);
    }
}

#[test]
fn the_system_decides_where_nothing_is_asked() {
    assert_eq!(selected_backend(&None, true), OcrBackend::Windows);
    assert_eq!(selected_backend(&set("Paddle"), true), OcrBackend::Windows);
    assert_eq!(selected_backend(&set(""), true), OcrBackend::Windows);
    assert_eq!(selected_backend(&None, false), OcrBackend::Paddle);
    assert_eq!(selected_backend(&set("tesseract"), false), OcrBackend::Paddle);
}

#[test]
fn an_engine_that_is_not_there_is_refused() {
    assert_eq!(ocr_backend(OcrBackend::Paddle, false, true), Ok(OcrBackend::Paddle));
    assert_eq!(ocr_backend(OcrBackend::Windows, true, false), Ok(OcrBackend::Windows));
    assert_eq!(
        ocr_backend(OcrBackend::Paddle, true, false),
        Err("VISION_CORE_OCR_BACKEND=paddle requested but vision-core was built without the `onnx` feature. Rebuild with --features onnx, or unset the env var to use Windows OCR.".to_string())
    );
    assert_eq!(
        ocr_backend(OcrBackend::Windows, false, true),
        Err("Windows.Media.Ocr is unavailable on this platform. Build vision-core with `--features onnx` for cross-platform OCR, or use screenshot capture only.".to_string())
    );
}

#[test]
fn a_complete_configuration_is_taken() {
    assert_eq!(
        resolve_config(complete()),
        Ok(PaddleConfig {
            det_model: "det.onnx".to_string(),
            rec_model: "rec.onnx".to_string(),
            dict: "dict.txt".to_string(),
        })
    );
}

#[test]
fn everything_that_is_missing_is_named() {
    let models = Models {
        detector: path(None, false),
        recognizer: path(Some("rec.onnx"), false),
        dictionary: path(Some(""), true),
    };
    assert!(!models.are_present());
    assert_eq!(
        resolve_config(models),
        Err("PaddleOCR-ONNX backend is missing model configuration. Set VISION_CORE_PADDLE_DET_MODEL / VISION_CORE_PADDLE_REC_MODEL / VISION_CORE_PADDLE_DICT to valid files. Missing/invalid: VISION_CORE_PADDLE_DET_MODEL, VISION_CORE_PADDLE_REC_MODEL (path does not exist), VISION_CORE_PADDLE_DICT. See docs/paddle-onnx.md for how to fetch PP-OCRv4 ONNX models.".to_string())
    );
    let mut models = complete();
    models.dictionary.exists = false;
    assert_eq!(
        resolve_config(models),
        Err("PaddleOCR-ONNX backend is missing model configuration. Set VISION_CORE_PADDLE_DET_MODEL / VISION_CORE_PADDLE_REC_MODEL / VISION_CORE_PADDLE_DICT to valid files. Missing/invalid: VISION_CORE_PADDLE_DICT (path does not exist). See docs/paddle-onnx.md for how to fetch PP-OCRv4 ONNX models.".to_string())
    );
}

#[test]
fn a_dictionary_has_a_token_to_a_line() {
    assert_eq!(
        dictionary("d.txt", Ok("a\r\nb\n c\n".to_string())),
        Ok(vec!["a".to_string(), "b".to_string(), " c".to_string()])
    );
    assert_eq!(
        dictionary("d.txt", Ok(String::new())),
        Err("PaddleOCR dictionary 'd.txt' is empty".to_string())
    );
    assert_eq!(
        dictionary("d.txt", Err("denied".to_string())),
        Err("Failed to read PaddleOCR dictionary 'd.txt': denied".to_string())
    );
    assert_eq!(dictionary("d.txt", Ok("\n".to_string())), Ok(vec![String::new()]));
}

#[test]
fn the_report_tells_what_is_there() {
    let around = Surroundings {
        setting: set("paddle"),
        on_windows: true,
        with_onnx: true,
        models: complete(),
    };
    let report = vision_ocr_backends(&around);
    assert_eq!(report.text_at("default"), set("windows_media_ocr"));
    assert_eq!(report.text_at("active"), set("paddleocr_onnx"));
    assert_eq!(report.bool_at("onnx_compiled"), Some(true));
    assert_eq!(report.bool_at("paddle_models_present"), Some(true));
    assert_eq!(
        report.field("available"),
        Some(&Json::Array(vec![
            Json::Text("windows_media_ocr".to_string()),
            Json::Text("paddleocr_onnx".to_string()),
        ]))
    );
    assert_eq!(
        report.text_at("note"),
        set("PaddleOCR-ONNX is experimental; set VISION_CORE_OCR_BACKEND=paddle + the 3 model env vars to enable. Windows.Media.Ocr is the default and only verified backend.")
    );
    let around = Surroundings {
        setting: None,
        on_windows: true,
        with_onnx: false,
        models: Models {
            detector: path(None, false),
            recognizer: path(Some("r"), true),
            dictionary: path(Some("d"), true),
        },
    };
    let report = vision_ocr_backends(&around);
    assert_eq!(report.text_at("active"), set("windows_media_ocr"));
    assert_eq!(report.bool_at("onnx_compiled"), Some(false));
    assert_eq!(report.bool_at("paddle_models_present"), Some(false));
    assert_eq!(
        report.field("available"),
        Some(&Json::Array(vec![Json::Text("windows_media_ocr".to_string())]))
    );
}
