//! The tools as they are described.
use vision_core::definitions::{
    get_all_definitions, get_api_definitions, get_local_definitions,
};
use vision_core::json::Json;

/// The value as another library has it.
fn outside(v: &Json) -> serde_json::Value {
    match v {
        Json::Null => serde_json::Value::Null,
        Json::Bool(b) => serde_json::Value::from(*b),
        Json::Unsigned(n) => serde_json::Value::from(*n),
        Json::Signed(n) => serde_json::Value::from(*n),
        Json::Float(n) => serde_json::Value::from(f64::from_bits(*n)),
        Json::Text(s) => serde_json::Value::from(s.as_str()),
        Json::Array(items) => serde_json::Value::Array(items.iter().map(outside).collect()),
        Json::Object(fields) => serde_json::Value::Object(
            fields.iter().map(|(k, v)| (k.clone(), outside(v))).collect(),
        ),
    }
}

fn parsed(s: &str) -> serde_json::Value {
    serde_json::from_str(s).unwrap()
}

const VISION_SCREENSHOT: &str = r#"{
  "name": "vision_screenshot",
  "description": "[Vision] Take a screenshot of the screen or a specific region. Returns the image path and optionally base64 data.",
  "inputSchema": {
    "type": "object",
    "properties": {
      "save_path": {
        "type": "string",
        "description": "Path to save screenshot (optional, uses temp if not provided)"
      },
      "return_base64": {
        "type": "boolean",
        "description": "Return base64 encoded image data (default: false)",
        "default": false
      },
      "monitor": {
        "type": "integer",
        "description": "Monitor index (0 = primary)",
        "default": 0
      },
      "region": {
        "type": "object",
        "description": "Capture specific region: {x, y, width, height}",
        "properties": {
          "x": {
            "type": "integer"
          },
          "y": {
            "type": "integer"
          },
          "width": {
            "type": "integer"
          },
          "height": {
            "type": "integer"
          }
        }
      },
      "quality": {
        "type": "integer",
        "description": "JPEG quality 1-100 (default: 80)",
        "default": 80,
        "minimum": 1,
        "maximum": 100
      }
    }
  }
}"#;

const VISION_OCR: &str = r#"{
  "name": "vision_ocr",
  "description": "[Vision] Extract text from an image using Windows OCR. Local processing, no tokens used.",
  "inputSchema": {
    "type": "object",
    "properties": {
      "image_path": {
        "type": "string",
        "description": "Path to image file"
      },
      "language": {
        "type": "string",
        "description": "OCR language (default: en-US)",
        "default": "en-US"
      }
    },
    "required": [
      "image_path"
    ]
  }
}"#;

const VISION_SCREENSHOT_OCR: &str = r#"{
  "name": "vision_screenshot_ocr",
  "description": "[Vision] Take screenshot and immediately OCR it. Returns extracted text. Local processing.",
  "inputSchema": {
    "type": "object",
    "properties": {
      "monitor": {
        "type": "integer",
        "description": "Monitor index (0 = primary)",
        "default": 0
      },
      "save_screenshot": {
        "type": "string",
        "description": "Optional path to save the screenshot"
      },
      "region": {
        "type": "object",
        "description": "Capture specific region: {x, y, width, height}",
        "properties": {
          "x": {
            "type": "integer"
          },
          "y": {
            "type": "integer"
          },
          "width": {
            "type": "integer"
          },
          "height": {
            "type": "integer"
          }
        }
      }
    }
  }
}"#;

const VISION_CHECK_USER_INPUT: &str = r#"{
  "name": "vision_check_user_input",
  "description": "[Vision] Screenshot and OCR bottom of screen to detect if user typed during tool execution.",
  "inputSchema": {
    "type": "object",
    "properties": {
      "height": {
        "type": "integer",
        "description": "Height from bottom to capture (default: 200px)",
        "default": 200
      },
      "monitor": {
        "type": "integer",
        "description": "Monitor index (default: 0)",
        "default": 0
      }
    }
  }
}"#;

const VISION_LOAD_IMAGE: &str = r#"{
  "name": "vision_load_image",
  "description": "[Vision] Load image as base64 for direct vision analysis in chat.",
  "inputSchema": {
    "type": "object",
    "properties": {
      "image_path": {
        "type": "string",
        "description": "Path to image file"
      }
    },
    "required": [
      "image_path"
    ]
  }
}"#;

const VISION_DIFF: &str = r#"{
  "name": "vision_diff",
  "description": "[Vision] Compare two images and return difference percentage. Use 'screen' as image_b to compare against current screen.",
  "inputSchema": {
    "type": "object",
    "properties": {
      "image_a": {
        "type": "string",
        "description": "Path to first image (reference/before)"
      },
      "image_b": {
        "type": "string",
        "description": "Path to second image, or 'screen' for current screen"
      },
      "threshold": {
        "type": "number",
        "description": "Pixel difference threshold 0-255 (default: 30)",
        "default": 30
      },
      "monitor": {
        "type": "integer",
        "description": "Monitor index if image_b is 'screen' (default: 0)",
        "default": 0
      }
    },
    "required": [
      "image_a",
      "image_b"
    ]
  }
}"#;

const VISION_ZOOM: &str = r#"{
  "name": "vision_zoom",
  "description": "Crop and magnify a screen region for closer inspection. Takes a screenshot, crops to the specified rectangle, and scales up.",
  "inputSchema": {
    "type": "object",
    "properties": {
      "x": {
        "type": "integer",
        "description": "Left edge of region"
      },
      "y": {
        "type": "integer",
        "description": "Top edge of region"
      },
      "width": {
        "type": "integer",
        "description": "Width of region"
      },
      "height": {
        "type": "integer",
        "description": "Height of region"
      },
      "scale": {
        "type": "number",
        "description": "Magnification factor (default 2.0)",
        "default": 2.0
      }
    },
    "required": [
      "x",
      "y",
      "width",
      "height"
    ]
  }
}"#;

const VISION_FIND_TEMPLATE: &str = r#"{
  "name": "vision_find_template",
  "description": "[Vision] Find a template image within the screen or another image. Returns best match location and confidence.",
  "inputSchema": {
    "type": "object",
    "properties": {
      "template": {
        "type": "string",
        "description": "Path to template image to find"
      },
      "search_in": {
        "type": "string",
        "description": "Path to image or 'screen' (default: screen)"
      },
      "threshold": {
        "type": "number",
        "description": "Match confidence 0.0-1.0 (default: 0.8)",
        "default": 0.8
      },
      "monitor": {
        "type": "integer",
        "description": "Monitor index if search_in is 'screen' (default: 0)",
        "default": 0
      }
    },
    "required": [
      "template"
    ]
  }
}"#;

const VISION_ANALYZE: &str = r#"{
  "name": "vision_analyze",
  "description": "[Vision] Analyze image with Example Vision API. Uses tokens but provides intelligent analysis.",
  "inputSchema": {
    "type": "object",
    "properties": {
      "image_path": {
        "type": "string",
        "description": "Path to image file"
      },
      "query": {
        "type": "string",
        "description": "What to analyze/look for",
        "default": "Describe this image in detail"
      }
    },
    "required": [
      "image_path"
    ]
  }
}"#;

#[test]
fn the_local_tools_are_described() {
    let described: Vec<serde_json::Value> =
        get_local_definitions().iter().map(outside).collect();
    let expected = [
        VISION_SCREENSHOT,
        VISION_OCR,
        VISION_SCREENSHOT_OCR,
        VISION_CHECK_USER_INPUT,
        VISION_LOAD_IMAGE,
        VISION_DIFF,
        VISION_ZOOM,
        VISION_FIND_TEMPLATE,
    ];
    assert_eq!(described.len(), expected.len());
    for (d, e) in described.iter().zip(expected) {
        assert_eq!(*d, parsed(e));
    }
}

#[test]
fn the_service_is_described_by_its_name() {
    let described = get_api_definitions("Example");
    assert_eq!(described.len(), 1);
    assert_eq!(outside(&described[0]), parsed(VISION_ANALYZE));
}

#[test]
fn all_tools_are_the_local_ones_and_the_service() {
    let all = get_all_definitions("Example");
    let mut parts = get_local_definitions();
    parts.extend(get_api_definitions("Example"));
    assert_eq!(all, parts);
}

#[test]
fn every_name_is_its_own_and_has_the_prefix() {
    let names: Vec<String> = get_all_definitions("Example")
        .iter()
        .map(|t| t.text_at("name").unwrap())
        .collect();
    for (i, n) in names.iter().enumerate() {
        assert!(n.starts_with("vision_"));
        assert!(!names[..i].contains(n));
    }
}
