//! Screenshot, OCR and image analysis tools.
pub mod analyze;
pub mod answers;
pub mod arithmetic;
pub mod backend;
pub mod bits;
pub mod boxes;
pub mod catalogue;
pub mod course;
pub mod decode;
pub mod definitions;
pub mod detect;
pub mod diff;
pub mod encoding;
pub mod execute;
pub mod float;
pub mod flood;
pub mod json;
pub mod media;
pub mod messages;
pub mod normalize;
pub mod outcome;
pub mod pipeline;
pub mod raster;
pub mod recognize;
pub mod resume;
pub mod rounding;
pub mod screen;
pub mod single;
pub mod template;
pub mod tensor;
pub mod text;
pub mod words;
