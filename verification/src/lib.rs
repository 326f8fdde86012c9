//! Detection of personally identifiable information in text.
//!
//! A model gives every token of a text a score for each class; its labels mark where
//! spans of personal information begin and end. This library turns the scores into
//! labels, the labels into byte spans of the text, and the spans into reports, JSON and
//! redacted text. It also says which tensors a model is loaded from, which tokens look
//! at which, and which experts a token goes to. The arithmetic of the model stands
//! outside: a score is the bit pattern of an IEEE 754 binary32 number, the order of
//! scores is decided on the bits, and whoever calls a decoder hands in the addition.
//!
//! Span offsets are byte offsets into the input text, not char indices.

pub mod attention;
pub mod attention_laws;
pub mod config;
pub mod decoders;
pub mod decoding_laws;
pub mod detection_laws;
pub mod engine;
pub mod extraction_laws;
pub mod inspection;
pub mod json;
pub mod label_laws;
pub mod labels;
pub mod output_laws;
pub mod overlap_laws;
pub mod redaction;
pub mod redaction_laws;
pub mod report;
pub mod routing;
pub mod routing_laws;
pub mod score;
pub mod settings;
pub mod settings_laws;
pub mod sorting;
pub mod span_laws;
pub mod spans;
pub mod stream;
pub mod text;
pub mod timing;
pub mod timing_laws;
pub mod view_laws;
pub mod viterbi;
pub mod viterbi_laws;
pub mod weight_laws;
pub mod weights;

pub use engine::{DecoderMode, DetectionResult, Engine, DEFAULT_OPERATING_POINT};
pub use json::{detection_error_json, detection_json};
pub use redaction::redact;
pub use spans::{extract_spans, DetectedSpan};
pub use viterbi::argmax_decode;
