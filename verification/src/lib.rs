//! Verified core of the badtv phrase-collage tool: text matching, caption and
//! search-result parsing, clip selection and model-path handling.

pub mod align;
pub mod delay;
pub mod fetch;
pub mod model;
pub mod phrase;
pub mod process;
pub mod scan;
pub mod search;
pub mod srt;
pub mod text;
pub mod tui;
