//! Format-preserving translation pipeline for line-oriented localization documents.
//!
//! A document is repaired, split from its language header and cut into slices at entry
//! boundaries; each slice is sent to a remote model with an excerpt of the glossaries;
//! each answer is compared with its source for lost keys and markup tokens; and the
//! translated slices are merged, in line order, under the header of the target
//! language. Reading, writing and the remote calls are left to the caller.

pub mod error;
pub mod json;
pub mod pattern;
pub mod pipeline;
pub mod postprocess;
pub mod preprocess;
pub mod text;
pub mod translate;
pub mod utils;

pub use error::{PostprocessError, TranslateError, TranslationError};
