//! Reassembly of translated slices into one document.

pub mod merger;
pub mod writer;

pub use merger::{merge_slices, reconstruct_yaml_file, SliceView, TranslationSlice};
pub use writer::with_bom;
