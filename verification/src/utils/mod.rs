//! Rules for finding and reading files.

pub mod fs;

pub use fs::{
    data_file_missing_message, first_existing, glossary_candidates, has_yaml_extension, strip_bom,
};
