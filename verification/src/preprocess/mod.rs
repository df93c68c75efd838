//! Preparation of a raw document: repair of malformed lines, removal of the language
//! header, naming of the target file.

pub mod file_prepare;
pub mod yaml_fixer;

pub use file_prepare::generate_target_filename;
pub use yaml_fixer::{fix_yaml_content, indent_like, trim_lang_header};
