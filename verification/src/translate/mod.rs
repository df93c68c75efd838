//! Translation stage: chunking, glossary lookup, prompt building and validation.

pub mod batcher;
pub mod glossary;
pub mod splitter;
pub mod translator;
pub mod validator;

pub use batcher::{BatchAction, BatchEvent, BatchProgress, BatchState, TranslationBatcher};
pub use glossary::{EntryView, Glossary, GlossaryEntry};
pub use splitter::split_yaml_content;
pub use translator::{Message, Role, Translation, Translator};
pub use validator::{compare_tokens, FormatValidator, Problem, ProblemView};
