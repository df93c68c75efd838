//! Error values of the pipeline.

use vstd::prelude::*;

verus! {

/// Failures while putting translated slices back together.
#[derive(Debug)]
pub enum PostprocessError {
    /// There was no slice to merge.
    InconsistentSlices,
    /// Two neighbouring slices do not cover adjacent line ranges.
    MergeFailed(String),
}

/// Failures of the translation stage.
#[derive(Debug)]
pub enum TranslateError {
    /// A step of the translation could not be carried out.
    ValidationFailed(String),
    /// A glossary could not be loaded.
    GlossaryError(String),
    /// The remote model answered without any candidate.
    InvalidResponse(String),
}

/// Every failure that the pipeline reports.
#[derive(Debug)]
pub enum TranslationError {
    /// A file could not be read or written.
    Io(String),
    /// A resource was not found in any of the searched places.
    FileNotFound(String),
    /// Reassembly failed.
    Postprocess(PostprocessError),
    /// Translation failed.
    Translate(TranslateError),
}

/// The mathematical value of an error: its kind and its message.
pub enum ErrorView {
    Io(Seq<char>),
    FileNotFound(Seq<char>),
    InconsistentSlices,
    MergeFailed(Seq<char>),
    ValidationFailed(Seq<char>),
    GlossaryError(Seq<char>),
    InvalidResponse(Seq<char>),
}

impl View for PostprocessError {
    type V = ErrorView;

    open spec fn view(&self) -> ErrorView {
        match self {
            PostprocessError::InconsistentSlices => ErrorView::InconsistentSlices,
            PostprocessError::MergeFailed(m) => ErrorView::MergeFailed(m@),
        }
    }
}

impl View for TranslateError {
    type V = ErrorView;

    open spec fn view(&self) -> ErrorView {
        match self {
            TranslateError::ValidationFailed(m) => ErrorView::ValidationFailed(m@),
            TranslateError::GlossaryError(m) => ErrorView::GlossaryError(m@),
            TranslateError::InvalidResponse(m) => ErrorView::InvalidResponse(m@),
        }
    }
}

impl View for TranslationError {
    type V = ErrorView;

    open spec fn view(&self) -> ErrorView {
        match self {
            TranslationError::Io(m) => ErrorView::Io(m@),
            TranslationError::FileNotFound(m) => ErrorView::FileNotFound(m@),
            TranslationError::Postprocess(e) => e@,
            TranslationError::Translate(e) => e@,
        }
    }
}

/// The mathematical value of a text result.
pub open spec fn text_result(r: Result<String, TranslationError>) -> Result<Seq<char>, ErrorView> {
    match r {
        Ok(s) => Ok(s@),
        Err(e) => Err(e@),
    }
}

} // verus!
