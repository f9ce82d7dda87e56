//! The failures that the library itself decides on.

use vstd::prelude::*;

verus! {

/// Why a decoding cannot go on.
#[derive(Debug)]
pub enum DecodingError {
    /// The input's extension names no format that can be decoded; the
    /// extension is carried as it was given, empty where the input has none.
    UnsupportedFormat(String),
    /// The input's extension is no valid text.
    InputFileHasInvalidUTF8FileExtension,
    /// The page of this number, counted from 1, could not be read from the
    /// document.
    FailedToGetPdfPage(usize),
    /// The resources of the page of this number, counted from 1, could not be
    /// read from the document.
    FailedToGetPdfPageResources(usize),
}

/// A decoding error, as plain values.
pub enum ErrorView {
    UnsupportedFormat(Seq<char>),
    InputFileHasInvalidUTF8FileExtension,
    FailedToGetPdfPage(nat),
    FailedToGetPdfPageResources(nat),
}

impl View for DecodingError {
    type V = ErrorView;

    open spec fn view(&self) -> ErrorView {
        match self {
            DecodingError::UnsupportedFormat(ext) => ErrorView::UnsupportedFormat(ext@),
            DecodingError::InputFileHasInvalidUTF8FileExtension => {
                ErrorView::InputFileHasInvalidUTF8FileExtension
            },
            DecodingError::FailedToGetPdfPage(n) => ErrorView::FailedToGetPdfPage(*n as nat),
            DecodingError::FailedToGetPdfPageResources(n) => {
                ErrorView::FailedToGetPdfPageResources(*n as nat)
            },
        }
    }
}

} // verus!
