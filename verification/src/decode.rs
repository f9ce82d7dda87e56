//! The choice of the extractor from the extension of the input.

use vstd::prelude::*;
use crate::archive::{ArchiveExtraction, ArchiveView};
use crate::document::{DocumentExtraction, DocumentView};
use crate::error::{DecodingError, ErrorView};
use crate::paths::Sorting;
use crate::text::same_text;

verus! {

/// The settings of a decoding.
#[derive(Clone, Copy, Debug)]
pub struct Decode {
    /// Pass over the entries of an archive that are no images.
    pub extract_images_only: bool,
    /// Ask the image predicate with its extended set of formats.
    pub accept_extended_image_formats: bool,
    /// Put pages in order by code points instead of natural order.
    pub simple_sorting: bool,
    /// Pass over the pages of a document that cannot be read.
    pub skip_bad_pdf_pages: bool,
}

/// The extension of the input file, as far as it could be had.
#[derive(Debug)]
pub enum InputExtension {
    /// The input has no extension.
    Missing,
    /// The input has an extension that is no valid text.
    Undecodable,
    /// The extension, without its dot.
    Text(String),
}

/// The kinds of input that can be decoded.
#[derive(Clone, Copy, Debug, PartialEq, Eq, Structural)]
pub enum Format {
    /// A ZIP archive of pages.
    Archive,
    /// A PDF document with embedded images.
    Document,
}

/// A decoding that has begun: the extraction that fits the input.
pub enum Extraction {
    Archive(ArchiveExtraction),
    Document(DocumentExtraction),
}

/// A decoding that has begun, as plain values.
pub enum ExtractionView {
    Archive(ArchiveView),
    Document(DocumentView),
}

impl View for Extraction {
    type V = ExtractionView;

    open spec fn view(&self) -> ExtractionView {
        match self {
            Extraction::Archive(archive) => ExtractionView::Archive(archive@),
            Extraction::Document(document) => ExtractionView::Document(document@),
        }
    }
}

/// What `str::to_lowercase` returns for the characters `s`.
pub uninterp spec fn lowercase_of(s: Seq<char>) -> Seq<char>;

/// The lowercase form of `s`.
///
/// Wraps `str::to_lowercase`, which the standard library documents as
/// returning the lowercase equivalent of the string slice, by the Unicode
/// property `Lowercase`. The result depends on the characters alone; the
/// contract gives it the name `lowercase_of` and says nothing else of it.
#[verifier::external_body]
fn to_lowercase(s: &str) -> (out: String)
    ensures
        out@ == lowercase_of(s@),
{
    s.to_lowercase()
}

/// The format that an extension in lowercase names.
pub open spec fn format_named(lowered: Seq<char>) -> Option<Format> {
    if lowered == "zip"@ || lowered == "cbz"@ {
        Some(Format::Archive)
    } else if lowered == "pdf"@ {
        Some(Format::Document)
    } else {
        None
    }
}

/// The policy that the settings ask for.
pub open spec fn sorting_of(dec: Decode) -> Sorting {
    if dec.simple_sorting {
        Sorting::Simple
    } else {
        Sorting::Natural
    }
}

/// The extraction that a decoding of the given format begins with, under the
/// settings `dec`: nothing staged, nothing read.
pub open spec fn fresh(dec: Decode, format: Format) -> ExtractionView {
    match format {
        Format::Archive => ExtractionView::Archive(
            ArchiveView {
                extract_images_only: dec.extract_images_only,
                accept_extended_image_formats: dec.accept_extended_image_formats,
                sorting: sorting_of(dec),
                pages: Seq::empty(),
            },
        ),
        Format::Document => ExtractionView::Document(
            DocumentView { skip_bad_pages: dec.skip_bad_pdf_pages, pages_seen: 0, images: Seq::empty() },
        ),
    }
}

/// How a decoding begins for an input whose extension is `extension` and
/// reads `lowered` in lowercase: with the extraction of the format that
/// `lowered` names, or with the failure that carries `extension` as given.
pub open spec fn begun(dec: Decode, extension: Seq<char>, lowered: Seq<char>) -> Result<
    ExtractionView,
    ErrorView,
> {
    match format_named(lowered) {
        Some(format) => Ok(fresh(dec, format)),
        None => Err(ErrorView::UnsupportedFormat(extension)),
    }
}

/// How a decoding begins for an input with the given extension.
pub open spec fn decoding(dec: Decode, extension: InputExtension) -> Result<ExtractionView, ErrorView> {
    match extension {
        InputExtension::Missing => Err(ErrorView::UnsupportedFormat(Seq::empty())),
        InputExtension::Undecodable => Err(ErrorView::InputFileHasInvalidUTF8FileExtension),
        InputExtension::Text(text) => begun(dec, text@, lowercase_of(text@)),
    }
}

/// The outcome of beginning a decoding, as plain values.
pub open spec fn outcome_view(out: Result<Extraction, DecodingError>) -> Result<
    ExtractionView,
    ErrorView,
> {
    match out {
        Ok(extraction) => Ok(extraction@),
        Err(error) => Err(error@),
    }
}

/// The format that an extension in lowercase names: `zip` and `cbz` an
/// archive, `pdf` a document, anything else none.
pub fn format_of(lowered: &str) -> (out: Option<Format>)
    ensures
        out == format_named(lowered@),
{
    if same_text(lowered, "zip") || same_text(lowered, "cbz") {
        Some(Format::Archive)
    } else if same_text(lowered, "pdf") {
        Some(Format::Document)
    } else {
        None
    }
}

/// Begins the extraction of an input of the given format.
pub fn begin(dec: &Decode, format: Format) -> (out: Extraction)
    ensures
        out@ == fresh(*dec, format),
{
    match format {
        Format::Archive => Extraction::Archive(
            ArchiveExtraction::new(
                dec.extract_images_only,
                dec.accept_extended_image_formats,
                if dec.simple_sorting {
                    Sorting::Simple
                } else {
                    Sorting::Natural
                },
            ),
        ),
        Format::Document => Extraction::Document(DocumentExtraction::new(dec.skip_bad_pdf_pages)),
    }
}

/// Begins a decoding for an input whose extension is `extension` and reads
/// `lowered` in lowercase.
pub fn decode_lowercased(dec: &Decode, extension: &str, lowered: &str) -> (out: Result<
    Extraction,
    DecodingError,
>)
    ensures
        outcome_view(out) == begun(*dec, extension@, lowered@),
{
    match format_of(lowered) {
        Some(format) => Ok(begin(dec, format)),
        None => Err(DecodingError::UnsupportedFormat(String::from_str(extension))),
    }
}

/// Begins a decoding: chooses the extractor by the extension of the input,
/// without regard to case. `zip` and `cbz` begin the extraction of an
/// archive, `pdf` that of a document. Any other extension fails as
/// unsupported and is carried as given; an input without extension fails as
/// unsupported with an empty extension, one whose extension is no valid text
/// as wrongly encoded.
pub fn decode(dec: &Decode, extension: &InputExtension) -> (out: Result<Extraction, DecodingError>)
    ensures
        outcome_view(out) == decoding(*dec, *extension),
{
    match extension {
        InputExtension::Missing => Err(DecodingError::UnsupportedFormat(String::new())),
        InputExtension::Undecodable => Err(DecodingError::InputFileHasInvalidUTF8FileExtension),
        InputExtension::Text(text) => {
            let lowered = to_lowercase(text.as_str());
            decode_lowercased(dec, text.as_str(), lowered.as_str())
        },
    }
}

} // verus!
