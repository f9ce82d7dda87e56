use comic_pages::decode::{begin, decode, decode_lowercased, format_of, Decode, Extraction, Format, InputExtension};
use comic_pages::error::DecodingError;
use comic_pages::paths::Sorting;

fn settings() -> Decode {
    Decode {
        extract_images_only: true,
        accept_extended_image_formats: false,
        simple_sorting: false,
        skip_bad_pdf_pages: false,
    }
}

fn text(ext: &str) -> InputExtension {
    InputExtension::Text(ext.to_string())
}

#[test]
fn an_unsupported_extension_is_reported_as_given() {
    match decode(&settings(), &text("txt")) {
        Err(DecodingError::UnsupportedFormat(ext)) => assert_eq!(ext, "txt"),
        _ => panic!("txt must not be decoded"),
    }
    match decode(&settings(), &text("TxT")) {
        Err(DecodingError::UnsupportedFormat(ext)) => assert_eq!(ext, "TxT"),
        _ => panic!("TxT must not be decoded"),
    }
    match decode(&settings(), &text("")) {
        Err(DecodingError::UnsupportedFormat(ext)) => assert_eq!(ext, ""),
        _ => panic!("an empty extension must not be decoded"),
    }
}

#[test]
fn a_missing_extension_is_unsupported_with_an_empty_marker() {
    match decode(&settings(), &InputExtension::Missing) {
        Err(DecodingError::UnsupportedFormat(ext)) => assert_eq!(ext, ""),
        _ => panic!("no extension must not be decoded"),
    }
}

#[test]
fn an_undecodable_extension_is_its_own_error() {
    assert!(matches!(
        decode(&settings(), &InputExtension::Undecodable),
        Err(DecodingError::InputFileHasInvalidUTF8FileExtension)
    ));
}

#[test]
fn archives_are_chosen_by_zip_and_cbz_in_any_case() {
    for ext in ["zip", "cbz", "ZIP", "CBZ", "Zip", "cBz"] {
        match decode(&settings(), &text(ext)) {
            Ok(Extraction::Archive(archive)) => {
                assert!(archive.extract_images_only());
                assert!(!archive.accept_extended_image_formats());
                assert_eq!(archive.sorting(), Sorting::Natural);
                assert!(archive.staged_pages().is_empty());
            }
            _ => panic!("{} names an archive", ext),
        }
    }
}

#[test]
fn documents_are_chosen_by_pdf_in_any_case() {
    for ext in ["pdf", "PDF", "Pdf"] {
        match decode(&settings(), &text(ext)) {
            Ok(Extraction::Document(document)) => {
                assert!(!document.skip_bad_pages());
                assert_eq!(document.pages_seen(), 0);
                assert!(document.images().is_empty());
            }
            _ => panic!("{} names a document", ext),
        }
    }
}

#[test]
fn the_settings_reach_the_extraction() {
    let dec = Decode {
        extract_images_only: false,
        accept_extended_image_formats: true,
        simple_sorting: true,
        skip_bad_pdf_pages: true,
    };
    match decode(&dec, &text("cbz")) {
        Ok(Extraction::Archive(archive)) => {
            assert!(!archive.extract_images_only());
            assert!(archive.accept_extended_image_formats());
            assert_eq!(archive.sorting(), Sorting::Simple);
        }
        _ => panic!("cbz names an archive"),
    }
    match decode(&dec, &text("pdf")) {
        Ok(Extraction::Document(document)) => assert!(document.skip_bad_pages()),
        _ => panic!("pdf names a document"),
    }
}

#[test]
fn near_misses_are_unsupported() {
    for ext in ["zi", "zipp", "cbr", "pd", "pdfx", ".zip", "zip ", "7z", "rar"] {
        assert!(matches!(decode(&settings(), &text(ext)), Err(DecodingError::UnsupportedFormat(_))));
    }
}

#[test]
fn the_lowercase_form_decides_and_the_given_form_is_reported() {
    assert!(matches!(decode_lowercased(&settings(), "ZIP", "zip"), Ok(Extraction::Archive(_))));
    assert!(matches!(decode_lowercased(&settings(), "Pdf", "pdf"), Ok(Extraction::Document(_))));
    // The form handed in as lowercase is taken as it is.
    match decode_lowercased(&settings(), "ZIP", "ZIP") {
        Err(DecodingError::UnsupportedFormat(ext)) => assert_eq!(ext, "ZIP"),
        _ => panic!("ZIP is not in lowercase"),
    }
}

#[test]
fn formats_are_named_in_lowercase() {
    assert_eq!(format_of("zip"), Some(Format::Archive));
    assert_eq!(format_of("cbz"), Some(Format::Archive));
    assert_eq!(format_of("pdf"), Some(Format::Document));
    assert_eq!(format_of("PDF"), None);
    assert_eq!(format_of(""), None);
    assert_eq!(format_of("txt"), None);
}

#[test]
fn begin_starts_the_extraction_of_the_format() {
    assert!(matches!(begin(&settings(), Format::Archive), Extraction::Archive(_)));
    assert!(matches!(begin(&settings(), Format::Document), Extraction::Document(_)));
}
