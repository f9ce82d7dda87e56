use comic_pages::document::{
    extract, DocumentExtraction, FoundImage, ImageFile, PageOutcome, PageScan, Resource,
};
use comic_pages::error::DecodingError;

const JPEG: Resource = Resource::Image { encodable: true };
const RAW: Resource = Resource::Image { encodable: false };

fn page(resources: &[Resource]) -> PageScan {
    PageScan::Resources(resources.to_vec())
}

fn names(files: &[ImageFile]) -> Vec<(usize, usize, usize, String)> {
    files.iter().map(|f| (f.index, f.page, f.resource, f.name.clone())).collect()
}

fn owned(items: &[(usize, usize, usize, &str)]) -> Vec<(usize, usize, usize, String)> {
    items.iter().map(|(i, p, r, n)| (*i, *p, *r, n.to_string())).collect()
}

#[test]
fn images_are_numbered_in_document_order() {
    let scans = vec![page(&[JPEG, JPEG]), page(&[]), page(&[JPEG])];
    for skip in [true, false] {
        let files = extract(&scans, skip).unwrap();
        assert_eq!(
            names(&files),
            owned(&[(0, 1, 0, "1.jpg"), (1, 1, 1, "2.jpg"), (2, 3, 0, "3.jpg")])
        );
    }
}

#[test]
fn only_images_among_the_resources_are_collected() {
    let scans = vec![
        page(&[Resource::Other, JPEG, Resource::Other]),
        page(&[Resource::Other]),
        page(&[JPEG, Resource::Other, JPEG]),
    ];
    let files = extract(&scans, false).unwrap();
    assert_eq!(
        names(&files),
        owned(&[(0, 1, 1, "1.jpg"), (1, 3, 0, "2.jpg"), (2, 3, 2, "3.jpg")])
    );
}

#[test]
fn a_bad_page_is_skipped_when_asked() {
    let scans = vec![page(&[JPEG]), PageScan::PageFailed, page(&[JPEG, JPEG]), page(&[JPEG])];
    let files = extract(&scans, true).unwrap();
    assert_eq!(
        names(&files),
        owned(&[(0, 1, 0, "1.jpg"), (1, 3, 0, "2.jpg"), (2, 3, 1, "3.jpg"), (3, 4, 0, "4.jpg")])
    );
}

#[test]
fn a_bad_page_fails_the_extraction_otherwise() {
    let scans = vec![page(&[JPEG]), PageScan::PageFailed, page(&[JPEG, JPEG])];
    match extract(&scans, false) {
        Err(DecodingError::FailedToGetPdfPage(2)) => {}
        other => panic!("{:?}", other),
    }
}

#[test]
fn bad_resources_are_told_apart_from_a_bad_page() {
    let scans = vec![page(&[JPEG]), page(&[]), PageScan::ResourcesFailed];
    match extract(&scans, false) {
        Err(DecodingError::FailedToGetPdfPageResources(3)) => {}
        other => panic!("{:?}", other),
    }
    assert_eq!(names(&extract(&scans, true).unwrap()), owned(&[(0, 1, 0, "1.jpg")]));
}

#[test]
fn the_first_bad_page_is_the_one_reported() {
    let scans = vec![PageScan::ResourcesFailed, PageScan::PageFailed, page(&[JPEG])];
    match extract(&scans, false) {
        Err(DecodingError::FailedToGetPdfPageResources(1)) => {}
        other => panic!("{:?}", other),
    }
}

#[test]
fn images_without_encoded_bytes_are_not_written_and_keep_their_number() {
    let scans = vec![page(&[JPEG, RAW, JPEG]), page(&[RAW, JPEG])];
    let files = extract(&scans, false).unwrap();
    assert_eq!(
        names(&files),
        owned(&[(0, 1, 0, "1.jpg"), (2, 1, 2, "3.jpg"), (4, 2, 1, "5.jpg")])
    );
}

#[test]
fn the_width_follows_the_number_of_images_found() {
    let scans = vec![PageScan::Resources(vec![JPEG; 10])];
    let files = extract(&scans, false).unwrap();
    assert_eq!(files.len(), 10);
    assert_eq!(files[0].name, "01.jpg");
    assert_eq!(files[9].name, "10.jpg");
    let mixed = vec![PageScan::Resources(vec![RAW; 99]), page(&[JPEG])];
    let files = extract(&mixed, false).unwrap();
    assert_eq!(names(&files), owned(&[(99, 2, 0, "100.jpg")]));
}

#[test]
fn a_document_without_images_gives_no_files() {
    assert!(extract(&Vec::new(), false).unwrap().is_empty());
    assert!(extract(&vec![page(&[]), PageScan::PageFailed], true).unwrap().is_empty());
    assert!(extract(&vec![page(&[Resource::Other])], false).unwrap().is_empty());
}

#[test]
fn offer_page_reports_what_became_of_each_page() {
    let mut extraction = DocumentExtraction::new(true);
    assert!(extraction.skip_bad_pages());
    assert_eq!(extraction.pages_seen(), 0);
    assert!(matches!(extraction.offer_page(&page(&[JPEG, RAW])), Ok(PageOutcome::Collected)));
    assert!(matches!(
        extraction.offer_page(&PageScan::PageFailed),
        Ok(PageOutcome::Skipped(DecodingError::FailedToGetPdfPage(2)))
    ));
    assert!(matches!(
        extraction.offer_page(&PageScan::ResourcesFailed),
        Ok(PageOutcome::Skipped(DecodingError::FailedToGetPdfPageResources(3)))
    ));
    assert!(matches!(
        extraction.offer_page(&page(&[Resource::Other, JPEG])),
        Ok(PageOutcome::Collected)
    ));
    assert_eq!(extraction.pages_seen(), 4);
    assert_eq!(
        extraction.images(),
        &vec![
            FoundImage { page: 1, resource: 0, encodable: true },
            FoundImage { page: 1, resource: 1, encodable: false },
            FoundImage { page: 4, resource: 1, encodable: true },
        ]
    );
    let files = extraction.finish();
    assert_eq!(names(&files), owned(&[(0, 1, 0, "1.jpg"), (2, 4, 1, "3.jpg")]));
}

#[test]
fn a_failure_leaves_the_extraction_as_it_was() {
    let mut extraction = DocumentExtraction::new(false);
    assert!(extraction.offer_page(&page(&[JPEG])).is_ok());
    assert!(matches!(
        extraction.offer_page(&PageScan::PageFailed),
        Err(DecodingError::FailedToGetPdfPage(2))
    ));
    assert!(!extraction.skip_bad_pages());
    assert_eq!(extraction.pages_seen(), 1);
    assert_eq!(extraction.images(), &vec![FoundImage { page: 1, resource: 0, encodable: true }]);
}
