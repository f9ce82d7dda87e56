//! Extraction of the images of a document: which pages contribute images,
//! when a page that cannot be read ends the extraction, and the names under
//! which the images are written.

use vstd::prelude::*;
use crate::error::{DecodingError, ErrorView};
use crate::naming::{final_name, lemma_page_names_distinct, page_name};

verus! {

/// An object among the resources of a page, as far as the extraction looks
/// at it.
#[derive(Clone, Copy, Debug, PartialEq, Eq, Structural)]
pub enum Resource {
    /// A raster image; `encodable` says whether its encoded bytes can be had.
    Image { encodable: bool },
    /// Anything else, and what could not be resolved.
    Other,
}

/// What reading one page of the document gave.
#[derive(Debug)]
pub enum PageScan {
    /// The objects among the page's resources, in the order of the resource
    /// dictionary.
    Resources(Vec<Resource>),
    /// The page itself could not be read.
    PageFailed,
    /// The page was read, its resources could not be.
    ResourcesFailed,
}

/// An image object found in the document.
#[derive(Clone, Copy, Debug, PartialEq, Eq, Structural)]
pub struct FoundImage {
    /// The number of the page it was found on, counted from 1.
    pub page: usize,
    /// Its position among the resources of that page, counted from 0.
    pub resource: usize,
    /// Whether its encoded bytes can be had.
    pub encodable: bool,
}

/// What became of a page that did not end the extraction.
#[derive(Debug)]
pub enum PageOutcome {
    /// The images of the page were added to those found so far.
    Collected,
    /// The page could not be read and contributes no image; the failure is
    /// carried as a warning.
    Skipped(DecodingError),
}

/// An image to write: its position among all images found, the page it was
/// found on and its position among the resources of that page, and the name
/// of its file.
#[derive(Debug)]
pub struct ImageFile {
    pub index: usize,
    pub page: usize,
    pub resource: usize,
    pub name: String,
}

/// An image to write, as plain values.
pub struct ImageFileView {
    pub index: nat,
    pub page: nat,
    pub resource: nat,
    pub name: Seq<char>,
}

impl View for ImageFile {
    type V = ImageFileView;

    open spec fn view(&self) -> ImageFileView {
        ImageFileView {
            index: self.index as nat,
            page: self.page as nat,
            resource: self.resource as nat,
            name: self.name@,
        }
    }
}

/// The image files held by `files`, as plain values.
pub open spec fn image_file_views(files: Seq<ImageFile>) -> Seq<ImageFileView> {
    Seq::new(files.len(), |i: int| files[i]@)
}

/// The extraction of one document: its setting, the number of pages read so
/// far, and the images found on them.
pub struct DocumentExtraction {
    skip_bad_pages: bool,
    pages_seen: usize,
    images: Vec<FoundImage>,
}

/// The state of a document extraction, as plain values.
pub struct DocumentView {
    /// Whether a page that cannot be read is passed over.
    pub skip_bad_pages: bool,
    /// The number of pages offered so far.
    pub pages_seen: nat,
    /// The images found so far, in document order.
    pub images: Seq<FoundImage>,
}

impl View for DocumentExtraction {
    type V = DocumentView;

    closed spec fn view(&self) -> DocumentView {
        DocumentView {
            skip_bad_pages: self.skip_bad_pages,
            pages_seen: self.pages_seen as nat,
            images: self.images@,
        }
    }
}

/// The images among the first `upto` resources of the page of number `page`:
/// every resource that is an image, in the order of the resources.
pub open spec fn images_among(page: usize, resources: Seq<Resource>, upto: nat) -> Seq<FoundImage>
    decreases upto,
{
    if upto == 0 {
        Seq::empty()
    } else {
        let before = images_among(page, resources, (upto - 1) as nat);
        match resources[upto - 1] {
            Resource::Image { encodable } => before.push(
                FoundImage { page, resource: (upto - 1) as usize, encodable },
            ),
            Resource::Other => before,
        }
    }
}

/// The images that the page of number `page` contributes.
pub open spec fn images_of_page(page: usize, resources: Seq<Resource>) -> Seq<FoundImage> {
    images_among(page, resources, resources.len())
}

/// The name of the file of the image at position `index` among `count`
/// images.
pub open spec fn image_name(index: nat, count: nat) -> Seq<char> {
    page_name(index, count, Some("jpg"@))
}

/// The files written for the first `upto` of `images`: one for each image
/// whose encoded bytes can be had, in document order, named by the image's
/// position among all images found.
pub open spec fn written_upto(images: Seq<FoundImage>, upto: nat) -> Seq<ImageFileView>
    decreases upto,
{
    if upto == 0 {
        Seq::empty()
    } else {
        let before = written_upto(images, (upto - 1) as nat);
        let image = images[upto - 1];
        if image.encodable {
            before.push(
                ImageFileView {
                    index: (upto - 1) as nat,
                    page: image.page as nat,
                    resource: image.resource as nat,
                    name: image_name((upto - 1) as nat, images.len()),
                },
            )
        } else {
            before
        }
    }
}

/// The files written for `images`.
pub open spec fn written(images: Seq<FoundImage>) -> Seq<ImageFileView> {
    written_upto(images, images.len())
}

impl DocumentExtraction {
    /// Starts the extraction of a document, with no page read.
    pub fn new(skip_bad_pages: bool) -> (out: DocumentExtraction)
        ensures
            out@ == (DocumentView { skip_bad_pages, pages_seen: 0, images: Seq::empty() }),
    {
        DocumentExtraction { skip_bad_pages, pages_seen: 0, images: Vec::new() }
    }

    /// Whether a page that cannot be read is passed over.
    pub fn skip_bad_pages(&self) -> (out: bool)
        ensures
            out == self@.skip_bad_pages,
    {
        self.skip_bad_pages
    }

    /// The number of pages offered so far.
    pub fn pages_seen(&self) -> (out: usize)
        ensures
            out == self@.pages_seen,
    {
        self.pages_seen
    }

    /// The images found so far, in document order.
    pub fn images(&self) -> (out: &Vec<FoundImage>)
        ensures
            out@ == self@.images,
    {
        &self.images
    }

    /// Takes what reading the next page gave, in document order. The images
    /// of a page that was read are added to those found so far. A page that
    /// could not be read is passed over with a warning where bad pages are
    /// skipped; otherwise it ends the extraction with an error and leaves the
    /// state as it was. Both carry the number of the page, counted from 1.
    pub fn offer_page(&mut self, scan: &PageScan) -> (out: Result<PageOutcome, DecodingError>)
        requires
            old(self)@.pages_seen < usize::MAX,
        ensures
            final(self)@.skip_bad_pages == old(self)@.skip_bad_pages,
            out is Err ==> final(self)@ == old(self)@,
            out is Ok ==> final(self)@.pages_seen == old(self)@.pages_seen + 1,
            match scan {
                PageScan::Resources(resources) => out matches Ok(PageOutcome::Collected) && final(self)@.images == old(self)@.images + images_of_page(
                    (old(self)@.pages_seen + 1) as usize,
                    resources@,
                ),
                PageScan::PageFailed => if old(self)@.skip_bad_pages {
                    &&& out matches Ok(PageOutcome::Skipped(warning))
                    &&& warning@ == ErrorView::FailedToGetPdfPage(old(self)@.pages_seen + 1)
                    &&& final(self)@.images == old(self)@.images
                } else {
                    &&& out matches Err(error)
                    &&& error@ == ErrorView::FailedToGetPdfPage(old(self)@.pages_seen + 1)
                },
                PageScan::ResourcesFailed => if old(self)@.skip_bad_pages {
                    &&& out matches Ok(PageOutcome::Skipped(warning))
                    &&& warning@ == ErrorView::FailedToGetPdfPageResources(
                        old(self)@.pages_seen + 1,
                    )
                    &&& final(self)@.images == old(self)@.images
                } else {
                    &&& out matches Err(error)
                    &&& error@ == ErrorView::FailedToGetPdfPageResources(old(self)@.pages_seen + 1)
                },
            },
    {
        let page: usize = self.pages_seen + 1;
        match scan {
            PageScan::Resources(resources) => {
                let ghost before = self.images@;
                let mut k: usize = 0;
                while k < resources.len()
                    invariant
                        k <= resources@.len(),
                        self.skip_bad_pages == old(self).skip_bad_pages,
                        self.pages_seen == old(self).pages_seen,
                        self.images@ == before + images_among(page, resources@, k as nat),
                    decreases resources@.len() - k,
                {
                    let ghost so_far = images_among(page, resources@, k as nat);
                    match resources[k] {
                        Resource::Image { encodable } => {
                            let found = FoundImage { page, resource: k, encodable };
                            self.images.push(found);
                            assert(self.images@ =~= before + so_far.push(found));
                        },
                        Resource::Other => {},
                    }
                    k += 1;
                }
                self.pages_seen = page;
                Ok(PageOutcome::Collected)
            },
            PageScan::PageFailed => {
                if self.skip_bad_pages {
                    self.pages_seen = page;
                    Ok(PageOutcome::Skipped(DecodingError::FailedToGetPdfPage(page)))
                } else {
                    Err(DecodingError::FailedToGetPdfPage(page))
                }
            },
            PageScan::ResourcesFailed => {
                if self.skip_bad_pages {
                    self.pages_seen = page;
                    Ok(PageOutcome::Skipped(DecodingError::FailedToGetPdfPageResources(page)))
                } else {
                    Err(DecodingError::FailedToGetPdfPageResources(page))
                }
            },
        }
    }

    /// Ends the extraction: the files to write, in document order. Their
    /// names, in this order, are the result of the extraction.
    pub fn finish(self) -> (files: Vec<ImageFile>)
        ensures
            image_file_views(files@) == written(self@.images),
    {
        let count = self.images.len();
        let jpg = Some(String::from_str("jpg"));
        let mut files: Vec<ImageFile> = Vec::new();
        let mut i: usize = 0;
        while i < count
            invariant
                count == self.images@.len(),
                i <= count,
                jpg matches Some(ext) && ext@ == "jpg"@,
                image_file_views(files@) == written_upto(self.images@, i as nat),
            decreases count - i,
        {
            let image = self.images[i];
            if image.encodable {
                let ghost before = image_file_views(files@);
                files.push(
                    ImageFile {
                        index: i,
                        page: image.page,
                        resource: image.resource,
                        name: final_name(i, count, &jpg),
                    },
                );
                assert(image_file_views(files@) =~= before.push(files@[files@.len() - 1]@));
            }
            i += 1;
        }
        files
    }
}

/// Whether `files` holds a file for the image at position `index`.
pub open spec fn writes(files: Seq<ImageFileView>, index: nat) -> bool {
    exists|k: int| 0 <= k < files.len() && (#[trigger] files[k]).index == index
}

/// What is written for the first `upto` images: a file for every image among
/// them whose encoded bytes can be had and for no other, in document order,
/// each named by its position among all images found.
pub proof fn lemma_written_upto(images: Seq<FoundImage>, upto: nat)
    requires
        upto <= images.len(),
    ensures
        written_upto(images, upto).len() <= upto,
        forall|k: int|
            0 <= k < written_upto(images, upto).len() ==> {
                let file = #[trigger] written_upto(images, upto)[k];
                &&& file.index < upto
                &&& images[file.index as int].encodable
                &&& file.page == images[file.index as int].page
                &&& file.resource == images[file.index as int].resource
                &&& file.name == image_name(file.index, images.len())
            },
        forall|k: int, l: int|
            0 <= k < l < written_upto(images, upto).len() ==> (#[trigger] written_upto(
                images,
                upto,
            )[k]).index < (#[trigger] written_upto(images, upto)[l]).index,
        forall|i: int|
            0 <= i < upto && (#[trigger] images[i]).encodable ==> writes(
                written_upto(images, upto),
                i as nat,
            ),
    decreases upto,
{
    if upto > 0 {
        let before = written_upto(images, (upto - 1) as nat);
        let now = written_upto(images, upto);
        lemma_written_upto(images, (upto - 1) as nat);
        assert forall|i: int| 0 <= i < upto && (#[trigger] images[i]).encodable implies writes(
            now,
            i as nat,
        ) by {
            if i < upto - 1 {
                assert(writes(before, i as nat));
                let k = choose|k: int| 0 <= k < before.len() && (#[trigger] before[k]).index == i;
                assert(now[k].index == i);
            } else {
                assert(now[now.len() - 1].index == i);
            }
        }
    }
}

/// The files of a document extraction: one for every image whose encoded
/// bytes can be had and for no other, in document order, under names of
/// which no two are the same.
pub proof fn lemma_written(images: Seq<FoundImage>)
    ensures
        forall|k: int|
            0 <= k < written(images).len() ==> {
                let file = #[trigger] written(images)[k];
                &&& file.index < images.len()
                &&& images[file.index as int].encodable
                &&& file.page == images[file.index as int].page
                &&& file.resource == images[file.index as int].resource
                &&& file.name == image_name(file.index, images.len())
            },
        forall|k: int, l: int|
            0 <= k < l < written(images).len() ==> (#[trigger] written(images)[k]).index < (
            #[trigger] written(images)[l]).index && written(images)[k].name != written(
                images,
            )[l].name,
        forall|i: int|
            0 <= i < images.len() && (#[trigger] images[i]).encodable ==> writes(
                written(images),
                i as nat,
            ),
{
    lemma_written_upto(images, images.len());
    let files = written(images);
    assert forall|k: int, l: int| 0 <= k < l < files.len() implies (#[trigger] files[k]).index < (
    #[trigger] files[l]).index && files[k].name != files[l].name by {
        lemma_page_names_distinct(
            files[k].index,
            files[l].index,
            images.len(),
            Some("jpg"@),
            Some("jpg"@),
        );
    }
}

/// What reading one page gave, as plain values.
pub enum ScanView {
    Resources(Seq<Resource>),
    PageFailed,
    ResourcesFailed,
}

impl View for PageScan {
    type V = ScanView;

    open spec fn view(&self) -> ScanView {
        match self {
            PageScan::Resources(resources) => ScanView::Resources(resources@),
            PageScan::PageFailed => ScanView::PageFailed,
            PageScan::ResourcesFailed => ScanView::ResourcesFailed,
        }
    }
}

/// The page scans held by `scans`, as plain values.
pub open spec fn scan_views(scans: Seq<PageScan>) -> Seq<ScanView> {
    Seq::new(scans.len(), |i: int| scans[i]@)
}

/// The images found on the pages `scans`, taken in document order, or the
/// failure of the first page that could not be read where such pages are not
/// skipped.
pub open spec fn collected(scans: Seq<ScanView>, skip_bad_pages: bool) -> Result<
    Seq<FoundImage>,
    ErrorView,
>
    decreases scans.len(),
{
    if scans.len() == 0 {
        Ok(Seq::empty())
    } else {
        match collected(scans.drop_last(), skip_bad_pages) {
            Err(error) => Err(error),
            Ok(images) => match scans.last() {
                ScanView::Resources(resources) => Ok(
                    images + images_of_page(scans.len() as usize, resources),
                ),
                ScanView::PageFailed => if skip_bad_pages {
                    Ok(images)
                } else {
                    Err(ErrorView::FailedToGetPdfPage(scans.len()))
                },
                ScanView::ResourcesFailed => if skip_bad_pages {
                    Ok(images)
                } else {
                    Err(ErrorView::FailedToGetPdfPageResources(scans.len()))
                },
            },
        }
    }
}

/// The outcome of the extraction of the pages `scans`: the files to write,
/// or the failure that ends it.
pub open spec fn extracted(scans: Seq<ScanView>, skip_bad_pages: bool) -> Result<
    Seq<ImageFileView>,
    ErrorView,
> {
    match collected(scans, skip_bad_pages) {
        Ok(images) => Ok(written(images)),
        Err(error) => Err(error),
    }
}

/// The outcome of an extraction, as plain values.
pub open spec fn files_view(out: Result<Vec<ImageFile>, DecodingError>) -> Result<
    Seq<ImageFileView>,
    ErrorView,
> {
    match out {
        Ok(files) => Ok(image_file_views(files@)),
        Err(error) => Err(error@),
    }
}

/// The extraction of a whole document, given by what reading each of its
/// pages gave, in document order: the files to write, in document order, or
/// the failure of the first page that could not be read where such pages are
/// not skipped.
pub fn extract(scans: &Vec<PageScan>, skip_bad_pages: bool) -> (out: Result<
    Vec<ImageFile>,
    DecodingError,
>)
    ensures
        files_view(out) == extracted(scan_views(scans@), skip_bad_pages),
{
    let mut extraction = DocumentExtraction::new(skip_bad_pages);
    let mut i: usize = 0;
    assert(scan_views(scans@).take(0) =~= Seq::<ScanView>::empty());
    while i < scans.len()
        invariant
            i <= scans@.len(),
            extraction@.skip_bad_pages == skip_bad_pages,
            extraction@.pages_seen == i,
            collected(scan_views(scans@).take(i as int), skip_bad_pages) == Ok::<
                Seq<FoundImage>,
                ErrorView,
            >(extraction@.images),
        decreases scans@.len() - i,
    {
        let ghost upto = scan_views(scans@).take(i + 1);
        assert(upto.drop_last() =~= scan_views(scans@).take(i as int));
        assert(upto.last() == scans@[i as int]@);
        match extraction.offer_page(&scans[i]) {
            Ok(_) => {},
            Err(error) => {
                proof {
                    lemma_failure_stays(scan_views(scans@), skip_bad_pages, (i + 1) as nat);
                }
                return Err(error);
            },
        }
        i += 1;
    }
    assert(scan_views(scans@).take(i as int) =~= scan_views(scans@));
    Ok(extraction.finish())
}

/// A failure among the first pages is the failure of the whole document.
pub proof fn lemma_failure_stays(scans: Seq<ScanView>, skip_bad_pages: bool, upto: nat)
    requires
        upto <= scans.len(),
        collected(scans.take(upto as int), skip_bad_pages) is Err,
    ensures
        collected(scans, skip_bad_pages) == collected(scans.take(upto as int), skip_bad_pages),
    decreases scans.len(),
{
    if upto < scans.len() {
        assert(scans.drop_last().take(upto as int) =~= scans.take(upto as int));
        lemma_failure_stays(scans.drop_last(), skip_bad_pages, upto);
    } else {
        assert(scans.take(upto as int) =~= scans);
    }
}

/// Whether the page of `scan` could not be read.
pub open spec fn is_bad(scan: ScanView) -> bool {
    !(scan is Resources)
}

/// Where bad pages are skipped the extraction of a document never fails;
/// where they are not, it fails exactly when some page could not be read.
pub proof fn lemma_failure_needs_bad_page(scans: Seq<ScanView>, skip_bad_pages: bool)
    ensures
        skip_bad_pages ==> collected(scans, skip_bad_pages) is Ok,
        !skip_bad_pages ==> (collected(scans, skip_bad_pages) is Err <==> exists|i: int|
            0 <= i < scans.len() && is_bad(#[trigger] scans[i])),
    decreases scans.len(),
{
    if scans.len() > 0 {
        let before = scans.drop_last();
        lemma_failure_needs_bad_page(before, skip_bad_pages);
        if !skip_bad_pages {
            if collected(scans, skip_bad_pages) is Err {
                if collected(before, skip_bad_pages) is Err {
                    let i = choose|i: int| 0 <= i < before.len() && is_bad(#[trigger] before[i]);
                    assert(is_bad(scans[i]));
                } else {
                    assert(is_bad(scans[scans.len() - 1]));
                }
            } else {
                assert forall|i: int| 0 <= i < scans.len() implies !is_bad(#[trigger] scans[i]) by {
                    if i < scans.len() - 1 {
                        assert(!is_bad(before[i]));
                    }
                }
            }
        }
    }
}

/// Whether `images` holds the image that is the resource at `position`.
pub open spec fn finds(images: Seq<FoundImage>, position: int) -> bool {
    exists|k: int| 0 <= k < images.len() && (#[trigger] images[k]).resource == position
}

/// What a page contributes: every resource that is an image and no other,
/// in the order of the resources, each with the number of the page and with
/// its own flag.
pub proof fn lemma_images_among(page: usize, resources: Seq<Resource>, upto: nat)
    requires
        upto <= resources.len() <= usize::MAX,
    ensures
        images_among(page, resources, upto).len() <= upto,
        forall|k: int|
            0 <= k < images_among(page, resources, upto).len() ==> {
                let image = #[trigger] images_among(page, resources, upto)[k];
                &&& image.page == page
                &&& image.resource < upto
                &&& resources[image.resource as int] == (Resource::Image {
                    encodable: image.encodable,
                })
            },
        forall|k: int, l: int|
            0 <= k < l < images_among(page, resources, upto).len() ==> (#[trigger] images_among(
                page,
                resources,
                upto,
            )[k]).resource < (#[trigger] images_among(page, resources, upto)[l]).resource,
        forall|i: int|
            0 <= i < upto && (#[trigger] resources[i]) is Image ==> finds(
                images_among(page, resources, upto),
                i,
            ),
    decreases upto,
{
    if upto > 0 {
        let before = images_among(page, resources, (upto - 1) as nat);
        let now = images_among(page, resources, upto);
        lemma_images_among(page, resources, (upto - 1) as nat);
        assert forall|i: int| 0 <= i < upto && (#[trigger] resources[i]) is Image implies finds(
            now,
            i,
        ) by {
            if i < upto - 1 {
                assert(finds(before, i));
                let k = choose|k: int| 0 <= k < before.len() && (#[trigger] before[k]).resource == i;
                assert(now[k].resource == i);
            } else {
                assert(now[now.len() - 1].resource == i);
            }
        }
    }
}

} // verus!
