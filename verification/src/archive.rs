//! Extraction of the pages of an archive: which entries are staged under
//! which temporary name, and the renames that put the staged pages in
//! reading order.

use vstd::prelude::*;
use crate::naming::{
    decimal, extension_view, final_name, lemma_decimal, lemma_page_name_starts_with_digit,
    lemma_page_names_distinct, padded_number, page_name,
};
use crate::order::{chains, is_total_preorder, Order};
use crate::paths::{
    extension_of, extension_of_path, lemma_path_rule_total_preorder, path_order, path_rule,
    segments, split_path, views, Sorting,
};
use crate::sort::{
    indices, is_ordered, is_permutation, is_stable_order, is_stable_sort_of, key_views,
    lemma_sorted_input_unchanged, lemma_stable_sort_idempotent, occurs, precedes, reorder,
    split_path_rule, stable_order,
};

verus! {

/// A page copied out of the archive under a temporary name, waiting for its
/// final name.
#[derive(Debug)]
pub struct StagedPage {
    /// The path of the entry inside the archive.
    pub path_in_zip: String,
    /// The name of the temporary file that holds the entry's bytes.
    pub extracted_path: String,
    /// The extension of the entry's file name, where it has one.
    pub extension: Option<String>,
}

/// What a staged page is, as plain sequences of characters.
pub struct PageView {
    pub path: Seq<char>,
    pub temp: Seq<char>,
    pub extension: Option<Seq<char>>,
}

impl View for StagedPage {
    type V = PageView;

    open spec fn view(&self) -> PageView {
        PageView {
            path: self.path_in_zip@,
            temp: self.extracted_path@,
            extension: extension_view(&self.extension),
        }
    }
}

impl StagedPage {
    /// A copy of this page.
    pub fn duplicate(&self) -> (out: StagedPage)
        ensures
            out@ == self@,
    {
        StagedPage {
            path_in_zip: self.path_in_zip.clone(),
            extracted_path: self.extracted_path.clone(),
            extension: match &self.extension {
                Some(ext) => Some(ext.clone()),
                None => None,
            },
        }
    }
}

/// The pages held by `pages`, each as plain sequences of characters.
pub open spec fn page_views(pages: Seq<StagedPage>) -> Seq<PageView> {
    Seq::new(pages.len(), |i: int| pages[i]@)
}

/// How two pages compare under `policy`: as the paths of their entries do.
pub open spec fn page_order(policy: Sorting, p: PageView, q: PageView) -> Order {
    path_order(policy, p.path, q.path)
}

/// The comparison of pages under `policy`, as a value.
pub open spec fn page_rule(policy: Sorting) -> spec_fn(PageView, PageView) -> Order {
    |p: PageView, q: PageView| page_order(policy, p, q)
}

/// Puts staged pages in reading order: sorted by the path of their entries
/// under `policy`, pages whose paths compare equal in the order in which they
/// were staged.
pub fn sort_pages(pages: &Vec<StagedPage>, policy: Sorting) -> (out: Vec<StagedPage>)
    ensures
        is_stable_sort_of(page_views(out@), page_views(pages@), page_rule(policy)),
{
    let n = pages.len();
    let mut keys: Vec<Vec<Vec<char>>> = Vec::new();
    let mut i: usize = 0;
    while i < n
        invariant
            n == pages@.len(),
            i <= n,
            keys@.len() == i,
            forall|k: int| 0 <= k < i ==> views(#[trigger] keys@[k]@) == segments(pages@[k]@.path),
        decreases n - i,
    {
        keys.push(split_path(pages[i].path_in_zip.as_str()));
        i += 1;
    }
    let order = stable_order(&keys, policy);
    let ghost perm = indices(order@);
    let ghost items = page_views(pages@);
    proof {
        assert forall|k: int, l: int| 0 <= k < l < n implies precedes(
            page_rule(policy),
            items,
            #[trigger] perm[k],
            #[trigger] perm[l],
        ) by {
            assert(precedes(split_path_rule(policy), key_views(keys@), perm[k], perm[l]));
        }
        assert(is_stable_order(perm, items, page_rule(policy)));
    }
    let mut out: Vec<StagedPage> = Vec::new();
    let mut k: usize = 0;
    while k < n
        invariant
            n == pages@.len(),
            order@.len() == n,
            perm == indices(order@),
            is_permutation(perm, n as nat),
            items == page_views(pages@),
            k <= n,
            out@.len() == k,
            forall|j: int| 0 <= j < k ==> (#[trigger] out@[j])@ == items[perm[j]],
        decreases n - k,
    {
        assert(perm[k as int] == order@[k as int]);
        out.push(pages[order[k]].duplicate());
        k += 1;
    }
    assert(reorder(items, perm) =~= page_views(out@));
    out
}

/// The name of the temporary file of the page staged at position `index`.
pub open spec fn temp_name(index: nat) -> Seq<char> {
    "___tmp_pic_"@ + decimal(index)
}

/// The name of the temporary file of the page staged at position `index`.
pub fn temp_name_of(index: usize) -> (out: String)
    ensures
        out@ == temp_name(index as nat),
{
    let mut out = String::from_str("___tmp_pic_");
    let number = padded_number(index, 0);
    out.append(number.as_str());
    out
}

/// Pages staged one after the other: each under the temporary name of its
/// position, with the extension of its entry's file name.
pub open spec fn is_staging(pages: Seq<PageView>) -> bool {
    forall|k: int|
        0 <= k < pages.len() ==> (#[trigger] pages[k]).temp == temp_name(k as nat)
            && pages[k].extension == extension_of(pages[k].path)
}

/// What becomes of an entry of the archive.
#[derive(Debug)]
pub enum EntryDecision {
    /// The entry is a directory and is passed over.
    Directory,
    /// Only images are wanted and the entry is none: it is passed over.
    NotAnImage,
    /// The entry is a page: its bytes go to a new temporary file of this name.
    Extract { to: String },
}

/// One step of the final phase: the temporary file `from` gets the name `to`.
#[derive(Debug)]
pub struct Rename {
    pub from: String,
    pub to: String,
}

/// A rename, as plain sequences of characters.
pub struct RenameView {
    pub from: Seq<char>,
    pub to: Seq<char>,
}

impl View for Rename {
    type V = RenameView;

    open spec fn view(&self) -> RenameView {
        RenameView { from: self.from@, to: self.to@ }
    }
}

/// The renames held by `plan`, each as plain sequences of characters.
pub open spec fn rename_views(plan: Seq<Rename>) -> Seq<RenameView> {
    Seq::new(plan.len(), |i: int| plan[i]@)
}

/// The renames that give pages already in reading order their final names:
/// the page at position `i` gets the number `i + 1`, zero-padded to the width
/// of the number of pages, and keeps its extension.
pub open spec fn renames_of(sorted: Seq<PageView>) -> Seq<RenameView> {
    Seq::new(
        sorted.len(),
        |i: int|
            RenameView {
                from: sorted[i].temp,
                to: page_name(i as nat, sorted.len(), sorted[i].extension),
            },
    )
}

/// `plan` renames the staged `pages` into reading order under `policy`.
pub open spec fn is_rename_plan(plan: Seq<RenameView>, pages: Seq<PageView>, policy: Sorting) -> bool {
    exists|sorted: Seq<PageView>|
        is_stable_sort_of(sorted, pages, page_rule(policy)) && #[trigger] renames_of(sorted) == plan
}

/// The renames that give pages already in reading order their final names.
pub fn plan_renames(sorted: &Vec<StagedPage>) -> (plan: Vec<Rename>)
    ensures
        rename_views(plan@) == renames_of(page_views(sorted@)),
{
    let n = sorted.len();
    let mut plan: Vec<Rename> = Vec::new();
    let mut i: usize = 0;
    while i < n
        invariant
            n == sorted@.len(),
            i <= n,
            plan@.len() == i,
            forall|k: int| 0 <= k < i ==> (#[trigger] plan@[k])@ == renames_of(page_views(sorted@))[k],
        decreases n - i,
    {
        let page = &sorted[i];
        plan.push(
            Rename { from: page.extracted_path.clone(), to: final_name(i, n, &page.extension) },
        );
        i += 1;
    }
    assert(rename_views(plan@) =~= renames_of(page_views(sorted@)));
    plan
}

/// The extraction of one archive: its settings and the pages staged so far.
pub struct ArchiveExtraction {
    extract_images_only: bool,
    accept_extended_image_formats: bool,
    sorting: Sorting,
    pages: Vec<StagedPage>,
}

/// The state of an archive extraction, as plain values.
pub struct ArchiveView {
    /// Whether entries that are no images are passed over.
    pub extract_images_only: bool,
    /// Whether the image predicate is asked with its extended set of formats.
    pub accept_extended_image_formats: bool,
    /// The policy that puts the pages in reading order.
    pub sorting: Sorting,
    /// The pages staged so far, in the order of the archive.
    pub pages: Seq<PageView>,
}

impl View for ArchiveExtraction {
    type V = ArchiveView;

    closed spec fn view(&self) -> ArchiveView {
        ArchiveView {
            extract_images_only: self.extract_images_only,
            accept_extended_image_formats: self.accept_extended_image_formats,
            sorting: self.sorting,
            pages: page_views(self.pages@),
        }
    }
}

/// Whether an entry is staged as a page: directories never are, and other
/// entries are unless only images are wanted and the entry is none.
pub open spec fn is_page(extract_images_only: bool, is_file: bool, is_image: bool) -> bool {
    is_file && !(extract_images_only && !is_image)
}

/// The page that an entry named `name` becomes when it is staged at position
/// `index`.
pub open spec fn staged(name: Seq<char>, index: nat) -> PageView {
    PageView { path: name, temp: temp_name(index), extension: extension_of(name) }
}

impl ArchiveExtraction {
    /// Starts the extraction of an archive, with no page staged.
    pub fn new(
        extract_images_only: bool,
        accept_extended_image_formats: bool,
        sorting: Sorting,
    ) -> (out: ArchiveExtraction)
        ensures
            out@ == (ArchiveView {
                extract_images_only,
                accept_extended_image_formats,
                sorting,
                pages: Seq::empty(),
            }),
    {
        let out = ArchiveExtraction {
            extract_images_only,
            accept_extended_image_formats,
            sorting,
            pages: Vec::new(),
        };
        assert(page_views(out.pages@) =~= Seq::empty());
        out
    }

    /// Whether entries that are no images are passed over.
    pub fn extract_images_only(&self) -> (out: bool)
        ensures
            out == self@.extract_images_only,
    {
        self.extract_images_only
    }

    /// Whether the image predicate is asked with its extended set of formats.
    pub fn accept_extended_image_formats(&self) -> (out: bool)
        ensures
            out == self@.accept_extended_image_formats,
    {
        self.accept_extended_image_formats
    }

    /// The policy that puts the pages in reading order.
    pub fn sorting(&self) -> (out: Sorting)
        ensures
            out == self@.sorting,
    {
        self.sorting
    }

    /// The pages staged so far, in the order of the archive.
    pub fn staged_pages(&self) -> (out: &Vec<StagedPage>)
        ensures
            page_views(out@) == self@.pages,
    {
        &self.pages
    }

    /// Decides what becomes of the next entry of the archive, in the order of
    /// the archive. `name` is the entry's path, `is_file` says that it is no
    /// directory, and `is_image` is the verdict of the image predicate on its
    /// name, asked as `accept_extended_image_formats` says. A page is staged
    /// under the temporary name of its position, so that pages staged one
    /// after the other stay so.
    pub fn offer(&mut self, name: &str, is_file: bool, is_image: bool) -> (decision: EntryDecision)
        ensures
            final(self)@.extract_images_only == old(self)@.extract_images_only,
            final(self)@.accept_extended_image_formats == old(self)@.accept_extended_image_formats,
            final(self)@.sorting == old(self)@.sorting,
            is_staging(old(self)@.pages) ==> is_staging(final(self)@.pages),
            match decision {
                EntryDecision::Directory => !is_file && final(self)@.pages == old(self)@.pages,
                EntryDecision::NotAnImage => is_file && old(self)@.extract_images_only && !is_image
                    && final(self)@.pages == old(self)@.pages,
                EntryDecision::Extract { to } => is_page(
                    old(self)@.extract_images_only,
                    is_file,
                    is_image,
                ) && to@ == temp_name(old(self)@.pages.len()) && final(self)@.pages == old(self)@.pages.push(staged(name@, old(self)@.pages.len())),
            },
    {
        if !is_file {
            return EntryDecision::Directory;
        }
        if self.extract_images_only && !is_image {
            return EntryDecision::NotAnImage;
        }
        let ghost before = page_views(self.pages@);
        let to = temp_name_of(self.pages.len());
        let page = StagedPage {
            path_in_zip: String::from_str(name),
            extracted_path: to.clone(),
            extension: extension_of_path(name),
        };
        self.pages.push(page);
        assert(page_views(self.pages@) =~= before.push(staged(name@, before.len())));
        EntryDecision::Extract { to }
    }

    /// Ends the extraction: the renames that give the staged pages their final
    /// names, in reading order. The names under `to`, in this order, are the
    /// result of the extraction.
    pub fn finish(self) -> (plan: Vec<Rename>)
        ensures
            is_rename_plan(rename_views(plan@), self@.pages, self@.sorting),
    {
        let sorted = sort_pages(&self.pages, self.sorting);
        plan_renames(&sorted)
    }
}

/// Pages staged at different positions have different temporary names.
pub proof fn lemma_temp_names_distinct(j: nat, k: nat)
    requires
        j != k,
    ensures
        temp_name(j) != temp_name(k),
{
    let lead = "___tmp_pic_"@;
    lemma_decimal(j);
    lemma_decimal(k);
    assert(temp_name(j).skip(lead.len() as int) =~= decimal(j));
    assert(temp_name(k).skip(lead.len() as int) =~= decimal(k));
}

/// No temporary name is the final name of a page.
pub proof fn lemma_temp_name_is_no_page_name(k: nat, i: nat, count: nat, extension: Option<Seq<char>>)
    requires
        i < count,
    ensures
        temp_name(k) != page_name(i, count, extension),
{
    reveal_strlit("___tmp_pic_");
    lemma_page_name_starts_with_digit(i, count, extension);
    assert(temp_name(k)[0] == '_');
}

/// Whether a step of `plan` renames the temporary file of `page`.
pub open spec fn takes(plan: Seq<RenameView>, page: PageView) -> bool {
    exists|i: int| 0 <= i < plan.len() && (#[trigger] plan[i]).from == page.temp
}

/// The renames of an extraction do not collide. For pages staged one after
/// the other, the plan renames every staged page, exactly once: it has one
/// step for each page, no two steps take the same temporary file or give the
/// same final name, and no final name is the temporary name of any step.
pub proof fn lemma_renames_without_collision(plan: Seq<RenameView>, pages: Seq<PageView>, policy: Sorting)
    requires
        is_staging(pages),
        is_rename_plan(plan, pages, policy),
    ensures
        plan.len() == pages.len(),
        forall|k: int| 0 <= k < pages.len() ==> takes(plan, #[trigger] pages[k]),
        forall|i: int, j: int|
            0 <= i < j < plan.len() ==> (#[trigger] plan[i]).from != (#[trigger] plan[j]).from
                && plan[i].to != plan[j].to,
        forall|i: int, j: int|
            0 <= i < plan.len() && 0 <= j < plan.len() ==> (#[trigger] plan[i]).from
                != (#[trigger] plan[j]).to,
{
    let sorted = choose|sorted: Seq<PageView>|
        is_stable_sort_of(sorted, pages, page_rule(policy)) && #[trigger] renames_of(sorted) == plan;
    let perm = choose|perm: Seq<int>|
        is_stable_order(perm, pages, page_rule(policy)) && #[trigger] reorder(pages, perm) == sorted;
    let n = pages.len();
    assert forall|k: int| 0 <= k < n implies takes(plan, #[trigger] pages[k]) by {
        assert(occurs(perm, k));
        let i = choose|i: int| 0 <= i < perm.len() && #[trigger] perm[i] == k;
        assert(plan[i].from == pages[k].temp);
    }
    assert forall|i: int, j: int| 0 <= i < j < plan.len() implies (#[trigger] plan[i]).from != (
    #[trigger] plan[j]).from && plan[i].to != plan[j].to by {
        assert(perm[i] != perm[j]);
        assert(pages[perm[i]].temp == temp_name(perm[i] as nat));
        assert(pages[perm[j]].temp == temp_name(perm[j] as nat));
        lemma_temp_names_distinct(perm[i] as nat, perm[j] as nat);
        lemma_page_names_distinct(i as nat, j as nat, n, sorted[i].extension, sorted[j].extension);
    }
    assert forall|i: int, j: int| 0 <= i < plan.len() && 0 <= j < plan.len() implies (
    #[trigger] plan[i]).from != (#[trigger] plan[j]).to by {
        assert(0 <= perm[i] < n);
        assert(pages[perm[i]].temp == temp_name(perm[i] as nat));
        lemma_temp_name_is_no_page_name(perm[i] as nat, j as nat, n, sorted[j].extension);
    }
}

/// The comparison of pages is usable for sorting: under either policy it is
/// a total preorder.
pub proof fn lemma_page_rule_total_preorder(policy: Sorting)
    ensures
        is_total_preorder(page_rule(policy)),
{
    let rule = page_rule(policy);
    let paths = path_rule(policy);
    lemma_path_rule_total_preorder(policy);
    assert forall|p: PageView, q: PageView| #[trigger] rule(q, p) == rule(p, q).flip() by {
        assert(paths(q.path, p.path) == paths(p.path, q.path).flip());
    }
    assert forall|p: PageView, q: PageView, r: PageView|
        #![trigger rule(p, q), rule(q, r)]
        chains(rule(p, q), rule(q, r), rule(p, r)) by {
        assert(chains(paths(p.path, q.path), paths(q.path, r.path), paths(p.path, r.path)));
    }
}

/// Putting pages in reading order that are in reading order already changes
/// nothing: under either policy, sorting sorted pages gives the same pages in
/// the same order.
pub proof fn lemma_sorted_pages_unchanged(out: Seq<PageView>, pages: Seq<PageView>, policy: Sorting)
    requires
        is_ordered(pages, page_rule(policy)),
        is_stable_sort_of(out, pages, page_rule(policy)),
    ensures
        out == pages,
{
    lemma_page_rule_total_preorder(policy);
    lemma_sorted_input_unchanged(out, pages, page_rule(policy));
}

/// Putting pages in reading order twice is the same as doing it once.
pub proof fn lemma_sorting_pages_twice(
    twice: Seq<PageView>,
    once: Seq<PageView>,
    pages: Seq<PageView>,
    policy: Sorting,
)
    requires
        is_stable_sort_of(once, pages, page_rule(policy)),
        is_stable_sort_of(twice, once, page_rule(policy)),
    ensures
        twice == once,
{
    lemma_page_rule_total_preorder(policy);
    lemma_stable_sort_idempotent(twice, once, pages, page_rule(policy));
}

/// An entry of an archive, as its reader reports it.
#[derive(Debug)]
pub struct ArchiveEntry {
    /// The path of the entry inside the archive.
    pub name: String,
    /// Whether the entry is a file, not a directory.
    pub is_file: bool,
    /// The verdict of the image predicate on the entry's name.
    pub is_image: bool,
}

/// An entry of an archive, as plain values.
pub struct EntryView {
    pub name: Seq<char>,
    pub is_file: bool,
    pub is_image: bool,
}

impl View for ArchiveEntry {
    type V = EntryView;

    open spec fn view(&self) -> EntryView {
        EntryView { name: self.name@, is_file: self.is_file, is_image: self.is_image }
    }
}

/// The entries held by `entries`, as plain values.
pub open spec fn entry_views(entries: Seq<ArchiveEntry>) -> Seq<EntryView> {
    Seq::new(entries.len(), |i: int| entries[i]@)
}

/// The pages staged from `entries`, taken in the order of the archive: one
/// for each entry that is a page, under the temporary name of its position
/// among the pages.
pub open spec fn staging(entries: Seq<EntryView>, extract_images_only: bool) -> Seq<PageView>
    decreases entries.len(),
{
    if entries.len() == 0 {
        Seq::empty()
    } else {
        let before = staging(entries.drop_last(), extract_images_only);
        let entry = entries.last();
        if is_page(extract_images_only, entry.is_file, entry.is_image) {
            before.push(staged(entry.name, before.len()))
        } else {
            before
        }
    }
}

/// The extraction of a whole archive, given by the list of its entries in
/// the order of the archive: the renames that give every page its final
/// name, in reading order.
pub fn extract(entries: &Vec<ArchiveEntry>, extract_images_only: bool, sorting: Sorting) -> (plan: Vec<
    Rename,
>)
    ensures
        is_rename_plan(
            rename_views(plan@),
            staging(entry_views(entries@), extract_images_only),
            sorting,
        ),
{
    let mut extraction = ArchiveExtraction::new(extract_images_only, false, sorting);
    let mut i: usize = 0;
    assert(entry_views(entries@).take(0) =~= Seq::<EntryView>::empty());
    while i < entries.len()
        invariant
            i <= entries@.len(),
            extraction@.extract_images_only == extract_images_only,
            extraction@.sorting == sorting,
            extraction@.pages == staging(entry_views(entries@).take(i as int), extract_images_only),
        decreases entries@.len() - i,
    {
        let entry = &entries[i];
        assert(entry_views(entries@).take(i + 1).drop_last() =~= entry_views(entries@).take(i as int));
        assert(entry_views(entries@).take(i + 1).last() == entry@);
        let _ = extraction.offer(entry.name.as_str(), entry.is_file, entry.is_image);
        i += 1;
    }
    assert(entry_views(entries@).take(i as int) =~= entry_views(entries@));
    extraction.finish()
}

/// Staging keeps its discipline and stages exactly the entries that are
/// pages: the pages are staged one after the other, and there are as many as
/// there are entries that pass the filter.
pub proof fn lemma_staging(entries: Seq<EntryView>, extract_images_only: bool)
    ensures
        is_staging(staging(entries, extract_images_only)),
        staging(entries, extract_images_only).len() == entries.filter(
            |e: EntryView| is_page(extract_images_only, e.is_file, e.is_image),
        ).len(),
    decreases entries.len(),
{
    reveal(Seq::filter);
    if entries.len() > 0 {
        lemma_staging(entries.drop_last(), extract_images_only);
    }
}

} // verus!
