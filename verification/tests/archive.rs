use comic_pages::archive::{
    extract, plan_renames, sort_pages, temp_name_of, ArchiveEntry, ArchiveExtraction, EntryDecision,
    Rename, StagedPage,
};
use comic_pages::paths::Sorting;

fn file(name: &str, is_image: bool) -> ArchiveEntry {
    ArchiveEntry { name: name.to_string(), is_file: true, is_image }
}

fn dir(name: &str) -> ArchiveEntry {
    ArchiveEntry { name: name.to_string(), is_file: false, is_image: false }
}

fn pairs(plan: &[Rename]) -> Vec<(String, String)> {
    plan.iter().map(|r| (r.from.clone(), r.to.clone())).collect()
}

fn page(path: &str, temp: &str) -> StagedPage {
    StagedPage {
        path_in_zip: path.to_string(),
        extracted_path: temp.to_string(),
        extension: None,
    }
}

fn paths_of(pages: &[StagedPage]) -> Vec<(String, String)> {
    pages.iter().map(|p| (p.path_in_zip.clone(), p.extracted_path.clone())).collect()
}

fn owned(pairs: &[(&str, &str)]) -> Vec<(String, String)> {
    pairs.iter().map(|(a, b)| (a.to_string(), b.to_string())).collect()
}

#[test]
fn archive_round_trip_in_natural_order() {
    let entries = vec![
        file("b.png", true),
        file("a.png", true),
        file("c10.png", true),
        file("c2.png", true),
    ];
    let plan = extract(&entries, true, Sorting::Natural);
    // a.png, b.png, c2.png, c10.png, staged as 1, 0, 3, 2.
    assert_eq!(
        pairs(&plan),
        owned(&[
            ("___tmp_pic_1", "1.png"),
            ("___tmp_pic_0", "2.png"),
            ("___tmp_pic_3", "3.png"),
            ("___tmp_pic_2", "4.png"),
        ])
    );
}

#[test]
fn archive_round_trip_in_simple_order() {
    let entries = vec![
        file("b.png", true),
        file("a.png", true),
        file("c10.png", true),
        file("c2.png", true),
    ];
    let plan = extract(&entries, true, Sorting::Simple);
    // a.png, b.png, c10.png, c2.png.
    assert_eq!(
        pairs(&plan),
        owned(&[
            ("___tmp_pic_1", "1.png"),
            ("___tmp_pic_0", "2.png"),
            ("___tmp_pic_2", "3.png"),
            ("___tmp_pic_3", "4.png"),
        ])
    );
}

#[test]
fn entries_that_are_no_images_are_filtered_out() {
    let entries = vec![file("notes.txt", false), file("1.png", true), file("2.png", true)];
    let plan = extract(&entries, true, Sorting::Natural);
    assert_eq!(plan.len(), 2);
    assert_eq!(pairs(&plan), owned(&[("___tmp_pic_0", "1.png"), ("___tmp_pic_1", "2.png")]));
}

#[test]
fn without_the_filter_every_file_is_a_page() {
    let entries = vec![file("notes.txt", false), file("1.png", true), file("2.png", true)];
    let plan = extract(&entries, false, Sorting::Natural);
    assert_eq!(
        pairs(&plan),
        owned(&[("___tmp_pic_1", "1.png"), ("___tmp_pic_2", "2.png"), ("___tmp_pic_0", "3.txt")])
    );
}

#[test]
fn directories_are_never_pages() {
    let entries = vec![dir("ch1/"), file("ch1/a.png", true), dir("ch2/"), file("ch2/a.png", true)];
    for images_only in [true, false] {
        let plan = extract(&entries, images_only, Sorting::Natural);
        assert_eq!(pairs(&plan), owned(&[("___tmp_pic_0", "1.png"), ("___tmp_pic_1", "2.png")]));
    }
}

#[test]
fn an_empty_archive_gives_no_renames() {
    assert!(extract(&Vec::new(), true, Sorting::Natural).is_empty());
    assert!(extract(&vec![dir("only/")], false, Sorting::Simple).is_empty());
}

#[test]
fn pages_without_extension_get_a_bare_number() {
    let entries = vec![file("cover", true), file("back.JPEG", true)];
    let plan = extract(&entries, false, Sorting::Natural);
    assert_eq!(pairs(&plan), owned(&[("___tmp_pic_1", "1.JPEG"), ("___tmp_pic_0", "2")]));
}

#[test]
fn ten_pages_are_padded_to_two_digits() {
    let entries: Vec<ArchiveEntry> = (1..=10).map(|i| file(&format!("p{}.png", i), true)).collect();
    let plan = extract(&entries, true, Sorting::Natural);
    let names: Vec<String> = plan.iter().map(|r| r.to.clone()).collect();
    let expected: Vec<String> = (1..=10).map(|i| format!("{:02}.png", i)).collect();
    assert_eq!(names, expected);
    let sources: Vec<String> = plan.iter().map(|r| r.from.clone()).collect();
    let staged: Vec<String> = (0..10).map(|i| format!("___tmp_pic_{}", i)).collect();
    assert_eq!(sources, staged);
}

#[test]
fn offer_decides_entry_by_entry() {
    let mut extraction = ArchiveExtraction::new(true, false, Sorting::Natural);
    assert!(matches!(extraction.offer("dir/", false, false), EntryDecision::Directory));
    assert!(matches!(extraction.offer("dir/", false, true), EntryDecision::Directory));
    assert!(matches!(extraction.offer("readme.md", true, false), EntryDecision::NotAnImage));
    assert_eq!(extraction.staged_pages().len(), 0);
    match extraction.offer("dir/pg2.png", true, true) {
        EntryDecision::Extract { to } => assert_eq!(to, "___tmp_pic_0"),
        other => panic!("{:?}", other),
    }
    match extraction.offer("dir/pg1.png", true, true) {
        EntryDecision::Extract { to } => assert_eq!(to, "___tmp_pic_1"),
        other => panic!("{:?}", other),
    }
    let staged = extraction.staged_pages();
    assert_eq!(staged.len(), 2);
    assert_eq!(staged[0].path_in_zip, "dir/pg2.png");
    assert_eq!(staged[0].extracted_path, "___tmp_pic_0");
    assert_eq!(staged[0].extension, Some("png".to_string()));
    assert_eq!(staged[1].path_in_zip, "dir/pg1.png");
    let plan = extraction.finish();
    assert_eq!(pairs(&plan), owned(&[("___tmp_pic_1", "1.png"), ("___tmp_pic_0", "2.png")]));
}

#[test]
fn an_extraction_keeps_its_settings() {
    let mut extraction = ArchiveExtraction::new(false, true, Sorting::Simple);
    assert!(!extraction.extract_images_only());
    assert!(extraction.accept_extended_image_formats());
    assert_eq!(extraction.sorting(), Sorting::Simple);
    assert!(matches!(extraction.offer("x.bin", true, false), EntryDecision::Extract { .. }));
    assert!(!extraction.extract_images_only());
    assert!(extraction.accept_extended_image_formats());
    assert_eq!(extraction.sorting(), Sorting::Simple);
}

#[test]
fn temporary_names_count_from_zero() {
    assert_eq!(temp_name_of(0), "___tmp_pic_0");
    assert_eq!(temp_name_of(9), "___tmp_pic_9");
    assert_eq!(temp_name_of(10), "___tmp_pic_10");
    assert_eq!(temp_name_of(1234), "___tmp_pic_1234");
}

#[test]
fn sorting_is_stable_for_paths_that_compare_equal() {
    let pages = vec![
        page("pg02", "t0"),
        page("pg1", "t1"),
        page("pg2", "t2"),
        page("pg002", "t3"),
        page("pg01", "t4"),
    ];
    let sorted = sort_pages(&pages, Sorting::Natural);
    assert_eq!(
        paths_of(&sorted),
        owned(&[("pg1", "t1"), ("pg01", "t4"), ("pg02", "t0"), ("pg2", "t2"), ("pg002", "t3")])
    );
    let simple = sort_pages(&pages, Sorting::Simple);
    assert_eq!(
        paths_of(&simple),
        owned(&[("pg002", "t3"), ("pg01", "t4"), ("pg02", "t0"), ("pg1", "t1"), ("pg2", "t2")])
    );
}

#[test]
fn sorting_sorted_pages_changes_nothing() {
    let pages = vec![
        page("b/10", "t0"),
        page("a/2", "t1"),
        page("a/10", "t2"),
        page("a/02", "t3"),
        page("b/9", "t4"),
        page("a", "t5"),
    ];
    for policy in [Sorting::Natural, Sorting::Simple] {
        let once = sort_pages(&pages, policy);
        let twice = sort_pages(&once, policy);
        assert_eq!(paths_of(&once), paths_of(&twice));
    }
    let natural = sort_pages(&pages, Sorting::Natural);
    assert_eq!(
        paths_of(&natural),
        owned(&[
            ("a", "t5"),
            ("a/2", "t1"),
            ("a/02", "t3"),
            ("a/10", "t2"),
            ("b/9", "t4"),
            ("b/10", "t0"),
        ])
    );
}

#[test]
fn sorting_agrees_with_a_stable_sort_of_the_standard_library() {
    let names = [
        "x10", "x9", "x09", "a/b", "a-b", "a", "", "x", "x1y", "x01y", "x1", "10", "9", "x10", "a/b/c",
        "a/b1", "a/b01", "Z", "z",
    ];
    let pages: Vec<StagedPage> =
        names.iter().enumerate().map(|(i, n)| page(n, &format!("t{}", i))).collect();
    for policy in [Sorting::Natural, Sorting::Simple] {
        let sorted = sort_pages(&pages, policy);
        let mut expected: Vec<(String, String)> = paths_of(&pages);
        expected.sort_by(|a, b| {
            match comic_pages::paths::compare_paths(policy, &a.0, &b.0) {
                comic_pages::order::Order::Less => std::cmp::Ordering::Less,
                comic_pages::order::Order::Equal => std::cmp::Ordering::Equal,
                comic_pages::order::Order::Greater => std::cmp::Ordering::Greater,
            }
        });
        assert_eq!(paths_of(&sorted), expected);
    }
}

#[test]
fn renames_number_the_pages_in_the_order_given() {
    let sorted = vec![
        StagedPage {
            path_in_zip: "a.png".to_string(),
            extracted_path: "___tmp_pic_1".to_string(),
            extension: Some("png".to_string()),
        },
        StagedPage {
            path_in_zip: "b".to_string(),
            extracted_path: "___tmp_pic_0".to_string(),
            extension: None,
        },
    ];
    assert_eq!(
        pairs(&plan_renames(&sorted)),
        owned(&[("___tmp_pic_1", "1.png"), ("___tmp_pic_0", "2")])
    );
}

#[test]
fn no_rename_collides_with_another() {
    let entries: Vec<ArchiveEntry> =
        (0..120).map(|i| file(&format!("{}.png", (i * 37) % 120), true)).collect();
    let plan = extract(&entries, true, Sorting::Natural);
    assert_eq!(plan.len(), 120);
    let mut from: Vec<&String> = plan.iter().map(|r| &r.from).collect();
    let mut to: Vec<&String> = plan.iter().map(|r| &r.to).collect();
    assert!(from.iter().all(|f| !to.contains(f)));
    from.sort();
    from.dedup();
    to.sort();
    to.dedup();
    assert_eq!(from.len(), 120);
    assert_eq!(to.len(), 120);
    assert_eq!(plan[0].to, "001.png");
    assert_eq!(plan[119].to, "120.png");
}

#[test]
fn a_staged_page_can_be_duplicated() {
    let first = StagedPage {
        path_in_zip: "a.png".to_string(),
        extracted_path: "___tmp_pic_0".to_string(),
        extension: Some("png".to_string()),
    };
    let copy = first.duplicate();
    assert_eq!(copy.path_in_zip, first.path_in_zip);
    assert_eq!(copy.extracted_path, first.extracted_path);
    assert_eq!(copy.extension, first.extension);
}
