use comic_pages::natural::{compare_chars, compare_segments_natural, is_decimal_digit, run_end};
use comic_pages::order::Order;
use comic_pages::paths::{compare_segments, compare_segments_simple, compare_split_paths, extension_of_name, Sorting};
use comic_pages::sort::stable_order;
use comic_pages::text::{chars_of, same_text, string_of};

fn cs(s: &str) -> Vec<char> {
    s.chars().collect()
}

#[test]
fn chars_of_lists_the_characters() {
    assert_eq!(chars_of("aé/1"), vec!['a', 'é', '/', '1']);
    assert!(chars_of("").is_empty());
}

#[test]
fn string_of_takes_a_range_of_characters() {
    let c = cs("héllo.png");
    assert_eq!(string_of(&c, 6, 9), "png");
    assert_eq!(string_of(&c, 0, 5), "héllo");
    assert_eq!(string_of(&c, 3, 3), "");
}

#[test]
fn same_text_compares_character_by_character() {
    assert!(same_text("zip", "zip"));
    assert!(same_text("", ""));
    assert!(!same_text("zip", "zap"));
    assert!(!same_text("zip", "zi"));
    assert!(!same_text("zi", "zip"));
}

#[test]
fn digits_are_the_ten_ascii_digits() {
    for c in ['0', '5', '9'] {
        assert!(is_decimal_digit(c));
    }
    for c in ['/', ':', 'a', ' ', '٣', '²'] {
        assert!(!is_decimal_digit(c));
    }
}

#[test]
fn characters_compare_by_code_point() {
    assert_eq!(compare_chars('a', 'b'), Order::Less);
    assert_eq!(compare_chars('b', 'a'), Order::Greater);
    assert_eq!(compare_chars('é', 'é'), Order::Equal);
    assert_eq!(compare_chars('Z', 'a'), Order::Less);
    assert_eq!(compare_chars('z', 'é'), Order::Less);
}

#[test]
fn an_order_can_be_reversed() {
    assert_eq!(Order::Less.reversed(), Order::Greater);
    assert_eq!(Order::Equal.reversed(), Order::Equal);
    assert_eq!(Order::Greater.reversed(), Order::Less);
}

#[test]
fn run_end_finds_the_end_of_a_digit_run() {
    let c = cs("ab123cd45");
    assert_eq!(run_end(&c, 0), 0);
    assert_eq!(run_end(&c, 2), 5);
    assert_eq!(run_end(&c, 3), 5);
    assert_eq!(run_end(&c, 5), 5);
    assert_eq!(run_end(&c, 7), 9);
    assert_eq!(run_end(&c, 9), 9);
}

#[test]
fn segments_compare_naturally() {
    assert_eq!(compare_segments_natural(&cs("x2y10"), &cs("x2y9")), Order::Greater);
    assert_eq!(compare_segments_natural(&cs("x02y"), &cs("x2y")), Order::Equal);
    assert_eq!(compare_segments_natural(&cs("x2"), &cs("x2y")), Order::Less);
    assert_eq!(compare_segments_natural(&cs("1"), &cs("01a")), Order::Less);
    assert_eq!(compare_segments_natural(&cs("100"), &cs("99")), Order::Greater);
    assert_eq!(compare_segments_natural(&cs("0"), &cs("00000")), Order::Equal);
    assert_eq!(compare_segments_natural(&cs("00001"), &cs("0")), Order::Greater);
}

#[test]
fn natural_order_of_numbered_names_is_the_order_of_the_numbers() {
    for m in 0..60usize {
        for n in 0..60usize {
            let expected = match m.cmp(&n) {
                std::cmp::Ordering::Less => Order::Less,
                std::cmp::Ordering::Equal => Order::Equal,
                std::cmp::Ordering::Greater => Order::Greater,
            };
            for (a, b) in [
                (format!("a{}", m), format!("a{}", n)),
                (format!("a{:03}", m), format!("a{}", n)),
                (format!("a{}", m), format!("a{:05}", n)),
            ] {
                assert_eq!(compare_segments_natural(&cs(&a), &cs(&b)), expected, "{} {}", a, b);
            }
        }
    }
}

#[test]
fn segments_compare_under_either_policy() {
    assert_eq!(compare_segments(Sorting::Natural, &cs("pg10"), &cs("pg9")), Order::Greater);
    assert_eq!(compare_segments(Sorting::Simple, &cs("pg10"), &cs("pg9")), Order::Less);
    assert_eq!(compare_segments_simple(&cs("p"), &cs("pg0")), Order::Less);
    assert_eq!(compare_segments_simple(&cs("q"), &cs("pg0")), Order::Greater);
    assert_eq!(compare_segments_simple(&cs(""), &cs("")), Order::Equal);
}

#[test]
fn split_paths_compare_segment_by_segment() {
    let a = vec![cs("ch2"), cs("pg1")];
    let b = vec![cs("ch10"), cs("pg1")];
    assert_eq!(compare_split_paths(Sorting::Natural, &a, &b), Order::Less);
    assert_eq!(compare_split_paths(Sorting::Simple, &a, &b), Order::Greater);
    assert_eq!(compare_split_paths(Sorting::Natural, &a, &a), Order::Equal);
    assert_eq!(compare_split_paths(Sorting::Natural, &vec![cs("ch2")], &a), Order::Less);
    assert_eq!(compare_split_paths(Sorting::Natural, &a, &vec![cs("ch2")]), Order::Greater);
}

#[test]
fn stable_order_lists_the_indices_in_reading_order() {
    let keys = vec![vec![cs("b")], vec![cs("a2")], vec![cs("a02")], vec![cs("a10")], vec![cs("a")]];
    assert_eq!(stable_order(&keys, Sorting::Natural), vec![4, 1, 2, 3, 0]);
    assert_eq!(stable_order(&keys, Sorting::Simple), vec![4, 2, 3, 1, 0]);
    assert!(stable_order(&Vec::new(), Sorting::Natural).is_empty());
}

#[test]
fn the_extension_of_a_name_follows_its_last_dot() {
    assert_eq!(extension_of_name(&cs("a.tar.gz")), Some("gz".to_string()));
    assert_eq!(extension_of_name(&cs("a")), None);
    assert_eq!(extension_of_name(&cs(".a")), None);
    assert_eq!(extension_of_name(&cs("..")), None);
    assert_eq!(extension_of_name(&cs("...")), Some(String::new()));
    assert_eq!(extension_of_name(&cs("a..")), Some(String::new()));
    assert_eq!(extension_of_name(&cs("")), None);
}
