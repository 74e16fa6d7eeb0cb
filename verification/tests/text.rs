use test_runner::order::{find_named, insert_position, insert_sorted};
use test_runner::diff::SourceEntry;
use test_runner::text::{
    chars_of, contains, ends_with, equal, find_last, less_than, slice, starts_with, strip_prefix,
    strip_suffix,
};

#[test]
fn comparison_is_by_code_point() {
    let samples = ["", "a", "ab", "b", "B", "é", "e", "z", "日本", "a\u{10000}", "a\u{ffff}", "ab "];
    for a in samples {
        for b in samples {
            assert_eq!(less_than(a, b), a < b, "{a:?} < {b:?}");
            assert_eq!(equal(a, b), a == b);
            assert_eq!(starts_with(a, b), a.starts_with(b));
            assert_eq!(ends_with(a, b), a.ends_with(b));
            assert_eq!(contains(a, b), a.contains(b));
            assert_eq!(strip_prefix(a, b), a.strip_prefix(b));
            assert_eq!(strip_suffix(a, b), a.strip_suffix(b));
        }
    }
}

#[test]
fn characters_and_slices() {
    assert_eq!(chars_of("héy"), vec!['h', 'é', 'y']);
    assert_eq!(chars_of(""), Vec::<char>::new());
    assert_eq!(slice("héllo", 1, 3), "él");
    assert_eq!(slice("abc", 3, 3), "");
    assert_eq!(find_last("a/b/c", '/'), Some(3));
    assert_eq!(find_last("é/b", '/'), Some(1));
    assert_eq!(find_last("abc", '/'), None);
    assert_eq!(contains("test/run/x", "/run/"), true);
    assert_eq!(contains("test/run-drun/x", "/run/"), false);
    assert_eq!(contains("", ""), true);
}

fn source(stem: &str) -> SourceEntry {
    SourceEntry { stem: stem.to_string(), file: format!("{stem}.mo") }
}

#[test]
fn insertion_keeps_ascending_order_and_is_stable() {
    let mut v: Vec<SourceEntry> = Vec::new();
    for (stem, file) in [("m", "1"), ("a", "2"), ("z", "3"), ("m", "4"), ("b", "5"), ("a", "6")] {
        insert_sorted(&mut v, SourceEntry { stem: stem.to_string(), file: file.to_string() });
    }
    let got: Vec<(&str, &str)> = v.iter().map(|e| (e.stem.as_str(), e.file.as_str())).collect();
    assert_eq!(got, vec![("a", "2"), ("a", "6"), ("b", "5"), ("m", "1"), ("m", "4"), ("z", "3")]);
    assert_eq!(insert_position(&v, "a"), 2);
    assert_eq!(insert_position(&v, "0"), 0);
    assert_eq!(insert_position(&v, "zz"), 6);
    assert_eq!(find_named(&v, "m"), Some(3));
    assert_eq!(find_named(&v, "q"), None);
    assert_eq!(find_named(&vec![source("x")], "x"), Some(0));
}
