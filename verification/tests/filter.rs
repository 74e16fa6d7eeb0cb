use test_runner::catalog::CatalogEntry;
use test_runner::filter::{decide, holds_pattern_char, pattern_for, score, QueryMemo};

fn entry(path: &str, content: &str) -> CatalogEntry {
    CatalogEntry { path: path.to_string(), preloaded_content: content.to_string() }
}

#[test]
fn empty_query_matches_every_entry() {
    let mut memo = QueryMemo::new();
    assert_eq!(score(&mut memo, "", &entry("test/run/a.mo", ""), false), Some(0));
    assert_eq!(score(&mut memo, "", &entry("", ""), true), Some(0));
    assert_eq!(memo.compile_count(), 0);
}

#[test]
fn plain_query_matches_whole_words_only() {
    let mut memo = QueryMemo::new();
    assert_eq!(score(&mut memo, "foo", &entry("test/run/foo.mo", ""), false), Some(0));
    assert_eq!(score(&mut memo, "foo", &entry("test/run/foobar.mo", ""), false), None);
    assert_eq!(score(&mut memo, "foo", &entry("test/run/a-foo.mo", ""), false), Some(0));
    assert_eq!(score(&mut memo, "foo", &entry("test/run/Foo.mo", ""), false), None);
    assert_eq!(score(&mut memo, "a-b", &entry("test/run/a-b.mo", ""), false), Some(0));
    assert_eq!(score(&mut memo, "a-b", &entry("test/run/ab.mo", ""), false), None);
}

#[test]
fn query_with_pattern_characters_is_a_regular_expression() {
    let mut memo = QueryMemo::new();
    assert_eq!(score(&mut memo, "fo+b", &entry("test/run/foooobar.mo", ""), false), Some(0));
    assert_eq!(score(&mut memo, "fo+b", &entry("test/run/fbar.mo", ""), false), None);
    assert_eq!(score(&mut memo, "^test/fail/", &entry("test/fail/x.mo", ""), false), Some(0));
    assert_eq!(score(&mut memo, "^test/fail/", &entry("test/run/x.mo", ""), false), None);
    assert_eq!(score(&mut memo, "a.c", &entry("abc", ""), false), Some(0));
}

#[test]
fn query_that_does_not_compile_falls_back_to_plain_search_ignoring_case() {
    let mut memo = QueryMemo::new();
    assert_eq!(score(&mut memo, "FOO(", &entry("test/run/xfoo(y.mo", ""), false), Some(0));
    assert_eq!(score(&mut memo, "foo(", &entry("test/run/XFOO(Y.mo", ""), false), Some(0));
    assert_eq!(score(&mut memo, "foo(", &entry("test/run/foo.mo", ""), false), None);
    assert_eq!(score(&mut memo, "[", &entry("a[b", ""), false), Some(0));
}

#[test]
fn content_search_looks_at_golden_text_not_at_path() {
    let mut memo = QueryMemo::new();
    let e = entry("test/run/foo.mo", "type error\n\n\n\n\n\n");
    assert_eq!(score(&mut memo, "error", &e, true), Some(0));
    assert_eq!(score(&mut memo, "error", &e, false), None);
    assert_eq!(score(&mut memo, "foo", &e, true), None);
    assert_eq!(score(&mut memo, "foo", &e, false), Some(0));
}

#[test]
fn unchanged_query_is_compiled_once() {
    let mut memo = QueryMemo::new();
    for i in 0..1000 {
        let e = entry(&format!("test/run/t{i}.mo"), "");
        score(&mut memo, "t1", &e, false);
    }
    assert_eq!(memo.compile_count(), 1);
    assert_eq!(memo.cached_query(), "t1");
    score(&mut memo, "t12", &entry("x", ""), false);
    assert_eq!(memo.compile_count(), 2);
    score(&mut memo, "", &entry("x", ""), false);
    assert_eq!(memo.compile_count(), 2);
    assert_eq!(memo.cached_query(), "t12");
    score(&mut memo, "t1", &entry("x", ""), false);
    assert_eq!(memo.compile_count(), 3);
    score(&mut memo, "bad(", &entry("x", ""), false);
    score(&mut memo, "bad(", &entry("y", ""), false);
    assert_eq!(memo.compile_count(), 4);
}

#[test]
fn memo_answers_for_the_query_it_keeps() {
    let mut memo = QueryMemo::new();
    assert_eq!(memo.pattern_hit("anything"), None);
    memo.prepare("a+");
    assert_eq!(memo.pattern_hit("caab"), Some(true));
    assert_eq!(memo.pattern_hit("cb"), Some(false));
    memo.prepare("a(");
    assert_eq!(memo.pattern_hit("a("), None);
}

#[test]
fn pattern_of_a_query() {
    assert!(holds_pattern_char("a|b"));
    assert!(holds_pattern_char("x$"));
    assert!(!holds_pattern_char("a-b\\c#d"));
    assert!(!holds_pattern_char(""));
    assert_eq!(pattern_for("a.b"), "a.b");
    assert_eq!(pattern_for("foo"), "\\bfoo\\b");
    assert_eq!(pattern_for("a-b"), "\\ba\\-b\\b");
    assert_eq!(pattern_for("a\\b#c&d~e"), "\\ba\\\\b\\#c\\&d\\~e\\b");
}

#[test]
fn verdict_follows_the_outside_answers() {
    assert!(decide("", None, "", ""));
    assert!(decide("", Some(false), "", ""));
    assert!(decide("q", Some(true), "zzz", ""));
    assert!(!decide("q", Some(false), "q", "q"));
    assert!(decide("Q", None, "q", "aqa"));
    assert!(!decide("Q", None, "q", "aa"));
}
