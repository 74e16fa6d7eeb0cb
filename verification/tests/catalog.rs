use test_runner::catalog::{
    catalog_entry, decimal_text, format_selection, golden_variant, golden_variant_paths,
    is_test_source_path, preload_content, select_test_sources, stem_of_file, test_dirs,
    CatalogEntry,
};
use test_runner::paths::split_path;

fn strings(items: &[&str]) -> Vec<String> {
    items.iter().map(|s| s.to_string()).collect()
}

#[test]
fn test_sources_end_in_mo_or_drun() {
    assert!(is_test_source_path("test/run/a.mo"));
    assert!(is_test_source_path("test/run-drun/a.drun"));
    assert!(!is_test_source_path("test/run/a.mo.bak"));
    assert!(!is_test_source_path("test/run/Makefile"));
    assert_eq!(
        select_test_sources(&strings(&["d/a.mo", "d/b.txt", "d/c.drun", "d/ok"])),
        vec!["d/a.mo", "d/c.drun"]
    );
    assert_eq!(test_dirs(), vec!["test/run-drun", "test/run", "test/fail"]);
}

#[test]
fn paths_split_at_the_last_slash() {
    assert_eq!(split_path("test/run/a.mo"), ("test/run", "a.mo"));
    assert_eq!(split_path("a.mo"), ("", "a.mo"));
    assert_eq!(split_path("/a.mo"), ("", "a.mo"));
    assert_eq!(split_path("dir/"), ("dir", ""));
    assert_eq!(split_path(""), ("", ""));
}

#[test]
fn file_stem_drops_the_extension() {
    assert_eq!(stem_of_file("a.mo"), "a");
    assert_eq!(stem_of_file("a.b.mo"), "a.b");
    assert_eq!(stem_of_file("plain"), "plain");
    assert_eq!(stem_of_file(".mo"), ".mo");
    assert_eq!(stem_of_file("a."), "a");
}

#[test]
fn golden_variants_lie_in_ok_beside_the_test() {
    assert_eq!(
        golden_variant_paths("test/run/foo.mo"),
        vec!["test/run/ok/foo.tc.ok", "test/run/ok/foo.drun-run.ok", "test/run/ok/foo.run.ok"]
    );
    assert_eq!(golden_variant("foo.drun", "tc.ok"), "ok/foo.tc.ok");
    assert_eq!(golden_variant("/foo.mo", "run.ok"), "/ok/foo.run.ok");
    assert_eq!(golden_variant("d/a.b.mo", "tc.ok"), "d/ok/a.b.tc.ok");
}

#[test]
fn preloaded_content_joins_variants_with_blank_lines() {
    assert_eq!(preload_content(&strings(&["tc text", "", "run text\n"])), "tc text\n\n\n\nrun text\n\n\n");
    assert_eq!(preload_content(&strings(&["", "", ""])), "\n\n\n\n\n\n");
    assert_eq!(preload_content(&vec![]), "");
    assert_eq!(
        catalog_entry("p.mo".to_string(), Some(&strings(&["a", "b", "c"]))),
        CatalogEntry { path: "p.mo".to_string(), preloaded_content: "a\n\nb\n\nc\n\n".to_string() }
    );
    assert_eq!(
        catalog_entry("p.mo".to_string(), None),
        CatalogEntry { path: "p.mo".to_string(), preloaded_content: "".to_string() }
    );
}

#[test]
fn selection_is_summed_up() {
    assert_eq!(format_selection(&vec![]), ".");
    assert_eq!(format_selection(&strings(&["a.mo"])), "a.mo.");
    assert_eq!(format_selection(&strings(&["a.mo", "b.mo"])), "a.mo, b.mo.");
    let ten: Vec<String> = (0..10).map(|i| format!("t{i}")).collect();
    assert_eq!(format_selection(&ten), "t0, t1, t2, t3, t4, t5, t6, t7, t8, t9.");
    let many: Vec<String> = (0..133).map(|i| format!("t{i}")).collect();
    assert_eq!(
        format_selection(&many),
        "t0, t1, t2, t3, t4, t5, t6, t7, t8, t9, ... (+123 more)."
    );
    let eleven: Vec<String> = (0..11).map(|i| format!("t{i}")).collect();
    assert_eq!(
        format_selection(&eleven),
        "t0, t1, t2, t3, t4, t5, t6, t7, t8, t9, ... (+1 more)."
    );
}

#[test]
fn numbers_in_decimal() {
    assert_eq!(decimal_text(0), "0");
    assert_eq!(decimal_text(7), "7");
    assert_eq!(decimal_text(10), "10");
    assert_eq!(decimal_text(9081726354), "9081726354");
    assert_eq!(decimal_text(usize::MAX), usize::MAX.to_string());
}

#[test]
fn golden_variants_agree_with_path_arithmetic() {
    for path in ["test/run/foo.mo", "foo.mo", "test/run-drun/a.b.drun", "d/.mo", "/foo.mo", "a/b/c/x.drun"] {
        for suffix in ["tc.ok", "drun-run.ok", "run.ok"] {
            let p = std::path::Path::new(path);
            let expected = p
                .parent()
                .unwrap()
                .join("ok")
                .join(p.file_name().unwrap())
                .with_extension(suffix);
            assert_eq!(golden_variant(path, suffix), expected.to_str().unwrap(), "{path} {suffix}");
        }
    }
}
