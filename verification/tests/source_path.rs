//! Tests of the search for imported files.

use analyzer_core::source_path::{
    find_source_pathname, is_source_file, parent_dir, path_module_name, source_candidates,
    string_lit_text,
};

/// Looks for `raw` where exactly the files `there` exist.
fn find(from_dir: &str, search: &[&str], raw: &str, there: &[&str]) -> Option<String> {
    let search: Vec<String> = search.iter().map(|s| s.to_string()).collect();
    let places = source_candidates(from_dir, &search, raw);
    let present: Vec<bool> = places.iter().map(|p| there.contains(&p.as_str())).collect();
    find_source_pathname(from_dir, &search, raw, &present)
}

#[test]
fn appends_compact_and_searches_from_dir_first() {
    let got = find(
        "/root",
        &["/root/libs"],
        "Foo",
        &["/root/Foo.compact", "/root/libs/Foo.compact"],
    )
    .unwrap();
    assert_eq!(got, "/root/Foo.compact");
}

#[test]
fn falls_back_to_search_path_left_to_right() {
    let got = find("/root", &["/root/a", "/root/b"], "Qux", &["/root/b/Qux.compact"]).unwrap();
    assert_eq!(got, "/root/b/Qux.compact");
}

#[test]
fn resolves_subdir_string_paths() {
    let got = find("/root", &[], "sub/Bar", &["/root/sub/Bar.compact"]).unwrap();
    assert_eq!(got, "/root/sub/Bar.compact");
}

#[test]
fn absolute_spec_used_exactly() {
    let got = find("/nowhere", &[], "/root/Abs", &["/root/Abs.compact"]).unwrap();
    assert_eq!(got, "/root/Abs.compact");
}

#[test]
fn returns_none_when_unresolvable() {
    assert!(find("/root", &[], "Missing", &[]).is_none());
}

#[test]
fn string_lit_text_strips_quotes() {
    assert_eq!(string_lit_text("\"sub/Bar\""), "sub/Bar");
    assert_eq!(string_lit_text("sub/Bar"), "sub/Bar");
}

#[test]
fn module_name_is_last_component() {
    assert_eq!(path_module_name("sub/Bar").as_deref(), Some("Bar"));
    assert_eq!(path_module_name("Bar").as_deref(), Some("Bar"));
    assert_eq!(path_module_name("a/b/c").as_deref(), Some("c"));
    assert_eq!(path_module_name("").as_deref(), None);
}

#[test]
fn backslashes_separate_components_too() {
    assert_eq!(path_module_name("a\\b/c\\d").as_deref(), Some("d"));
    assert_eq!(path_module_name("a/").as_deref(), None);
}

#[test]
fn an_absolute_spec_has_one_candidate() {
    let search = vec!["/s".to_string()];
    assert_eq!(source_candidates("/d", &search, "/x/Y"), vec!["/x/Y.compact"]);
    assert_eq!(
        source_candidates("/d", &search, "Y"),
        vec!["/d/Y.compact", "/s/Y.compact"]
    );
}

#[test]
fn parent_dir_is_that_of_the_standard_library() {
    for path in [
        "/a/b", "/a/b/", "/a/b/.", "/a/./b", "./a", "a/.", "/a/..", "/.", "/", "", ".", "./.", "a",
        "a//b/./.", "../x", "/a/b.c", "/.a/.", "a./b", "x/..",
    ] {
        let expected = std::path::Path::new(path)
            .parent()
            .map(|p| p.to_str().unwrap().to_string());
        assert_eq!(parent_dir(path), expected, "{path}");
    }
}

#[test]
fn parent_dir_drops_the_last_component() {
    assert_eq!(parent_dir("/a/b.compact").as_deref(), Some("/a"));
    assert_eq!(parent_dir("/b.compact").as_deref(), Some("/"));
    assert_eq!(parent_dir("b.compact").as_deref(), Some(""));
    assert_eq!(parent_dir("/a//b/").as_deref(), Some("/a"));
    assert_eq!(parent_dir("/a/b/.").as_deref(), Some("/a"));
    assert_eq!(parent_dir("/a/./b").as_deref(), Some("/a"));
    assert_eq!(parent_dir("./a").as_deref(), Some("."));
    assert_eq!(parent_dir("a/.").as_deref(), Some(""));
    assert_eq!(parent_dir("/a/..").as_deref(), Some("/a"));
    assert_eq!(parent_dir("/."), None);
    assert_eq!(parent_dir("/"), None);
    assert_eq!(parent_dir(""), None);
}

#[test]
fn source_files_have_a_stem_and_the_extension() {
    assert!(is_source_file("/w/a.compact"));
    assert!(is_source_file("b.compact"));
    assert!(!is_source_file("/w/note.txt"));
    assert!(!is_source_file("/w/.compact"));
    assert!(!is_source_file("/w/compact"));
    assert!(!is_source_file("/w.compact/a"));
}
