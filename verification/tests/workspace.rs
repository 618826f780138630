//! Tests of the workspace index.

use analyzer_core::analysis::AnalysisHost;
use analyzer_core::disk::Disk;
use analyzer_core::idset::IdSet;
use analyzer_core::vfs::FileId;
use analyzer_core::workspace::WorkspaceIndex;

const FOO: &str = "module Foo { export circuit ffff(): Field { return 0; } }";
const MAIN: &str = "import Foo;\ncircuit mmmm(): Field { return ffff(); }";

fn indexed() -> (AnalysisHost, FileId, FileId) {
    let mut disk = Disk::new();
    disk.add_file("/w/Foo.compact".to_string(), Some(FOO.to_string()));
    disk.add_file("/w/main.compact".to_string(), Some(MAIN.to_string()));
    let mut host = AnalysisHost::new();
    let foo = host.vfs_mut().file_id("/w/Foo.compact");
    let main = host.vfs_mut().file_id("/w/main.compact");
    host.index_file(foo, &disk);
    host.index_file(main, &disk);
    (host, foo, main)
}

#[test]
fn indexes_symbols_and_dependency_edges() {
    let (host, foo, main) = indexed();
    assert!(host.workspace_symbols("ffff").iter().any(|&(f, _)| f == foo));
    assert!(host.workspace_symbols("mmmm").iter().any(|&(f, _)| f == main));
    assert!(host.dependents_of(foo).contains(&main));
}

#[test]
fn eviction_removes_symbols_and_edges() {
    let (mut host, foo, main) = indexed();
    host.remove_workspace_file(main);
    assert!(host.workspace_files().contains(&foo));
    assert!(!host.workspace_files().contains(&main));
    assert!(!host.dependents_of(foo).contains(&main));
}

#[test]
fn a_removed_file_keeps_its_dependents() {
    let (mut host, foo, main) = indexed();
    host.remove_workspace_file(foo);
    assert_eq!(host.workspace_files(), vec![main]);
    assert_eq!(host.dependents_of(foo), vec![main]);
}

fn set(ids: &[usize]) -> IdSet {
    let mut s = IdSet::new();
    for &i in ids {
        s.insert(FileId::from_raw_for_test(i));
    }
    s
}

fn ids(files: Vec<FileId>) -> Vec<usize> {
    files.into_iter().map(|f| f.raw).collect()
}

#[test]
fn indexing_again_replaces_the_edges() {
    let f = FileId::from_raw_for_test;
    let mut index = WorkspaceIndex::new();
    index.set_file(f(7), vec![("a".to_string(), 0)], set(&[3, 1]));
    index.set_file(f(2), vec![("b".to_string(), 0)], set(&[3]));
    assert_eq!(ids(index.files()), vec![2, 7]);
    assert_eq!(ids(index.dependents(f(3))), vec![2, 7]);
    assert_eq!(ids(index.dependents(f(1))), vec![7]);
    index.set_file(f(7), vec![("c".to_string(), 4)], set(&[2]));
    assert_eq!(ids(index.dependents(f(3))), vec![2]);
    assert_eq!(ids(index.dependents(f(1))), Vec::<usize>::new());
    assert_eq!(ids(index.dependents(f(2))), vec![7]);
    assert!(index.symbols_matching("a").is_empty());
    assert_eq!(index.symbols_matching("c"), vec![(f(7), 4)]);
}

#[test]
fn a_query_matches_in_order_and_in_any_case() {
    let f = FileId::from_raw_for_test;
    let mut index = WorkspaceIndex::new();
    index.set_file(
        f(0),
        vec![("transferTo".to_string(), 0), ("OTHER".to_string(), 1)],
        set(&[]),
    );
    index.set_file(f(1), vec![("TT".to_string(), 0)], set(&[]));
    assert_eq!(index.symbols_matching("TFO"), vec![(f(0), 0)]);
    assert_eq!(index.symbols_matching("oth"), vec![(f(0), 1)]);
    assert_eq!(index.symbols_matching("tt"), vec![(f(0), 0), (f(1), 0)]);
    assert_eq!(index.symbols_matching("").len(), 3);
    assert!(index.symbols_matching("rt9").is_empty());
}

#[test]
fn a_set_of_files_is_listed_in_ascending_order() {
    let mut s = set(&[5, 1, 5, 3]);
    assert_eq!(ids(s.files()), vec![1, 3, 5]);
    s.remove(FileId::from_raw_for_test(3));
    assert!(!s.contains(FileId::from_raw_for_test(3)));
    assert!(s.contains(FileId::from_raw_for_test(5)));
    assert_eq!(ids(s.files()), vec![1, 5]);
}

#[test]
fn discover_and_index_populates_and_can_cancel() {
    let mut disk = Disk::new();
    let one = "circuit one(): Field { return 0; }";
    let two = "circuit two(): Field { return 0; }";
    disk.add_file("/w/one.compact".to_string(), Some(one.to_string()));
    disk.add_file("/w/two.compact".to_string(), Some(two.to_string()));
    let paths = vec!["/w/one.compact".to_string(), "/w/two.compact".to_string()];
    let mut host = AnalysisHost::new();

    host.discover_and_index(&paths, || false, &disk);
    assert!(host.workspace_files().is_empty());

    host.discover_and_index(&paths, || true, &disk);
    assert_eq!(host.workspace_files().len(), 2);
}

#[test]
fn a_crawl_stops_at_the_first_no() {
    let mut disk = Disk::new();
    for name in ["one", "two", "three"] {
        disk.add_file(
            format!("/w/{name}.compact"),
            Some(format!("circuit {name}(): Field {{ return 0; }}")),
        );
    }
    let mut host = AnalysisHost::new();
    assert!(host.crawl_step("/w/one.compact", true, &disk));
    assert_eq!(host.workspace_files().len(), 1);
    assert!(!host.crawl_step("/w/two.compact", false, &disk));
    assert_eq!(host.workspace_files().len(), 1);

    let asked = std::cell::Cell::new(0);
    let paths: Vec<String> = ["one", "two", "three"]
        .iter()
        .map(|n| format!("/w/{n}.compact"))
        .collect();
    let mut host = AnalysisHost::new();
    host.discover_and_index(
        &paths,
        || {
            asked.set(asked.get() + 1);
            asked.get() < 2
        },
        &disk,
    );
    assert_eq!(asked.get(), 2);
    assert_eq!(host.workspace_files().len(), 1);
}

#[test]
fn hits_ascend_and_a_longer_query_finds_no_more() {
    let (host, foo, main) = indexed();
    let all = host.workspace_symbols("");
    assert!(all.windows(2).all(|p| (p[0].0.raw, p[0].1) < (p[1].0.raw, p[1].1)));
    assert_eq!(all.iter().filter(|h| h.0 == foo).count(), 2);
    assert_eq!(all.iter().filter(|h| h.0 == main).count(), 1);
    let wide = host.workspace_symbols("f");
    for hit in host.workspace_symbols("fo") {
        assert!(wide.contains(&hit));
    }
}
