//! Tests of the analysis host.

use analyzer_core::analysis::AnalysisHost;
use analyzer_core::db::{file_symbols, item_tree, resolved_deps};
use analyzer_core::disk::Disk;
use analyzer_core::resolve::{Definition, FilePosition};
use analyzer_core::syntax::SyntaxTree;
use analyzer_core::vfs::FileId;

fn host_with(text: &str) -> (AnalysisHost, FileId) {
    let mut host = AnalysisHost::new();
    let file = host.vfs_mut().file_id("/test/doc.compact");
    host.vfs_mut().set_overlay(file, text.to_string(), 1);
    (host, file)
}

/// A disk that holds files under `/w`.
fn files(list: &[(&str, &str)]) -> Disk {
    let mut disk = Disk::new();
    for (rel, text) in list {
        disk.add_file(format!("/w/{rel}"), Some(text.to_string()));
    }
    disk
}

#[test]
fn valid_source_has_no_diagnostics() {
    let (mut host, file) = host_with("ledger count: Field;");
    let analysis = host.analyze(file, &Disk::new()).unwrap();
    assert!(analysis.diagnostics.is_empty());
}

#[test]
fn broken_source_reports_expected_colon() {
    let (mut host, file) = host_with("ledger count Field;");
    let analysis = host.analyze(file, &Disk::new()).unwrap();
    assert_eq!(analysis.diagnostics.len(), 1);
    let diag = &analysis.diagnostics[0];
    assert_eq!(diag.message, "expected COLON");
    assert_eq!(diag.primary_span.start(), 12);
    assert_eq!(diag.primary_span.end(), 12);
}

#[test]
fn diagnostics_spans_stay_in_bounds() {
    let source = "@@@";
    let (mut host, file) = host_with(source);
    let analysis = host.analyze(file, &Disk::new()).unwrap();
    assert!(!analysis.diagnostics.is_empty());
    for diag in analysis.diagnostics.iter() {
        assert!(diag.primary_span.end() <= source.len() as u32);
    }
}

/// Where the analysis of a file lies in memory; a new analysis lies elsewhere.
fn place(host: &mut AnalysisHost, file: FileId) -> String {
    let analysis = host.analyze(file, &Disk::new()).unwrap();
    format!("{:p}", analysis.text.as_str())
}

#[test]
fn unchanged_content_hits_the_cache() {
    let (mut host, file) = host_with("ledger count: Field;");
    let first = place(&mut host, file);
    let second = place(&mut host, file);
    assert_eq!(first, second);
    // The same text again is no change either.
    host.vfs_mut()
        .set_overlay(file, "ledger count: Field;".to_string(), 2);
    assert_eq!(place(&mut host, file), first);
}

#[test]
fn edit_invalidates_the_cache() {
    let (mut host, file) = host_with("ledger count: Field;");
    let before = host.analyze(file, &Disk::new()).unwrap();
    assert!(before.diagnostics.is_empty());
    let before = place(&mut host, file);

    host.vfs_mut()
        .set_overlay(file, "ledger count Field;".to_string(), 2);
    let after = host.analyze(file, &Disk::new()).unwrap();
    assert_eq!(after.diagnostics.len(), 1);
    assert_ne!(place(&mut host, file), before);
}

#[test]
fn forget_file_is_transparent_to_parse() {
    let (mut host, file) = host_with("ledger count: Field;");
    let first = format!("{:?}", host.analyze(file, &Disk::new()).unwrap().diagnostics);
    host.forget_file(file);
    let second = format!("{:?}", host.analyze(file, &Disk::new()).unwrap().diagnostics);
    assert_eq!(first, second);
}

fn text_of(tree: &SyntaxTree) -> String {
    (0..tree.len())
        .filter(|&i| tree.is_token(i))
        .map(|i| tree.token_text(i).to_string())
        .collect()
}

#[test]
fn tree_is_lossless() {
    let source = "/* comment */ ledger count: Field; // trailing";
    let (mut host, file) = host_with(source);
    let analysis = host.analyze(file, &Disk::new()).unwrap();
    assert_eq!(text_of(&analysis.tree), source);
}

#[test]
fn every_element_starts_where_the_tokens_before_it_end() {
    let source = "module M { /* \u{1F600} */ export circuit f(x: Field): [] { @@ } }\n";
    let (mut host, file) = host_with(source);
    let tree = &host.analyze(file, &Disk::new()).unwrap().tree;
    let mut at: u32 = 0;
    for i in 0..tree.len() {
        assert_eq!(tree.range(i).start, at);
        if tree.is_token(i) {
            at += tree.token_text(i).len() as u32;
        }
    }
    assert_eq!(at as usize, source.len());
}

#[test]
fn unreadable_file_returns_none() {
    let mut host = AnalysisHost::new();
    let file = host.vfs_mut().file_id("/nonexistent/nope.compact");
    assert!(host.analyze(file, &Disk::new()).is_none());
}

#[test]
fn source_for_updates_input_on_edit_only() {
    let (mut host, file) = host_with("abcd");
    let src1 = host.source_for(file, &Disk::new()).unwrap();
    assert_eq!(src1.text(host.db_ref()).len(), 4);

    let src2 = host.source_for(file, &Disk::new()).unwrap();
    assert_eq!(src1, src2);

    host.vfs_mut().set_overlay(file, "xyz".to_string(), 2);
    let src3 = host.source_for(file, &Disk::new()).unwrap();
    assert_eq!(src1, src3);
    assert_eq!(src3.text(host.db_ref()).len(), 3);
}

#[test]
fn index_file_records_resolved_cross_file_dep() {
    let disk = files(&[("Foo.compact", "module Foo {}"), ("main.compact", "import \"Foo\";")]);
    let mut host = AnalysisHost::new();
    let foo = host.vfs_mut().file_id("/w/Foo.compact");
    let main_id = host.vfs_mut().file_id("/w/main.compact");
    host.index_file(foo, &disk);
    host.index_file(main_id, &disk);

    assert_eq!(host.dependents_of(foo), vec![main_id]);
}

#[test]
fn index_file_publishes_resolved_dep_edges() {
    let disk = files(&[
        ("Foo.compact", "module Foo {}"),
        ("main.compact", "import \"Foo\";\ninclude \"missing\";"),
    ]);
    let mut host = AnalysisHost::new();
    let foo = host.vfs_mut().file_id("/w/Foo.compact");
    let main_id = host.vfs_mut().file_id("/w/main.compact");
    host.index_file(foo, &disk);
    host.index_file(main_id, &disk);

    let fd = host.file_deps(main_id);
    let deps = resolved_deps(host.db_ref(), fd);
    let foo_dep = deps.iter().find(|d| d.raw == "Foo").unwrap();
    assert!(matches!(foo_dep.target, Some((f, _)) if f == foo));
    let miss = deps.iter().find(|d| d.raw == "missing").unwrap();
    assert!(miss.is_include && miss.target.is_none());
}

#[test]
fn register_stdlib_publishes_workspace_singleton() {
    let disk = files(&[("std.compact", "module Std {}")]);
    let mut host = AnalysisHost::new();
    assert!(host.workspace().stdlib.is_none());

    let stdlib_id = host.register_stdlib("/w/std.compact", &disk);
    let stdlib = host.workspace().stdlib;
    assert!(matches!(stdlib, Some((f, _)) if f == stdlib_id));
}

#[test]
fn register_stdlib_makes_it_analyzable() {
    let disk = files(&[(
        "std.compact",
        "export circuit persistentHash<T>(value: T): Bytes<32> { }\n",
    )]);
    let mut host = AnalysisHost::new();
    assert_eq!(host.stdlib_file(), None);
    let file = host.register_stdlib("/w/std.compact", &disk);
    assert_eq!(host.stdlib_file(), Some(file));
    let analysis = host.analyze(file, &disk).unwrap();
    assert!(analysis.diagnostics.is_empty());
    assert!(analysis
        .item_tree
        .symbols
        .iter()
        .any(|s| s.name == "persistentHash"));
}

#[test]
fn editing_importer_body_does_not_reresolve_imported_file() {
    let main_v1 = "import L;\ncircuit main(): [] { ex(); }";
    let disk = files(&[
        ("L.compact", "module L { export circuit ex(): [] {} }"),
        ("main.compact", main_v1),
    ]);
    let mut host = AnalysisHost::new();
    let lib_file = host.vfs_mut().file_id("/w/L.compact");
    let main_file = host.vfs_mut().file_id("/w/main.compact");
    host.vfs_mut()
        .set_overlay(main_file, main_v1.to_string(), 1);

    let pos1 = FilePosition {
        file: main_file,
        offset: main_v1.find("ex();").unwrap() as u32,
    };
    let def1 = host.resolve(pos1, &disk).expect("ex resolves across files");
    match def1 {
        Definition::Item { file, .. } => assert_eq!(file, lib_file),
        Definition::Local { .. } => panic!("expected a cross-file item"),
    }

    let lib_src = host.source_for(lib_file, &disk).expect("the library was read");
    let lib_tree_before = item_tree(host.db_ref(), lib_src).symbols.clone();
    let lib_place = format!("{:p}", lib_src.text(host.db_ref()));

    let main_v2 = "import L;\ncircuit main(): [] { ex(); ex(); }";
    host.vfs_mut()
        .set_overlay(main_file, main_v2.to_string(), 2);

    let pos2 = FilePosition {
        file: main_file,
        offset: main_v2.find("ex();").unwrap() as u32,
    };
    let def2 = host
        .resolve(pos2, &disk)
        .expect("ex still resolves across files after the body edit");
    assert_eq!(def1, def2);

    let lib_src_after = host.source_for(lib_file, &disk).unwrap();
    assert_eq!(lib_src, lib_src_after);
    let lib_tree_after = item_tree(host.db_ref(), lib_src_after).symbols.clone();
    assert_eq!(lib_tree_before, lib_tree_after);
    assert_eq!(format!("{:p}", lib_src_after.text(host.db_ref())), lib_place);
}

#[test]
fn trivia_only_edit_does_not_reresolve_downstream() {
    let disk = Disk::new();
    let text1 = "export circuit c(): [] {}\ncircuit main(): [] { c(); }";
    let (mut host, file) = host_with(text1);

    let pos1 = FilePosition {
        file,
        offset: text1.find("c();").unwrap() as u32,
    };
    let def1 = host.resolve(pos1, &disk).expect("c resolves");

    let src_before = host.source_for(file, &disk).unwrap();
    let symbols_before = file_symbols(host.db_ref(), src_before);

    let text2 = "export circuit c(): [] {}\ncircuit main(): [] { c(); } // note";
    host.vfs_mut().set_overlay(file, text2.to_string(), 2);

    let pos2 = FilePosition {
        file,
        offset: text2.find("c();").unwrap() as u32,
    };
    let def2 = host
        .resolve(pos2, &disk)
        .expect("c still resolves after the trivia-only edit");
    assert_eq!(def1, def2);

    let src_after = host.source_for(file, &disk).unwrap();
    let symbols_after = file_symbols(host.db_ref(), src_after);
    assert_eq!(symbols_before, symbols_after);
}

#[test]
fn import_places_lists_every_candidate() {
    let mut host = AnalysisHost::new();
    host.set_import_search_path(vec!["/libs".to_string()]);
    let places = host.import_places(
        "/w/main.compact",
        "import CompactStandardLibrary;\nimport Foo;\ninclude \"sub/x\";\n",
    );
    assert_eq!(
        places,
        vec![
            "/w/Foo.compact",
            "/libs/Foo.compact",
            "/w/sub/x.compact",
            "/libs/sub/x.compact"
        ]
    );
}

#[test]
fn index_path_indexes_the_file_at_a_path() {
    let disk = files(&[("one.compact", "circuit one(): Field { return 0; }")]);
    let mut host = AnalysisHost::new();
    let file = host.index_path("/w/one.compact", &disk);
    assert_eq!(host.workspace_files(), vec![file]);
    assert_eq!(host.workspace_symbols("ne"), vec![(file, 0)]);
    assert_eq!(host.index_path("/w/gone.compact", &disk).raw, 1);
    assert_eq!(host.workspace_files(), vec![file]);
}

#[test]
fn a_name_is_resolved_as_if_it_stood_at_a_position() {
    let text = "circuit helper(): [] {}\ncircuit main(x: Field): [] { return; }";
    let (mut host, file) = host_with(text);
    let disk = Disk::new();
    let pos = FilePosition {
        file,
        offset: text.find("return").unwrap() as u32,
    };
    assert!(matches!(
        host.resolve_name_at(pos, "x", &disk),
        Some(Definition::Local { .. })
    ));
    assert_eq!(
        host.resolve_name_at(pos, "helper", &disk),
        Some(Definition::Item { file, index: 0 })
    );
    assert_eq!(host.resolve_name_at(pos, "nope", &disk), None);
}

#[test]
fn disclosure_is_reported_through_the_host() {
    let (mut host, file) = host_with(
        "export ledger c: Uint<8>;\nwitness getW(): Uint<8>;\nexport circuit f(): [] { c = getW(); }\n",
    );
    let diags = host.disclosure_diagnostics(file, &Disk::new());
    assert_eq!(diags.len(), 1);
    assert_eq!(diags[0].code.number, 3100);
    assert_eq!(
        diags[0].message,
        "potential witness-value disclosure: ledger operation"
    );
    let gone = host.vfs_mut().file_id("/gone.compact");
    assert!(host.disclosure_diagnostics(gone, &Disk::new()).is_empty());
}

#[test]
fn an_import_that_cannot_be_read_is_still_an_edge() {
    let mut disk = files(&[("main.compact", "import \"Foo\"; include \"Bar\";")]);
    disk.add_file("/w/Foo.compact".to_string(), None);
    disk.add_file("/lib/Foo.compact".to_string(), Some("module Foo {}".to_string()));
    let mut host = AnalysisHost::new();
    host.set_import_search_path(vec!["/lib".to_string()]);
    let foo = host.vfs_mut().file_id("/w/Foo.compact");
    let other = host.vfs_mut().file_id("/lib/Foo.compact");
    let bar = host.vfs_mut().file_id("/w/Bar.compact");
    let main_id = host.vfs_mut().file_id("/w/main.compact");
    host.index_file(main_id, &disk);

    assert_eq!(host.dependents_of(foo), vec![main_id]);
    assert!(host.dependents_of(other).is_empty());
    assert!(host.dependents_of(bar).is_empty());
    let fd = host.file_deps(main_id);
    let deps = resolved_deps(host.db_ref(), fd);
    assert_eq!(deps.len(), 2);
    assert!(deps.iter().all(|d| d.target.is_none()));
    assert_eq!(host.workspace_files(), vec![main_id]);
}
