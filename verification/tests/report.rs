//! Tests of the disclosure diagnostics.

use analyzer_core::db::{item_tree, CompactDatabase, FileDeps, SourceText, Workspace};
use analyzer_core::diagnostics::Severity;
use analyzer_core::disclosure::interp::InterpCtx;
use analyzer_core::disclosure::leaks::DisclosureSink;
use analyzer_core::disclosure::report::disclosure_diagnostics_query;
use analyzer_core::disclosure::roots::{discover_roots, interp_root};
use analyzer_core::filemap::FileMap;
use analyzer_core::vfs::FileId;

fn empty_ws() -> Workspace {
    Workspace::new(None, FileMap::new(), FileMap::new())
}

#[test]
fn module_nested_circuit_renders_amber_advisory_not_a_leak() {
    let mut db = CompactDatabase::new();
    let text = "import CompactStandardLibrary;\n\
                 module M {\n\
                 export ledger c: Field;\n\
                 export circuit leak(x: Field): Field { c = x; return x; }\n\
                 }\n";
    let src = SourceText::new(&mut db, text);
    let fd = FileDeps::new(&mut db, Vec::new());
    let ws = empty_ws();
    let file = FileId::from_raw_for_test(0);

    let diags = disclosure_diagnostics_query(&db, file, src, fd, &ws);

    let e_leaks: Vec<_> = diags
        .iter()
        .filter(|d| d.code.prefix == "E" && d.code.number >= 3100)
        .collect();
    assert!(e_leaks.is_empty());

    let advisories: Vec<_> = diags
        .iter()
        .filter(|d| d.code.prefix == "U" && d.code.number == 3100)
        .collect();
    assert_eq!(advisories.len(), 1);
    assert_eq!(advisories[0].severity, Severity::Warning);
    assert!(
        advisories[0]
            .message
            .contains("module-nested circuit `leak`")
    );
}

#[test]
fn witness_to_circuit_flip_clears_leak_on_recompute() {
    let mut db = CompactDatabase::new();
    let text_a = "import CompactStandardLibrary;\n\
                   export ledger c: Uint<8>;\n\
                   witness getW(): Uint<8>;\n\
                   export circuit f(): [] { c = getW(); }\n";
    let src = SourceText::new(&mut db, text_a);
    let fd = FileDeps::new(&mut db, Vec::new());
    let ws = empty_ws();
    let file = FileId::from_raw_for_test(0);

    let diags_a = disclosure_diagnostics_query(&db, file, src, fd, &ws);
    let leaks_a: Vec<_> = diags_a
        .iter()
        .filter(|d| d.code.prefix == "E" && d.code.number >= 3100)
        .collect();
    assert_eq!(leaks_a.len(), 1);

    let text_b = "import CompactStandardLibrary;\n\
                   export ledger c: Uint<8>;\n\
                   circuit getW(): Uint<8> { return 0; }\n\
                   export circuit f(): [] { c = getW(); }\n";
    src.set_text(&mut db, text_b);

    let diags_b = disclosure_diagnostics_query(&db, file, src, fd, &ws);
    let leaks_b: Vec<_> = diags_b
        .iter()
        .filter(|d| d.code.prefix == "E" && d.code.number >= 3100)
        .collect();
    assert!(leaks_b.is_empty());
}

#[test]
fn added_circuit_param_introduces_leak_on_recompute() {
    let mut db = CompactDatabase::new();
    let text_a = "import CompactStandardLibrary;\n\
                   export ledger store: Field;\n\
                   export circuit f(): [] { store = 0; }\n";
    let src = SourceText::new(&mut db, text_a);
    let fd = FileDeps::new(&mut db, Vec::new());
    let ws = empty_ws();
    let file = FileId::from_raw_for_test(0);

    let diags_a = disclosure_diagnostics_query(&db, file, src, fd, &ws);
    let leaks_a: Vec<_> = diags_a
        .iter()
        .filter(|d| d.code.prefix == "E" && d.code.number >= 3100)
        .collect();
    assert!(leaks_a.is_empty());

    let text_b = "import CompactStandardLibrary;\n\
                   export ledger store: Field;\n\
                   export circuit f(p: Field): [] { store = p; }\n";
    src.set_text(&mut db, text_b);

    let diags_b = disclosure_diagnostics_query(&db, file, src, fd, &ws);
    let leaks_b: Vec<_> = diags_b
        .iter()
        .filter(|d| d.code.prefix == "E" && d.code.number >= 3100)
        .collect();
    assert_eq!(leaks_b.len(), 1);
}

#[test]
fn multi_hop_path_renders_at_user_call_site_display_only() {
    let text = "import CompactStandardLibrary;\n\
                 export ledger c: Bytes<32>;\n\
                 witness getW(): Bytes<32>;\n\
                 export circuit f(): [] { c = persistentHash<Bytes<32>>(getW()); }\n";
    let mut db = CompactDatabase::new();
    let src = SourceText::new(&mut db, text);
    let fd = FileDeps::new(&mut db, Vec::new());
    let ws = empty_ws();
    let file = FileId::from_raw_for_test(0);

    let base = InterpCtx {
        db: &db,
        file,
        src,
        fd,
        ws: &ws,
        disclosing_fn: None,
    };
    let tree = item_tree(&db, src);
    let mut raw_sink = DisclosureSink::new();
    let roots = discover_roots(&base, &tree, &mut raw_sink);
    for root in &roots {
        interp_root(&base, &mut raw_sink, root);
    }
    let raw_leaks = raw_sink.drain_leaks();
    assert_eq!(raw_leaks.len(), 1);

    let diags = disclosure_diagnostics_query(&db, file, src, fd, &ws);
    let e_leaks: Vec<_> = diags
        .iter()
        .filter(|d| d.code.prefix == "E" && d.code.number >= 3100)
        .collect();
    assert_eq!(e_leaks.len(), raw_leaks.len());
    let leak = e_leaks[0];

    assert!(
        leak.secondary_spans
            .iter()
            .any(|s| s.label.as_deref() == Some("the return value of witness getW"))
    );
    let hop = leak
        .secondary_spans
        .iter()
        .find(|s| {
            s.label
                .as_deref()
                .is_some_and(|l| l.starts_with("a hash of"))
        })
        .unwrap_or_else(|| {
            panic!(
                "missing 'a hash of' native-conduit hop: {:?}",
                leak.secondary_spans
            )
        });
    assert_eq!(hop.label.as_deref(), Some("a hash of the argument to persistentHash"));

    let call_text = "persistentHash<Bytes<32>>(getW())";
    assert!(text.contains(call_text));
    let hop_text = &text[hop.span.start() as usize..hop.span.end() as usize];
    assert_eq!(hop_text.trim(), call_text);
}

#[test]
fn consecutive_duplicate_path_point_collapses_to_one_secondary_span() {
    let text = "import CompactStandardLibrary;\n\
                 export ledger c: Bytes<32>;\n\
                 witness getW(): Bytes<32>;\n\
                 export circuit f(): [] {\n\
                   const y = getW();\n\
                   c = 1 == 2 ? y : y;\n\
                 }\n";
    let mut db = CompactDatabase::new();
    let src = SourceText::new(&mut db, text);
    let fd = FileDeps::new(&mut db, Vec::new());
    let ws = empty_ws();
    let file = FileId::from_raw_for_test(0);

    let diags = disclosure_diagnostics_query(&db, file, src, fd, &ws);
    let e_leaks: Vec<_> = diags
        .iter()
        .filter(|d| d.code.prefix == "E" && d.code.number >= 3100)
        .collect();
    assert_eq!(e_leaks.len(), 1);
    let leak = e_leaks[0];

    let binding_hops: Vec<_> = leak
        .secondary_spans
        .iter()
        .filter(|s| s.label.as_deref() == Some("the binding of y"))
        .collect();
    assert_eq!(binding_hops.len(), 1);
}
