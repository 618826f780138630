//! Tests of the checks that complain about imports, calls and type arguments.

use analyzer_core::analysis::AnalysisHost;
use analyzer_core::calls::{arg_exprs, is_method_call, method_receiver};
use analyzer_core::checks::{
    call_arg_diagnostics_query, is_builtin_adt, ledger_adt_at, ledger_call_diagnostics_query,
    resolution_diagnostics_query, searched_list_display, LedgerSig,
};
use analyzer_core::db::{
    syntax_tree, CompactDatabase, Ctx, FileDeps, ResolvedDep, SourceText, Workspace,
};
use analyzer_core::diagnostics::{Diagnostic, Severity};
use analyzer_core::disk::Disk;
use analyzer_core::filemap::FileMap;
use analyzer_core::kinds::CALL_EXPR;
use analyzer_core::text::TextRange;
use analyzer_core::ty::TyKind;
use analyzer_core::typing::callee_sig;
use analyzer_core::vfs::FileId;

fn setup(text: &str) -> (CompactDatabase, SourceText, FileDeps, Workspace, FileId) {
    let mut db = CompactDatabase::new();
    let src = SourceText::new(&mut db, text);
    let fd = FileDeps::new(&mut db, Vec::new());
    let ws = Workspace::new(None, FileMap::new(), FileMap::new());
    (db, src, fd, ws, FileId::from_raw_for_test(0))
}

fn call_diags(text: &str) -> Vec<Diagnostic> {
    let (db, src, fd, ws, file) = setup(text);
    call_arg_diagnostics_query(&db, file, src, fd, &ws)
}

fn sigs() -> Vec<LedgerSig> {
    vec![
        LedgerSig {
            adt: "Counter".to_string(),
            method: "increment".to_string(),
            params: vec![TyKind::Uint(Some(65536))],
        },
        LedgerSig {
            adt: "Map".to_string(),
            method: "insert".to_string(),
            params: vec![TyKind::Unknown, TyKind::Unknown],
        },
    ]
}

fn ledger_diags(text: &str) -> Vec<Diagnostic> {
    let (db, src, fd, ws, file) = setup(text);
    ledger_call_diagnostics_query(&db, file, src, fd, &ws, &sigs())
}

/// The text that a range spans, without white space at its ends.
fn spanned(text: &str, range: TextRange) -> &str {
    text[range.start() as usize..range.end() as usize].trim()
}

#[test]
fn a_wrong_number_of_arguments_is_reported_at_the_call() {
    let text = "circuit g(a: Field, b: Field): [] { }\ncircuit m(): [] { g(true); }";
    let diags = call_diags(text);
    assert_eq!(diags.len(), 1);
    assert_eq!(diags[0].severity, Severity::Error);
    assert_eq!(diags[0].code.prefix, "E");
    assert_eq!(diags[0].code.number, 3006);
    assert_eq!(
        diags[0].message,
        "call to g supplies 1 argument(s) but its signature declares 2"
    );
    assert_eq!(spanned(text, diags[0].primary_span), "g(true)");
}

#[test]
fn an_argument_of_the_wrong_type_is_reported_at_the_argument() {
    let text = "circuit g(a: Field, b: Field): [] { }\ncircuit m(): [] { g(w, true); }";
    let diags = call_diags(text);
    assert_eq!(diags.len(), 1);
    assert_eq!(diags[0].code.number, 3006);
    assert_eq!(
        diags[0].message,
        "argument 2 of g has type Boolean but the parameter type is Field"
    );
    assert_eq!(spanned(text, diags[0].primary_span), "true");
}

#[test]
fn calls_in_doubt_are_not_reported() {
    // An argument whose type is not shown, a generic callee, two callees of one
    // name, a method call, and a callee that is not known.
    let quiet = [
        "circuit g(a: Field): [] { }\ncircuit m(x: Boolean): [] { g(x); }",
        "circuit g<T>(a: T): [] { }\ncircuit m(): [] { g<Field>(true, true); }",
        "circuit g(a: Field): [] { }\nwitness g(): Field;\ncircuit m(): [] { g(true); }",
        "ledger c: Counter;\ncircuit m(): [] { c.increment(true); }",
        "circuit m(): [] { g(true); }",
        "circuit g(a: Boolean): [] { }\ncircuit m(): [] { g(true); }",
        "circuit g(a: Bytes<4>): [] { }\ncircuit m(): [] { g(true); }",
    ];
    for text in quiet {
        assert!(call_diags(text).is_empty(), "{text}");
    }
}

#[test]
fn the_parameters_of_a_witness_are_held_against_too() {
    let text = "witness w(a: Uint<8>, b: Boolean): Field;\ncircuit m(): [] { w(1, 2); }";
    let (db, src, fd, ws, file) = setup(text);
    let c = Ctx {
        db: &db,
        file,
        src,
        fd,
        ws: &ws,
    };
    let sig = callee_sig(&c, text.find("w(1").unwrap() as u32).unwrap();
    assert_eq!(sig.params, vec![TyKind::Uint(Some(256)), TyKind::Boolean]);
}

#[test]
fn a_ledger_argument_of_the_wrong_type_is_reported() {
    let text = "ledger c: Counter;\ncircuit m(): [] { c.increment(true); }";
    let diags = ledger_diags(text);
    assert_eq!(diags.len(), 1);
    assert_eq!(diags[0].code.prefix, "E");
    assert_eq!(diags[0].code.number, 3004);
    assert_eq!(
        diags[0].message,
        "expected argument 1 of increment to have type Uint<16> but received Boolean"
    );
    assert_eq!(spanned(text, diags[0].primary_span), "true");
}

#[test]
fn ledger_calls_in_doubt_are_not_reported() {
    let quiet = [
        "ledger c: Counter;\ncircuit m(): [] { c.decrement(true); }",
        "ledger c: Field;\ncircuit m(): [] { c.increment(true); }",
        "struct Counter { x: Field; }\nledger c: Counter;\ncircuit m(): [] { c.increment(true); }",
        "ledger c: Counter;\ncircuit m(x: Boolean): [] { c.increment(x); }",
        "ledger m: Map<Field, Field>;\ncircuit f(): [] { m.insert(true, true); }",
        "circuit m(c: Field): [] { c.increment(true); }",
    ];
    for text in quiet {
        assert!(ledger_diags(text).is_empty(), "{text}");
    }
}

#[test]
fn the_data_type_of_a_ledger_field_is_found_at_its_use() {
    let text = "ledger c: Counter;\nledger d: Field;\ncircuit m(): [] { c.increment(1); d = 1; }";
    let (db, src, fd, ws, file) = setup(text);
    let c = Ctx {
        db: &db,
        file,
        src,
        fd,
        ws: &ws,
    };
    let at = |s: &str| text.find(s).unwrap() as u32;
    assert_eq!(ledger_adt_at(&c, at("c.inc")).as_deref(), Some("Counter"));
    assert_eq!(ledger_adt_at(&c, at("d = 1")), None);
    assert_eq!(ledger_adt_at(&c, at("m()")), None);
    assert!(is_builtin_adt("HistoricMerkleTree"));
    assert!(!is_builtin_adt("counter"));
}

#[test]
fn the_parts_of_a_call_are_found() {
    let text = "circuit m(): [] { c.insert(1, f(2)); }";
    let (db, src, _, _, _) = setup(text);
    let tree = syntax_tree(&db, src);
    let call = (0..tree.len())
        .find(|&i| !tree.is_token(i) && tree.kind(i) == CALL_EXPR)
        .unwrap();
    assert!(is_method_call(tree, call));
    let args: Vec<&str> = arg_exprs(tree, call)
        .into_iter()
        .map(|e| spanned(text, tree.range(e)))
        .collect();
    assert_eq!(args, vec!["1", "f(2)"]);
    let receiver = method_receiver(tree, call).unwrap();
    assert_eq!(spanned(text, tree.range(receiver)), "c");
    let inner = arg_exprs(tree, call)[1];
    assert!(!is_method_call(tree, inner));
    assert_eq!(method_receiver(tree, inner), None);
}

#[test]
fn generic_arity_is_reported_with_both_numbers() {
    let text = "struct Box<T> { v: T; }\ncircuit m(b: Box<Field, Field>): [] { }";
    let mut host = AnalysisHost::new();
    let file = host.vfs_mut().file_id("/t/a.compact");
    host.vfs_mut().set_overlay(file, text.to_string(), 1);
    let diags = host.generic_diagnostics(file, &Disk::new());
    assert_eq!(diags.len(), 1);
    assert_eq!(diags[0].code.number, 3003);
    assert_eq!(
        diags[0].message,
        "mismatch between actual number 2 and declared number 1 of generic parameters for Box"
    );
    assert_eq!(spanned(text, diags[0].primary_span), "Box<Field, Field>");
}

#[test]
fn a_return_of_the_wrong_type_is_reported_with_both_types() {
    let text = "circuit foo(): Uint<8> { return true; }";
    let mut host = AnalysisHost::new();
    let file = host.vfs_mut().file_id("/t/a.compact");
    host.vfs_mut().set_overlay(file, text.to_string(), 1);
    let diags = host.type_diagnostics(file, &Disk::new());
    assert_eq!(diags.len(), 1);
    assert_eq!(
        diags[0].message,
        "mismatch between actual return type Boolean and declared return type Uint<8> of circuit foo"
    );
}

#[test]
fn each_complaint_about_imports_has_its_code() {
    let mut db = CompactDatabase::new();
    let src = SourceText::new(
        &mut db,
        "import A;\nimport \"sub/B\";\nimport C;\ninclude \"d\";\nimport CompactStandardLibrary;\n",
    );
    let other = SourceText::new(&mut db, "module Other { }");
    let none = SourceText::new(&mut db, "circuit x(): [] { }\nmodule C { }");
    let dep = |raw: &str, is_include: bool, target: Option<SourceText>| ResolvedDep {
        raw: raw.to_string(),
        is_include,
        target: target.map(|s| (FileId::from_raw_for_test(9), s)),
    };
    let fd = FileDeps::new(
        &mut db,
        vec![
            dep("A", false, None),
            dep("sub/B", false, Some(other)),
            dep("C", false, Some(none)),
            dep("d", true, None),
        ],
    );
    let diags = resolution_diagnostics_query(&db, src, fd, "/w", "");
    let found: Vec<(u16, &str)> = diags
        .iter()
        .map(|d| (d.code.number, d.message.as_str()))
        .collect();
    assert_eq!(
        found,
        vec![
            (9001, "cannot resolve import `A` (searched: /w)"),
            (9002, "imported file defines module `Other` rather than expected `B`"),
            (9003, "imported file does not contain a single `module C`"),
            (9004, "cannot resolve include `d` (searched: /w)"),
        ]
    );
}

#[test]
fn the_searched_places_are_listed() {
    assert_eq!(searched_list_display("/w", ""), "/w");
    assert_eq!(searched_list_display("/w", "/a, /b"), "/w, /a, /b");
}
