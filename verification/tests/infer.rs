//! Tests of the typing of literals and annotations.

use analyzer_core::analysis::AnalysisHost;
use analyzer_core::db::{item_tree, syntax_tree, CompactDatabase, SourceText};
use analyzer_core::disk::Disk;
use analyzer_core::infer::{
    circuit_node_by_index, infer_circuit_returns, type_diagnostics_query, type_node_kind,
};
use analyzer_core::item_tree::SymbolKind;
use analyzer_core::kinds::Class;
use analyzer_core::ty::TyKind;

/// The declared return type of the circuit at node `n`.
fn return_kind(db: &CompactDatabase, src: SourceText, n: usize) -> TyKind {
    let tree = syntax_tree(db, src);
    type_node_kind(tree, tree.child(n, Class::Type).expect("a return type"))
}

fn circuit_index(db: &CompactDatabase, src: SourceText, name: &str) -> u32 {
    let tree = item_tree(db, src);
    tree.symbols
        .iter()
        .position(|s| s.name == name && s.kind == SymbolKind::Circuit)
        .expect("circuit present") as u32
}

#[test]
fn boolean_literal_return_is_typed_boolean() {
    let mut db = CompactDatabase::new();
    let src = SourceText::new(&mut db, "export circuit foo(): Field { return true; }");
    let idx = circuit_index(&db, src, "foo");
    let returns = infer_circuit_returns(&db, src, idx);
    assert_eq!(returns.len(), 1);
    assert_eq!(returns[0].1, TyKind::Boolean);
}

#[test]
fn non_primitive_literal_return_is_unknown() {
    let mut db = CompactDatabase::new();
    let src = SourceText::new(&mut db, "export circuit foo(): Field { return 1; }");
    let idx = circuit_index(&db, src, "foo");
    let returns = infer_circuit_returns(&db, src, idx);
    assert_eq!(returns.len(), 1);
    assert_eq!(returns[0].1, TyKind::Unknown);
}

#[test]
fn type_node_kind_maps_primitives() {
    let mut db = CompactDatabase::new();
    let src = SourceText::new(&mut db, "export circuit foo(): Boolean { return true; }");
    let idx = circuit_index(&db, src, "foo");
    let circuit = (src, circuit_node_by_index(&db, src, idx).expect("circuit node"));
    assert_eq!(return_kind(&db, circuit.0, circuit.1), TyKind::Boolean);
}

#[test]
fn return_mismatch_emits_one_type_diagnostic() {
    let mut db = CompactDatabase::new();
    let src = SourceText::new(&mut db, "export circuit foo(): Field { return true; }");
    let diags = type_diagnostics_query(&db, src);
    assert_eq!(diags.len(), 1);
    assert_eq!(diags[0].code.prefix, "E");
    assert_eq!(diags[0].code.number, 3001);
    assert!(diags[0].message.contains("Boolean") && diags[0].message.contains("Field"));
}

#[test]
fn matching_return_emits_no_diagnostic() {
    let mut db = CompactDatabase::new();
    let src = SourceText::new(&mut db, "export circuit foo(): Boolean { return true; }");
    assert!(type_diagnostics_query(&db, src).is_empty());
}

#[test]
fn uint_annotation_lowers_to_bound() {
    let mut db = CompactDatabase::new();
    let a = SourceText::new(&mut db, "export circuit f(): Uint<8> { }");
    let ia = circuit_index(&db, a, "f");
    let ca = (a, circuit_node_by_index(&db, a, ia).expect("circuit node"));
    assert_eq!(return_kind(&db, ca.0, ca.1), TyKind::Uint(Some(256)));
    let b = SourceText::new(&mut db, "export circuit f(): Uint<0..10> { }");
    let ib = circuit_index(&db, b, "f");
    let cb = (b, circuit_node_by_index(&db, b, ib).expect("circuit node"));
    assert_eq!(return_kind(&db, cb.0, cb.1), TyKind::Uint(Some(10)));
    let c = SourceText::new(&mut db, "export circuit f(): Uint<3..10> { }");
    let ic = circuit_index(&db, c, "f");
    let cc = (c, circuit_node_by_index(&db, c, ic).expect("circuit node"));
    assert_eq!(return_kind(&db, cc.0, cc.1), TyKind::Unknown);
    let d = SourceText::new(&mut db, "export circuit f(): Uint<200> { }");
    let id = circuit_index(&db, d, "f");
    let cd = (d, circuit_node_by_index(&db, d, id).expect("circuit node"));
    assert_eq!(return_kind(&db, cd.0, cd.1), TyKind::Uint(None));
}

#[test]
fn unknown_operand_or_expectation_suppresses() {
    let mut db = CompactDatabase::new();
    let a = SourceText::new(&mut db, "export circuit foo(): Uint<0..7> { return true; }");
    assert_eq!(type_diagnostics_query(&db, a).len(), 1);
    let b = SourceText::new(&mut db, "export circuit foo(): Bytes<32> { return true; }");
    assert!(type_diagnostics_query(&db, b).is_empty());
}

#[test]
fn multi_circuit_reports_only_the_mismatched_one() {
    let mut db = CompactDatabase::new();
    let src = SourceText::new(&mut db, "export circuit good(): Boolean { return true; }\n\
             export circuit bad(): Field { return true; }");
    let diags = type_diagnostics_query(&db, src);
    assert_eq!(diags.len(), 1);
    assert!(diags[0].message.contains("bad"));
}

#[test]
fn host_bridge_reports_return_mismatch() {
    let mut host = AnalysisHost::new();
    let file = host.vfs_mut().file_id("/t/foo.compact");
    host.vfs_mut().set_overlay(
        file,
        "export circuit foo(): Field { return true; }".to_string(),
        1,
    );
    let diags = host.type_diagnostics(file, &Disk::new());
    assert_eq!(diags.len(), 1);
}

#[test]
fn a_range_whose_end_is_no_literal_is_unknown() {
    let kind = |text: &str| {
        let mut db = CompactDatabase::new();
        let src = SourceText::new(&mut db, text);
        let index = circuit_index(&db, src, "f");
        let node = circuit_node_by_index(&db, src, index).expect("circuit node");
        return_kind(&db, src, node)
    };
    assert_eq!(kind("circuit f<#n>(): Uint<0..n> { }"), TyKind::Unknown);
    assert_eq!(kind("circuit f(): Uint<0..0> { }"), TyKind::Unknown);
    assert_eq!(kind("circuit f<#n>(): Uint<n> { }"), TyKind::Unknown);
    assert_eq!(
        kind("circuit f(): Uint<0..340282366920938463463374607431768211456> { }"),
        TyKind::Uint(None)
    );
    assert_eq!(
        kind("circuit f(): Uint<0..340282366920938463463374607431768211455> { }"),
        TyKind::Uint(Some(u128::MAX))
    );
}
