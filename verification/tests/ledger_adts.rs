//! Tests of the ledger data types.

use analyzer_core::analysis::AnalysisHost;
use analyzer_core::disk::Disk;
use analyzer_core::ledger_adts::{LedgerAdtTable, LedgerMethod};
use analyzer_core::resolve::Definition;
use analyzer_core::text::TextRange;

fn method(name: &str, sig: &str) -> LedgerMethod {
    LedgerMethod {
        name: name.to_string(),
        sig: sig.to_string(),
        doc: String::new(),
    }
}

fn rows() -> Vec<(String, Option<Vec<LedgerMethod>>)> {
    vec![
        ("Cell".to_string(), Some(vec![method("read", "read(): T")])),
        (
            "Counter".to_string(),
            Some(vec![method("increment", "increment(amount: Uint<16>): []")]),
        ),
        ("Set".to_string(), None),
        ("_meta".to_string(), Some(vec![method("note", "")])),
    ]
}

#[test]
fn the_table_holds_rows_with_methods() {
    let table = LedgerAdtTable::load(rows());
    let inc = table
        .methods("Counter")
        .iter()
        .find(|m| m.name == "increment")
        .unwrap();
    assert_eq!(inc.sig, "increment(amount: Uint<16>): []");
    assert_eq!(table.methods("Cell").len(), 1);
    assert!(table.methods("Set").is_empty());
    assert!(table.methods("_meta").is_empty());
    assert!(table.methods("nonsense").is_empty());
}

#[test]
fn the_host_answers_from_its_table() {
    let mut host = AnalysisHost::new();
    assert!(host.ledger_adt_methods("Counter").is_empty());
    host.set_ledger_adts(LedgerAdtTable::load(rows()));
    assert_eq!(host.ledger_adt_methods("Counter")[0].name, "increment");
}

#[test]
fn ledger_field_adt_maps_head_and_implicit_cell() {
    let mut host = AnalysisHost::new();
    let file = host.vfs_mut().file_id("/t/main.compact");
    host.vfs_mut().set_overlay(
        file,
        "export ledger cnt: Counter;\nexport ledger bal: Uint<64>;\n".to_string(),
        1,
    );
    let tree = host.analyze(file, &Disk::new()).unwrap().item_tree.symbols.clone();
    let cnt = tree.iter().position(|s| s.name == "cnt").unwrap();
    let bal = tree.iter().position(|s| s.name == "bal").unwrap();
    assert_eq!(
        host.ledger_field_adt(&Definition::Item { file, index: cnt as u32 }, &Disk::new()),
        Some("Counter".to_string())
    );
    assert_eq!(
        host.ledger_field_adt(&Definition::Item { file, index: bal as u32 }, &Disk::new()),
        Some("Cell".to_string())
    );
}

#[test]
fn ledger_field_adt_local_definition_is_none() {
    let mut host = AnalysisHost::new();
    let file = host.vfs_mut().file_id("/t/local.compact");
    let local = Definition::Local {
        file,
        name: "x".to_string(),
        name_range: TextRange::new(0, 1),
        detail: "x: Field".to_string(),
    };
    assert_eq!(host.ledger_field_adt(&local, &Disk::new()), None);
}

#[test]
fn ledger_field_adt_non_ledger_item_is_none() {
    let mut host = AnalysisHost::new();
    let file = host.vfs_mut().file_id("/t/circuit.compact");
    host.vfs_mut().set_overlay(
        file,
        "circuit helper(): Field { return 0; }\n".to_string(),
        1,
    );
    let tree = host.analyze(file, &Disk::new()).unwrap().item_tree.symbols.clone();
    let idx = tree
        .iter()
        .position(|s| s.name == "helper")
        .unwrap();
    assert_eq!(
        host.ledger_field_adt(&Definition::Item { file, index: idx as u32 }, &Disk::new()),
        None
    );
}

#[test]
fn ledger_field_adt_generic_head_maps_to_declared_adt() {
    let mut host = AnalysisHost::new();
    let file = host.vfs_mut().file_id("/t/generic_ledger.compact");
    host.vfs_mut()
        .set_overlay(file, "export ledger m: Map<Field, Field>;\n".to_string(), 1);
    let tree = host.analyze(file, &Disk::new()).unwrap().item_tree.symbols.clone();
    let idx = tree.iter().position(|s| s.name == "m").unwrap();
    assert_eq!(
        host.ledger_field_adt(&Definition::Item { file, index: idx as u32 }, &Disk::new()),
        Some("Map".to_string())
    );
}

#[test]
fn ledger_field_adt_user_struct_type_maps_to_cell() {
    let mut host = AnalysisHost::new();
    let file = host.vfs_mut().file_id("/t/struct_ledger.compact");
    host.vfs_mut().set_overlay(
        file,
        "struct Foo { x: Field; }\nexport ledger f: Foo;\n".to_string(),
        1,
    );
    let tree = host.analyze(file, &Disk::new()).unwrap().item_tree.symbols.clone();
    let idx = tree.iter().position(|s| s.name == "f").unwrap();
    assert_eq!(
        host.ledger_field_adt(&Definition::Item { file, index: idx as u32 }, &Disk::new()),
        Some("Cell".to_string())
    );
}
