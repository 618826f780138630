//! The laws of the library on concrete values.

use analyzer_core::analysis::AnalysisHost;
use analyzer_core::diagnostics::Severity;
use analyzer_core::disclosure::abs::{
    abs_equal, combine_abs, disclose, merge_witnesses, taint_present, witnesses_of, Abs, PathPoint,
    Witness, WitnessInfo,
};
use analyzer_core::disclosure::tables::{ledger_op, native_conduit, LedgerOp};
use analyzer_core::disclosure::version::{major_minor, version_mismatch, PINNED_COMPILER_VERSION};
use analyzer_core::disk::Disk;
use analyzer_core::item_tree::{ItemTree, SymbolKind};
use analyzer_core::resolve::{enclosing_module, Definition, FilePosition};
use analyzer_core::syntax::parse;
use analyzer_core::text::TextRange;
use analyzer_core::ty::{can_cast, is_subtype, TyKind};

fn witness(uid: u32) -> Witness {
    Witness {
        uid,
        src: TextRange::empty(uid),
        info: WitnessInfo::WitnessReturn {
            function: "w".to_string(),
        },
        path: Vec::new(),
    }
}

fn uids(ws: &[Witness]) -> Vec<u32> {
    ws.iter().map(|w| w.uid).collect()
}

fn atomic(ids: &[u32]) -> Abs {
    Abs::Atomic(ids.iter().map(|&u| witness(u)).collect())
}

fn host_with(text: &str) -> (AnalysisHost, FilePosition) {
    let mut host = AnalysisHost::new();
    let file = host.vfs_mut().file_id("/t/a.compact");
    host.vfs_mut().set_overlay(file, text.to_string(), 1);
    (host, FilePosition { file, offset: 0 })
}

#[test]
fn merging_unites_sorts_and_joins_trails() {
    let point = |d: &str| PathPoint {
        src: TextRange::empty(0),
        description: d.to_string(),
        exposure: String::new(),
    };
    let mut a = witness(4);
    a.path.push(point("first"));
    let mut b = witness(4);
    b.path.push(point("second"));
    let merged = merge_witnesses(&vec![witness(9), a], &vec![b, witness(2)]);
    assert_eq!(uids(&merged), vec![2, 4, 9]);
    assert_eq!(merged[1].path, vec![point("first"), point("second")]);
}

#[test]
fn joins_keep_all_taint_and_disclosing_removes_it() {
    let a = Abs::Multiple(vec![atomic(&[1]), atomic(&[])]);
    let b = Abs::Multiple(vec![atomic(&[2]), atomic(&[3])]);
    let joined = combine_abs(&a, &b);
    assert_eq!(uids(&witnesses_of(&joined)), vec![1, 2, 3]);
    assert!(taint_present(&joined));
    let clean = disclose(&joined);
    assert!(!taint_present(&clean));
    assert_eq!(disclose(&clean), clean);
    assert!(matches!(clean, Abs::Multiple(items) if items.len() == 2));
}

#[test]
fn equivalence_ignores_the_order_of_witnesses() {
    let a = Abs::Single(Box::new(atomic(&[1, 2])));
    let b = Abs::Single(Box::new(atomic(&[2, 1])));
    assert!(abs_equal(&a, &a));
    assert!(abs_equal(&a, &b) && abs_equal(&b, &a));
    let c = Abs::Single(Box::new(atomic(&[1, 2])));
    assert!(abs_equal(&b, &c) && abs_equal(&a, &c));
    assert!(!abs_equal(&a, &atomic(&[1, 2])));
    assert!(!abs_equal(&a, &Abs::Single(Box::new(atomic(&[1, 3])))));
}

#[test]
fn commitments_hide_and_only_one_ledger_argument_does() {
    assert_eq!(native_conduit("transientCommit"), Some(vec![None, None]));
    match ledger_op("claimContractCall") {
        Some(LedgerOp::PerArg(flags)) => {
            assert_eq!(flags.iter().filter(|f| f.is_none()).count(), 1)
        }
        _ => panic!("expected flags per argument"),
    }
}

#[test]
fn only_the_first_two_numbers_of_a_version_count() {
    let pinned = major_minor(PINNED_COMPILER_VERSION).unwrap();
    assert_eq!(pinned, ("0".to_string(), "31".to_string()));
    assert_eq!(version_mismatch("0.31.99"), None);
    assert!(version_mismatch("0.32.1").is_some());
}

#[test]
fn subtypes_are_transitive_and_castable() {
    let small = TyKind::Uint(Some(4));
    let big = TyKind::Uint(Some(256));
    assert!(is_subtype(&small, &big) && is_subtype(&big, &TyKind::Field));
    assert!(is_subtype(&small, &TyKind::Field));
    assert!(can_cast(&small, &TyKind::Field) && can_cast(&TyKind::Field, &small));
    // An unknown type in the middle breaks the chain.
    assert!(is_subtype(&TyKind::Boolean, &TyKind::Unknown));
    assert!(is_subtype(&TyKind::Unknown, &TyKind::Field));
    assert!(!is_subtype(&TyKind::Boolean, &TyKind::Field));
    let vector = TyKind::Vector(2, Box::new(TyKind::Field));
    let tuple = TyKind::Tuple(vec![TyKind::Field, TyKind::Field]);
    assert!(is_subtype(&vector, &tuple) && is_subtype(&tuple, &vector));
}

#[test]
fn containers_come_before_their_members() {
    let (tree, _) = parse(
        "module M { module N { export struct S { a: Field; } } enum E { x } }\n\
         contract C { circuit f(): Field; }\n",
    );
    let items = ItemTree::extract(&tree);
    for (i, s) in items.symbols.iter().enumerate() {
        if let Some(p) = s.parent {
            assert!((p as usize) < i);
            let container = &items.symbols[p as usize];
            let expected = match s.kind {
                SymbolKind::StructField => SymbolKind::Struct,
                SymbolKind::EnumVariant => SymbolKind::Enum,
                SymbolKind::ContractCircuit => SymbolKind::Contract,
                _ => SymbolKind::Module,
            };
            assert_eq!(container.kind, expected);
        }
    }
    let field = items.symbols.iter().find(|s| s.name == "a").unwrap();
    assert!(field.exported);
    let inner = enclosing_module(&items, field.name_range.start()).unwrap();
    assert_eq!(items.symbols[inner as usize].name, "N");
}

#[test]
fn nearer_scopes_hide_farther_ones() {
    let text = "circuit f(): [] { }\nmodule M { circuit f(): [] { } circuit g(): [] { f(); } }\n\
                circuit h(f: Field): Field { return f; }\n";
    let (mut host, pos) = host_with(text);
    let at = |s: &str| FilePosition {
        file: pos.file,
        offset: text.find(s).unwrap() as u32,
    };
    let disk = Disk::new();
    // The member of the module, not the item of the file before it.
    assert_eq!(
        host.resolve(at("f(); }"), &disk),
        Some(Definition::Item {
            file: pos.file,
            index: 2
        })
    );
    assert!(matches!(
        host.resolve_name_at(at("f; }"), "f", &disk),
        Some(Definition::Local { .. })
    ));
    assert_eq!(
        host.resolve_name_at(at("circuit f"), "f", &disk),
        Some(Definition::Item {
            file: pos.file,
            index: 0
        })
    );
}

#[test]
fn every_leak_is_an_error_before_the_warnings() {
    let (mut host, pos) = host_with(
        "export ledger c: Field;\nwitness w(): Field;\n\
         export circuit a(): [] { c = w(); mystery(); }\n\
         export circuit b(): Field { return w(); }\n\
         export circuit quiet(): Field { return disclose(w()); }\n",
    );
    let diags = host.disclosure_diagnostics(pos.file, &Disk::new());
    let severities: Vec<Severity> = diags.iter().map(|d| d.severity).collect();
    assert_eq!(
        severities,
        vec![Severity::Error, Severity::Error, Severity::Warning]
    );
    assert!(diags[..2].iter().all(|d| !d.secondary_spans.is_empty()));
    assert!(diags.iter().all(|d| d.code.number == 3100));
    assert_eq!(
        diags[1].message,
        "potential witness-value disclosure: the value returned from exported circuit b"
    );
}

#[test]
fn files_that_splice_each_other_in_are_all_indexed() {
    let mut disk = Disk::new();
    for (path, text) in [
        ("/w/main.compact", "include \"a\";\ninclude \"gone\";\n"),
        ("/w/a.compact", "include \"b\";\n"),
        ("/w/b.compact", "include \"a\";\ncircuit deep(): [] { }\n"),
    ] {
        disk.add_file(path.to_string(), Some(text.to_string()));
    }
    let mut host = AnalysisHost::new();
    let main = host.vfs_mut().file_id("/w/main.compact");
    let before = host.generation();
    host.ensure_indexed(main, &disk);
    assert_eq!(host.generation(), before);
    assert_eq!(host.workspace_files().len(), 3);
    assert_eq!(host.workspace_symbols("deep").len(), 1);
    // Once indexed, a file is not indexed again.
    host.ensure_indexed(main, &Disk::new());
    assert_eq!(host.workspace_files().len(), 3);
}

#[test]
fn reading_again_gives_the_same_handle() {
    let mut disk = Disk::new();
    disk.add_file("/w/a.compact".to_string(), Some("ledger a: Field;".to_string()));
    let mut host = AnalysisHost::new();
    let file = host.vfs_mut().file_id("/w/a.compact");
    let first = host.source_for(file, &disk);
    assert!(first.is_some());
    assert_eq!(host.source_for(file, &Disk::new()), first);
    host.forget_file(file);
    let anew = host.source_for(file, &Disk::new());
    assert_ne!(anew, first);
    assert_eq!(anew.unwrap().text(host.db_ref()), "ledger a: Field;");
}
