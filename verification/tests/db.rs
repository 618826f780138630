//! Tests of the database and of resolution and typing over it.

use analyzer_core::analysis::AnalysisHost;
use analyzer_core::db::{
    file_symbols, item_tree, parsed, raw_imports, resolve_imports, resolve_in_file,
    source_text_for, CompactDatabase, Ctx, FileDeps, SourceText, Workspace,
};
use analyzer_core::diagnostics::Diagnostic;
use analyzer_core::disk::Disk;
use analyzer_core::filemap::FileMap;
use analyzer_core::resolve::{Definition, FilePosition};
use analyzer_core::ty::TyKind;
use analyzer_core::typing::{expr_ty, named_type_ty};
use analyzer_core::vfs::FileId;

fn empty_ws() -> Workspace {
    Workspace::new(None, FileMap::new(), FileMap::new())
}

#[test]
fn parsed_reuses_memo_across_unchanged_calls() {
    let mut db = CompactDatabase::new();
    let src = SourceText::new(&mut db, "ledger count: Field;");
    let a = parsed(&db, src);
    let b = parsed(&db, src);
    assert!(std::ptr::eq(a, b));
}

#[test]
fn editing_one_file_does_not_recompute_another() {
    let mut db = CompactDatabase::new();
    let a = SourceText::new(&mut db, "ledger a: Field;");
    let b = SourceText::new(&mut db, "ledger b: Field;");

    let before = parsed(&db, a).item_tree.symbols.clone();
    let place = format!("{:p}", parsed(&db, a).text.as_str());

    b.set_text(&mut db, "ledger b2: Field;");
    assert_eq!(parsed(&db, a).item_tree.symbols, before);
    assert_eq!(format!("{:p}", parsed(&db, a).text.as_str()), place);
    assert_eq!(parsed(&db, b).item_tree.symbols[0].name, "b2");
}

#[test]
fn trivia_only_edit_backdates_item_tree() {
    let mut db = CompactDatabase::new();
    let src = SourceText::new(&mut db, "export circuit c(): [] {}");
    let t1 = item_tree(&db, src).symbols.clone();
    let s1 = file_symbols(&db, src);
    src.set_text(&mut db, "export circuit c(): [] {} // note");
    let t2 = item_tree(&db, src).symbols.clone();
    let s2 = file_symbols(&db, src);
    assert_eq!(t1, t2);
    assert_eq!(s1, s2);
}

#[test]
fn resolve_in_file_finds_top_level_and_enclosing_module() {
    let mut db = CompactDatabase::new();
    let src = SourceText::new(&mut db, "circuit helper(): [] {}\nmodule M { circuit inner(): [] {} }");
    let fd = FileDeps::new(&mut db, Vec::new());
    let ws = empty_ws();
    let d = resolve_in_file(
        &db,
        FileId::from_raw_for_test(0),
        src,
        fd,
        &ws,
        0,
        "helper",
    );
    assert!(matches!(d, Some(Definition::Item { .. })));
    assert!(
        resolve_in_file(
            &db,
            FileId::from_raw_for_test(0),
            src,
            fd,
            &ws,
            0,
            "nope",
        )
        .is_none()
    );
}

#[test]
fn resolve_imports_in_scope_module_member() {
    let mut db = CompactDatabase::new();
    let src = SourceText::new(&mut db, "module M { export circuit ex(): [] {} }\nimport M;");
    let fd = FileDeps::new(&mut db, Vec::new());
    let ws = empty_ws();
    let d = resolve_imports(&db, FileId::from_raw_for_test(0), src, fd, &ws, "ex");
    assert!(matches!(d, Some(Definition::Item { index, .. }) if index != 0));
}

#[test]
fn raw_imports_filters_stdlib_and_local_modules() {
    let mut db = CompactDatabase::new();
    let text =
        "import CompactStandardLibrary;\nimport Foo;\nmodule Foo {}\nimport \"bar/baz\";\n";
    let src = SourceText::new(&mut db, text);
    let deps = raw_imports(&db, src);
    assert_eq!(deps.len(), 1);
    assert_eq!(deps[0].raw, "bar/baz");
}

#[test]
fn source_text_for_reads_file_srcs_map() {
    let mut db = CompactDatabase::new();
    let this_src = SourceText::new(&mut db, "circuit here(): [] {}");
    let other_src = SourceText::new(&mut db, "circuit there(): [] {}");
    let this = FileId::from_raw_for_test(0);
    let other = FileId::from_raw_for_test(1);
    let mut srcs = FileMap::new();
    srcs.insert(other, other_src);
    let ws = Workspace::new(None, FileMap::new(), srcs);
    let got = source_text_for(other, this, this_src, &ws);
    assert_eq!(got, Some(other_src));
    assert_eq!(source_text_for(FileId::from_raw_for_test(9), this, this_src, &ws), None);
}

#[test]
fn named_type_lowers_struct_to_nominal() {
    let mut db = CompactDatabase::new();
    let text =
        "struct S { a: Field; b: Boolean; }\nexport circuit c(s: S): Boolean { return s.b; }";
    let src = SourceText::new(&mut db, text);
    let fd = FileDeps::new(&mut db, Vec::new());
    let ws = empty_ws();
    let file = FileId::from_raw_for_test(0);
    let off = text.find(": S").expect("`: S` present") + 2;
    let kind = named_type_ty(&Ctx { db: &db, file, src: src, fd, ws: &ws }, off as u32);
    assert_eq!(
        kind,
        TyKind::Struct {
            name: "S".to_string(),
            fields: vec![
                ("a".to_string(), TyKind::Field),
                ("b".to_string(), TyKind::Boolean),
            ],
        }
    );
}

#[test]
fn named_type_lowers_enum_to_nominal() {
    let mut db = CompactDatabase::new();
    let text = "enum E { A, B }\nexport circuit c(e: E): E { return e; }";
    let src = SourceText::new(&mut db, text);
    let fd = FileDeps::new(&mut db, Vec::new());
    let ws = empty_ws();
    let file = FileId::from_raw_for_test(0);
    let off = text.find(": E").expect("`: E` present") + 2;
    let kind = named_type_ty(&Ctx { db: &db, file, src: src, fd, ws: &ws }, off as u32);
    assert_eq!(
        kind,
        TyKind::Enum {
            name: "E".to_string(),
            variants: vec!["A".to_string(), "B".to_string()],
        }
    );
}

#[test]
fn named_type_self_referential_struct_terminates() {
    let mut db = CompactDatabase::new();
    let text = "struct Node { v: Field; next: Node; }\nexport circuit c(n: Node): Field { return n.v; }";
    let src = SourceText::new(&mut db, text);
    let fd = FileDeps::new(&mut db, Vec::new());
    let ws = empty_ws();
    let file = FileId::from_raw_for_test(0);
    let off = text.find(": Node").expect("`: Node` present") + 2;
    let kind = named_type_ty(&Ctx { db: &db, file, src: src, fd, ws: &ws }, off as u32);
    assert_eq!(
        kind,
        TyKind::Struct {
            name: "Node".to_string(),
            fields: vec![
                ("v".to_string(), TyKind::Field),
                ("next".to_string(), TyKind::Unknown),
            ],
        }
    );
}

#[test]
fn named_type_unresolved_is_unknown() {
    let mut db = CompactDatabase::new();
    let text = "export circuit c(x: Nope): Field { return 0; }";
    let src = SourceText::new(&mut db, text);
    let fd = FileDeps::new(&mut db, Vec::new());
    let ws = empty_ws();
    let file = FileId::from_raw_for_test(0);
    let off = text.find(": Nope").expect("`: Nope` present") + 2;
    assert_eq!(
        named_type_ty(&Ctx { db: &db, file, src: src, fd, ws: &ws }, off as u32),
        TyKind::Unknown
    );
}

#[test]
fn generic_typeref_arity_is_checked() {
    fn diags(src: &str) -> Vec<Diagnostic> {
        let mut host = AnalysisHost::new();
        let file = host.vfs_mut().file_id("/t/a.compact");
        host.vfs_mut().set_overlay(file, src.to_string(), 1);
        host.generic_diagnostics(file, &Disk::new())
    }

    assert!(
        diags("struct Box<T> { v: T; }\nexport circuit m(): Box<Field> { return default<Box<Field>>; }")
            .is_empty()
    );
    let d = diags("struct Box<T> { v: T; }\nexport circuit m(): Box { return default<Box>; }");
    assert_eq!(d.len(), 2);
    for diag in &d {
        assert!(
            diag.message.contains("actual number 0")
                && diag.message.contains("declared number 1")
                && diag.message.contains("Box")
        );
    }
    assert_eq!(
        diags("struct Pair<A, B> { a: A; b: B; }\nexport circuit m(): Pair<Field> { return default<Pair<Field>>; }").len(),
        2
    );
    assert_eq!(
        diags("struct Point { x: Field; }\nexport circuit m(): Point<Field> { return default<Point<Field>>; }").len(),
        2
    );
    assert!(diags("export circuit m(): Nope<Field> { return default<Nope<Field>>; }").is_empty());
}

fn empty_ctx(db: &mut CompactDatabase) -> (FileDeps, Workspace) {
    let fd = FileDeps::new(db, Vec::new());
    (fd, empty_ws())
}

fn s_struct() -> TyKind {
    TyKind::Struct {
        name: "S".to_string(),
        fields: vec![
            ("a".to_string(), TyKind::Field),
            ("b".to_string(), TyKind::Boolean),
        ],
    }
}

#[test]
fn expr_ty_local_chain_and_pseudo_cycle_terminate_via_depth_cap() {
    let mut db = CompactDatabase::new();
    let (fd, ws) = empty_ctx(&mut db);
    let file = FileId::from_raw_for_test(0);

    let text = "export circuit c(): Field { const a = b; const b = a; return a; }";
    let src = SourceText::new(&mut db, text);
    let off = text.find("return a").unwrap() + "return ".len();
    assert_eq!(
        expr_ty(&Ctx { db: &db, file, src: src, fd, ws: &ws }, off as u32),
        TyKind::Unknown
    );

    let mut chain = String::from("export circuit c2(): Field { const a0 = 0; ");
    for i in 1..40 {
        chain.push_str(&format!("const a{i} = a{}; ", i - 1));
    }
    chain.push_str("return a39; }");
    let src2 = SourceText::new(&mut db, &chain);
    let off2 = chain.find("return a39").unwrap() + "return ".len();
    assert_eq!(
        expr_ty(&Ctx { db: &db, file, src: src2, fd, ws: &ws }, off2 as u32),
        TyKind::Unknown
    );
}

#[test]
fn expr_ty_identifier_param_types_to_struct() {
    let mut db = CompactDatabase::new();
    let text =
        "struct S { a: Field; b: Boolean; }\nexport circuit c(s: S): Field { return s.a; }";
    let src = SourceText::new(&mut db, text);
    let (fd, ws) = empty_ctx(&mut db);
    let file = FileId::from_raw_for_test(0);
    let off = text.find("return s.a").unwrap() + "return ".len();
    assert_eq!(
        expr_ty(&Ctx { db: &db, file, src: src, fd, ws: &ws }, off as u32),
        s_struct()
    );
}

#[test]
fn expr_ty_member_types_to_field() {
    let mut db = CompactDatabase::new();
    let text =
        "struct S { a: Field; b: Boolean; }\nexport circuit c(s: S): Field { return s.a; }";
    let src = SourceText::new(&mut db, text);
    let (fd, ws) = empty_ctx(&mut db);
    let file = FileId::from_raw_for_test(0);
    let off = text.find("return s.a").unwrap() + "return ".len() + 2;
    assert_eq!(
        expr_ty(&Ctx { db: &db, file, src: src, fd, ws: &ws }, off as u32),
        TyKind::Field
    );
    let text2 =
        "struct S { a: Field; b: Boolean; }\nexport circuit c(s: S): Boolean { return s.b; }";
    let src2 = SourceText::new(&mut db, text2);
    let off2 = text2.find("return s.b").unwrap() + "return ".len() + 2;
    assert_eq!(
        expr_ty(&Ctx { db: &db, file, src: src2, fd, ws: &ws }, off2 as u32),
        TyKind::Boolean
    );
}

#[test]
fn expr_ty_call_result_types_to_return_and_flows_through_const() {
    let mut db = CompactDatabase::new();
    let text = "struct S { a: Field; b: Boolean; }\n\
         circuit mk(): S { return S { a: 0, b: false }; }\n\
         export circuit c(): Field { const s = mk(); return s.a; }";
    let src = SourceText::new(&mut db, text);
    let (fd, ws) = empty_ctx(&mut db);
    let file = FileId::from_raw_for_test(0);
    let off = text.find("= mk()").unwrap() + 2;
    assert_eq!(
        expr_ty(&Ctx { db: &db, file, src: src, fd, ws: &ws }, off as u32),
        s_struct()
    );
    let off2 = text.find("return s.a").unwrap() + "return ".len() + 2;
    assert_eq!(
        expr_ty(&Ctx { db: &db, file, src: src, fd, ws: &ws }, off2 as u32),
        TyKind::Field
    );
}

#[test]
fn expr_ty_unmodeled_is_unknown() {
    let mut db = CompactDatabase::new();
    let text = "circuit gen<T>(x: T): T { return x; }\n\
         export circuit c(): Field { return gen<Field>(0); }";
    let src = SourceText::new(&mut db, text);
    let (fd, ws) = empty_ctx(&mut db);
    let file = FileId::from_raw_for_test(0);
    let off = text.find("gen<Field>").unwrap();
    assert_eq!(
        expr_ty(&Ctx { db: &db, file, src: src, fd, ws: &ws }, off as u32),
        TyKind::Unknown
    );
    let text2 = "export circuit c(): Field { return 1 + 2; }";
    let src2 = SourceText::new(&mut db, text2);
    let off2 = text2.find("+ 2").unwrap();
    assert_eq!(
        expr_ty(&Ctx { db: &db, file, src: src2, fd, ws: &ws }, off2 as u32),
        TyKind::Unknown
    );
}

#[test]
fn expr_ty_cross_file_struct_member_types_to_field() {
    let mut disk = Disk::new();
    disk.add_file(
        "/t/Lib.compact".to_string(),
        Some("module Lib { export struct S { a: Field; b: Boolean; } }".to_string()),
    );
    let main_src = "import Lib;\nexport circuit c(s: S): Field { return s.a; }";
    disk.add_file("/t/main.compact".to_string(), Some(main_src.to_string()));

    let mut host = AnalysisHost::new();
    let file = host.vfs_mut().file_id("/t/main.compact");
    host.vfs_mut().set_overlay(file, main_src.to_string(), 1);

    let s_off = main_src.find("s: S").unwrap() + 3;
    assert!(
        host.resolve(FilePosition {
            file,
            offset: s_off as u32,
        }, &disk)
        .is_some()
    );

    let off = main_src.find("return s.a").unwrap() + "return ".len() + 2;
    assert_eq!(host.type_at(file, off as u32, &disk), Some(TyKind::Field));
}

#[test]
fn expr_ty_cross_file_include_nested_struct_member_types_to_field() {
    let mut disk = Disk::new();
    disk.add_file(
        "/t/Lib.compact".to_string(),
        Some("struct S { a: Field; }\nstruct T { s: S; }".to_string()),
    );
    let main_src = "include \"Lib\";\nexport circuit c(t: T): Field { return t.s.a; }";
    disk.add_file("/t/main.compact".to_string(), Some(main_src.to_string()));

    let mut host = AnalysisHost::new();
    let file = host.vfs_mut().file_id("/t/main.compact");
    host.vfs_mut().set_overlay(file, main_src.to_string(), 1);

    let t_off = main_src.find("t: T").unwrap() + 3;
    assert!(
        host.resolve(FilePosition {
            file,
            offset: t_off as u32,
        }, &disk)
        .is_some()
    );

    let s_off = main_src.find("return t.s.a").unwrap() + "return t.".len();
    assert_eq!(
        host.type_at(file, s_off as u32, &disk),
        Some(TyKind::Struct {
            name: "S".to_string(),
            fields: vec![("a".to_string(), TyKind::Field)],
        })
    );

    let a_off = main_src.find("return t.s.a").unwrap() + "return t.s.".len();
    assert_eq!(host.type_at(file, a_off as u32, &disk), Some(TyKind::Field));
}
