//! Tests of name resolution.

use analyzer_core::analysis::AnalysisHost;
use analyzer_core::diagnostics::Severity;
use analyzer_core::disk::Disk;
use analyzer_core::fixture::extract;
use analyzer_core::item_tree::SymbolKind;
use analyzer_core::resolve::{scope_bindings_at, Definition, FilePosition};
use analyzer_core::syntax::parse;
use analyzer_core::vfs::FileId;

fn position_of(source: &str) -> (AnalysisHost, FilePosition) {
    let (clean, offset) = extract(source);
    let mut host = AnalysisHost::new();
    let file = host.vfs_mut().file_id("/test/main.compact");
    host.vfs_mut().set_overlay(file, clean, 1);
    (host, FilePosition { file, offset })
}

fn resolve_local(source: &str) -> Option<(String, String)> {
    let (mut host, pos) = position_of(source);
    match host.resolve(pos, &Disk::new())? {
        Definition::Local { name, detail, .. } => Some((name, detail)),
        Definition::Item { .. } => panic!("expected a local"),
    }
}

#[test]
fn resolves_circuit_param() {
    let (name, detail) =
        resolve_local("circuit f(base: Field): Field { return ba$0se; }").unwrap();
    assert_eq!(name, "base");
    assert_eq!(detail, "base: Field");
}

#[test]
fn resolves_const_with_shadowing() {
    let source = "circuit f(): Field {\n  const x = 1;\n  const x = 2;\n  return x$0;\n}";
    let (mut host, pos) = position_of(source);
    let Some(Definition::Local { name_range, .. }) = host.resolve(pos, &Disk::new()) else {
        panic!("expected local");
    };
    let (clean, _) = extract(source);
    let second_x = clean.rfind("const x").unwrap() + "const ".len();
    assert_eq!(name_range.start() as usize, second_x);
}

#[test]
fn const_is_not_visible_before_its_declaration() {
    assert!(
        resolve_local("circuit f(): Field {\n  const a = b$0;\n  const b = 1;\n  return 0;\n}")
            .is_none()
    );
}

#[test]
fn resolves_for_loop_binding_only_inside_body() {
    let (name, detail) = resolve_local(
        "circuit f(): [] {\n  for (const i of 0..10) {\n    const y = i$0;\n  }\n}",
    )
    .unwrap();
    assert_eq!(name, "i");
    assert_eq!(detail, "for i");
    assert!(
        resolve_local("circuit f(): Field {\n  for (const i of 0..10) { }\n  return i$0;\n}")
            .is_none()
    );
}

#[test]
fn resolves_tuple_pattern_binding() {
    let (name, _) = resolve_local(
        "circuit f(pair: [Field, Field]): Field {\n  const [a, b] = pair;\n  return b$0;\n}",
    )
    .unwrap();
    assert_eq!(name, "b");
}

#[test]
fn resolves_generic_type_param_in_type_position() {
    let (name, detail) =
        resolve_local("circuit id<T>(value: T): T$0 { return value; }").unwrap();
    assert_eq!(name, "T");
    assert_eq!(detail, "generic T");
}

#[test]
fn resolves_nat_generic_in_type_size_position() {
    let (name, detail) = resolve_local("struct Box<#n> { v: Vector<n$0, Field>; }").unwrap();
    assert_eq!(name, "n");
    assert_eq!(detail, "generic #n");
}

#[test]
fn resolves_lambda_param() {
    let (name, _) = resolve_local(
        "circuit f(v: Vector<2, Field>): Vector<2, Field> {\n  return map((x) => x$0 + 1, v);\n}",
    )
    .unwrap();
    assert_eq!(name, "x");
}

#[test]
fn typed_lambda_param_resolves() {
    let (name, _) =
        resolve_local("circuit c(): Field { return map((x: Field) => x$0, xs); }").unwrap();
    assert_eq!(name, "x");
}

#[test]
fn struct_pattern_binding_resolves_from_binding_site() {
    let (name, _) =
        resolve_local("circuit c(pt: Field): Field { const { a$0, b } = pt; return a + b; }")
            .unwrap();
    assert_eq!(name, "a");
}

#[test]
fn struct_pattern_binding_resolves_from_use_site() {
    let (name, _) =
        resolve_local("circuit c(pt: Field): Field { const { a, b } = pt; return a$0 + b; }")
            .unwrap();
    assert_eq!(name, "a");
}

#[test]
fn definition_site_resolves_to_itself() {
    let source = "circuit f(): Field {\n  const lo$0ng_name = 1;\n  return long_name;\n}";
    let (mut host, pos) = position_of(source);
    let Some(Definition::Local { name, .. }) = host.resolve(pos, &Disk::new()) else {
        panic!("expected local");
    };
    assert_eq!(name, "long_name");
}

#[test]
fn unknown_name_resolves_to_none_gracefully() {
    assert!(resolve_local("circuit f(): Field { return mystery$0; }").is_none());
}

#[test]
fn resolves_multi_const_binding() {
    let (name, detail) =
        resolve_local("circuit f(): Field {\n  const a = 1, b = 2;\n  return b$0;\n}").unwrap();
    assert_eq!(name, "b");
    assert_eq!(detail, "const b");
    let (name_a, _) =
        resolve_local("circuit f(): Field {\n  const a = 1, b = 2;\n  return a$0;\n}").unwrap();
    assert_eq!(name_a, "a");
}

#[test]
fn multi_const_in_for_body_detail_is_const_not_for() {
    let (name, detail) = resolve_local(
        "circuit f(): [] {\n  for (const i of 0..10) {\n    const a = 1, b = 2;\n    return b$0;\n  }\n}",
    )
    .unwrap();
    assert_eq!(name, "b");
    assert_eq!(detail, "const b");
}

#[test]
fn scope_bindings_enumerates_locals_nearest_first() {
    let source = "circuit f(x: Field, y: Field): Field {\n  const z = 1;\n  return x$0;\n}";
    let (clean, offset) = extract(source);
    let (root, _) = parse(&clean);
    let names: Vec<String> = scope_bindings_at(&root, offset)
        .into_iter()
        .map(|b| b.name)
        .collect();
    assert_eq!(names, vec!["z", "x", "y"]);
}

#[test]
fn host_resolve_bridges_to_tracked_query() {
    let (mut host, pos) =
        position_of("circuit helper(): [] {}\ncircuit main(): [] { hel$0per(); }");
    let def = host.resolve(pos, &Disk::new()).unwrap();
    assert!(matches!(def, Definition::Item { .. }));
}

/// A stand-in for the standard library.
const STDLIB: &str = "export circuit persistentHash<T>(value: T): Bytes<32> { }\n";

fn full_host(source: &str) -> (AnalysisHost, FilePosition, Disk) {
    let (clean, offset) = extract(source);
    let mut disk = Disk::new();
    disk.add_file("/std/std.compact".to_string(), Some(STDLIB.to_string()));
    let mut host = AnalysisHost::new();
    host.register_stdlib("/std/std.compact", &disk);
    let file = host.vfs_mut().file_id("/test/main.compact");
    host.vfs_mut().set_overlay(file, clean, 1);
    (host, FilePosition { file, offset }, disk)
}

fn resolve_item(source: &str) -> Option<(FileId, String, SymbolKind)> {
    let (mut host, pos, disk) = full_host(source);
    match host.resolve(pos, &disk)? {
        Definition::Item { file, index } => {
            let sym = host.analyze(file, &disk).unwrap().item_tree.symbols[index as usize].clone();
            Some((file, sym.name, sym.kind))
        }
        Definition::Local { .. } => panic!("expected an item"),
    }
}

#[test]
fn resolves_top_level_circuit_call() {
    let (_, name, kind) = resolve_item(
        "circuit helper(): Field { return 1; }\ncircuit main(): Field { return hel$0per(); }",
    )
    .unwrap();
    assert_eq!(name, "helper");
    assert_eq!(kind, SymbolKind::Circuit);
}

#[test]
fn resolves_type_reference_to_struct() {
    let (_, name, kind) =
        resolve_item("struct Point { x: Field; }\ncircuit f(p: Po$0int): Field { return 0; }")
            .unwrap();
    assert_eq!(name, "Point");
    assert_eq!(kind, SymbolKind::Struct);
}

#[test]
fn locals_shadow_top_level_items() {
    let source = "circuit helper(): Field { return 1; }\n\
                  circuit main(): Field {\n  const helper = 2;\n  return help$0er;\n}";
    let (mut host, pos, disk) = full_host(source);
    assert!(matches!(host.resolve(pos, &disk), Some(Definition::Local { .. })));
}

#[test]
fn resolves_imported_module_member() {
    let (_, name, _) = resolve_item(
        "module Inner {\n  export circuit double(x: Field): Field { return x + x; }\n}\n\
         import Inner;\n\
         circuit main(): Field { return dou$0ble(1); }",
    )
    .unwrap();
    assert_eq!(name, "double");
}

#[test]
fn unimported_module_members_do_not_resolve() {
    let (mut host, pos, disk) = full_host(
        "module Inner {\n  export circuit double(x: Field): Field { return x + x; }\n}\n\
         circuit main(): Field { return dou$0ble(1); }",
    );
    assert_eq!(host.resolve(pos, &disk), None);
}

#[test]
fn selective_import_with_alias() {
    let (_, name, _) = resolve_item(
        "module Inner {\n  export circuit double(x: Field): Field { return x + x; }\n}\n\
         import { double as twice } from Inner;\n\
         circuit main(): Field { return twi$0ce(1); }",
    )
    .unwrap();
    assert_eq!(name, "double");
    let (mut host, pos, disk) = full_host(
        "module Inner {\n  export circuit double(x: Field): Field { return x + x; }\n  export circuit triple(x: Field): Field { return x + x + x; }\n}\n\
         import { double } from Inner;\n\
         circuit main(): Field { return tri$0ple(1); }",
    );
    assert_eq!(host.resolve(pos, &disk), None);
}

#[test]
fn prefix_import_strips_prefix() {
    let (_, name, _) = resolve_item(
        "module Inner {\n  export circuit double(x: Field): Field { return x + x; }\n}\n\
         import Inner prefix In_;\n\
         circuit main(): Field { return In_dou$0ble(1); }",
    )
    .unwrap();
    assert_eq!(name, "double");
    let (mut host, pos, disk) = full_host(
        "module Inner {\n  export circuit double(x: Field): Field { return x + x; }\n}\n\
         import Inner prefix In_;\n\
         circuit main(): Field { return dou$0ble(1); }",
    );
    assert_eq!(host.resolve(pos, &disk), None);
}

#[test]
fn resolves_stdlib_call_into_stub_file() {
    let (mut host, pos, disk) = full_host(
        "import CompactStandardLibrary;\n\
         circuit main(x: Field): Bytes<32> { return persistent$0Hash<Field>(x); }",
    );
    let Some(Definition::Item { file, index }) = host.resolve(pos, &disk) else {
        panic!("expected stdlib item");
    };
    assert_eq!(Some(file), host.stdlib_file());
    let sym = &host.analyze(file, &disk).unwrap().item_tree.symbols[index as usize];
    assert_eq!(sym.name, "persistentHash");
}

#[test]
fn stdlib_not_visible_without_import() {
    let (mut host, pos, disk) =
        full_host("circuit main(x: Field): Bytes<32> { return persistent$0Hash<Field>(x); }");
    assert_eq!(host.resolve(pos, &disk), None);
}

#[test]
fn resolves_struct_literal_field_label() {
    let (_, name, kind) = resolve_item(
        "struct Point { x: Field; y: Field; }\n\
         circuit f(): Field {\n  const p = Point { x$0: 1, y: 2 };\n  return 0;\n}",
    )
    .unwrap();
    assert_eq!(name, "x");
    assert_eq!(kind, SymbolKind::StructField);
}

#[test]
fn resolves_enum_variant_member() {
    let (_, name, kind) = resolve_item(
        "enum Color { red, blue }\n\
         circuit f(): [] {\n  const c = Color.re$0d;\n}",
    )
    .unwrap();
    assert_eq!(name, "red");
    assert_eq!(kind, SymbolKind::EnumVariant);
}

#[test]
fn ledger_adt_methods_resolve_to_none() {
    let (mut host, pos, disk) = full_host(
        "export ledger count: Counter;\n\
         circuit f(): [] {\n  count.incre$0ment(1);\n}",
    );
    assert_eq!(host.resolve(pos, &disk), None);
}

#[test]
fn bare_member_access_on_non_enum_item_resolves_to_none() {
    let (mut host, pos, disk) = full_host(
        "export ledger count: Counter;\n\
         circuit f(): [] {\n  const c = count.fo$0o;\n}",
    );
    assert_eq!(host.resolve(pos, &disk), None);
}

#[test]
fn string_path_import_with_missing_file_is_unresolved() {
    let (mut host, pos, disk) = full_host(
        "import \"./utils\" prefix U_;\n\
         circuit main(): Field { return U_help$0er(); }",
    );
    assert_eq!(host.resolve(pos, &disk), None);
}

/// A disk that holds files under `/w`.
fn files(list: &[(&str, &str)]) -> Disk {
    let mut disk = Disk::new();
    for (rel, text) in list {
        disk.add_file(format!("/w/{rel}"), Some(text.to_string()));
    }
    disk
}

fn cross_file(
    marked_open: &str,
    open_rel: &str,
    others: &[(&str, &str)],
) -> (AnalysisHost, Disk, FilePosition) {
    let (clean, offset) = extract(marked_open);
    let mut disk = files(others);
    let path = format!("/w/{open_rel}");
    disk.add_file(path.clone(), Some(clean.clone()));
    let mut host = AnalysisHost::new();
    let file = host.vfs_mut().file_id(&path);
    host.vfs_mut().set_overlay(file, clean, 1);
    (host, disk, FilePosition { file, offset })
}

#[test]
fn identifier_import_resolves_across_files() {
    let (mut host, disk, pos) = cross_file(
        "import Foo;\ncircuit m(): Field { return f$0(); }",
        "main.compact",
        &[(
            "Foo.compact",
            "module Foo { export circuit f(): Field { return 0; } }",
        )],
    );
    let pos_file = pos.file;
    let def = host
        .resolve(pos, &disk)
        .expect("resolves through identifier import");
    assert_eq!(host.def_name(&def, &disk).unwrap(), "f");
    assert_ne!(host.nav_info(&def, &disk).unwrap().0, pos_file);
}

#[test]
fn string_path_import_resolves_across_files() {
    let (mut host, disk, pos) = cross_file(
        "import \"sub/Bar\";\ncircuit m(): Field { return g$0(); }",
        "main.compact",
        &[(
            "sub/Bar.compact",
            "module Bar { export circuit g(): Field { return 0; } }",
        )],
    );
    let pos_file = pos.file;
    let def = host
        .resolve(pos, &disk)
        .expect("resolves through string-path import");
    assert_eq!(host.def_name(&def, &disk).unwrap(), "g");
    assert_ne!(host.nav_info(&def, &disk).unwrap().0, pos_file);
}

#[test]
fn import_with_wrong_module_name_is_unresolved() {
    let (mut host, disk, pos) = cross_file(
        "import Foo;\ncircuit m(): Field { return f$0(); }",
        "main.compact",
        &[(
            "Foo.compact",
            "module NotFoo { export circuit f(): Field { return 0; } }",
        )],
    );
    assert!(host.resolve(pos, &disk).is_none());
}

#[test]
fn missing_import_file_is_unresolved() {
    let (mut host, disk, pos) = cross_file(
        "import Missing;\ncircuit m(): Field { return f$0(); }",
        "main.compact",
        &[],
    );
    assert!(host.resolve(pos, &disk).is_none());
}

#[test]
fn include_makes_top_level_decls_visible() {
    let (mut host, disk, pos) = cross_file(
        "include \"inc\";\ncircuit m(): Field { return help$0er(); }",
        "main.compact",
        &[("inc.compact", "circuit helper(): Field { return 0; }")],
    );
    let pos_file = pos.file;
    let def = host.resolve(pos, &disk).expect("resolves into included file");
    assert_eq!(host.def_name(&def, &disk).unwrap(), "helper");
    assert_ne!(host.nav_info(&def, &disk).unwrap().0, pos_file);
}

#[test]
fn transitive_includes_resolve() {
    let (mut host, disk, pos) = cross_file(
        "include \"a\";\ncircuit m(): Field { return de$0ep(); }",
        "main.compact",
        &[
            ("a.compact", "include \"b\";"),
            ("b.compact", "circuit deep(): Field { return 0; }"),
        ],
    );
    let pos_file = pos.file;
    let def = host
        .resolve(pos, &disk)
        .expect("resolves through transitive include");
    assert_eq!(host.def_name(&def, &disk).unwrap(), "deep");
    assert_ne!(host.nav_info(&def, &disk).unwrap().0, pos_file);
}

#[test]
fn include_cycle_terminates() {
    let (mut host, disk, pos) = cross_file(
        "include \"a\";\ncircuit m(): Field { return miss$0ing(); }",
        "main.compact",
        &[
            ("a.compact", "include \"b\";"),
            ("b.compact", "include \"a\";"),
        ],
    );
    assert!(host.resolve(pos, &disk).is_none());
}

fn diag_host(list: &[(&str, &str)], open_rel: &str) -> (AnalysisHost, Disk, FileId) {
    let disk = files(list);
    let mut host = AnalysisHost::new();
    let file = host.vfs_mut().file_id(&format!("/w/{open_rel}"));
    (host, disk, file)
}

#[test]
fn unresolved_import_is_an_error() {
    let (mut host, disk, file) = diag_host(
        &[(
            "main.compact",
            "import Missing;\ncircuit m(): Field { return 0; }",
        )],
        "main.compact",
    );
    let diags = host.resolution_diagnostics(file, &disk);
    assert_eq!(diags.len(), 1);
    assert_eq!(diags[0].severity, Severity::Error);
    assert!(diags[0].message.contains("cannot resolve import"));
    assert!(diags[0].message.contains("Missing"));
}

#[test]
fn resolvable_import_has_no_diagnostic() {
    let (mut host, disk, file) = diag_host(
        &[
            (
                "Foo.compact",
                "module Foo { export circuit f(): Field { return 0; } }",
            ),
            (
                "main.compact",
                "import Foo;\ncircuit m(): Field { return 0; }",
            ),
        ],
        "main.compact",
    );
    assert!(host.resolution_diagnostics(file, &disk).is_empty());
}

#[test]
fn module_name_mismatch_is_an_error() {
    let (mut host, disk, file) = diag_host(
        &[
            (
                "Foo.compact",
                "module NotFoo { export circuit f(): Field { return 0; } }",
            ),
            (
                "main.compact",
                "import Foo;\ncircuit m(): Field { return 0; }",
            ),
        ],
        "main.compact",
    );
    let diags = host.resolution_diagnostics(file, &disk);
    assert_eq!(diags.len(), 1);
    assert!(diags[0].message.contains("rather than expected"));
}

#[test]
fn unresolved_include_is_an_error() {
    let (mut host, disk, file) = diag_host(
        &[(
            "main.compact",
            "include \"nope\";\ncircuit m(): Field { return 0; }",
        )],
        "main.compact",
    );
    let diags = host.resolution_diagnostics(file, &disk);
    assert_eq!(diags.len(), 1);
    assert!(diags[0].message.contains("cannot resolve include"));
}

#[test]
fn resolution_diagnostics_report_unresolved_import() {
    let disk = files(&[("main.compact", "import \"DoesNotExist\";")]);
    let mut host = AnalysisHost::new();
    let id = host.vfs_mut().file_id("/w/main.compact");
    host.index_file(id, &disk);
    let diags = host.resolution_diagnostics(id, &disk);
    assert_eq!(diags.len(), 1);
    assert_eq!(diags[0].code.prefix, "E");
    assert_eq!(diags[0].code.number, 9001);
}

#[test]
fn unresolved_import_searched_list_matches_original_format() {
    let (mut host, disk, file) = diag_host(
        &[(
            "main.compact",
            "import Missing;\ncircuit m(): Field { return 0; }",
        )],
        "main.compact",
    );
    host.set_import_search_path(vec!["/w/libs".to_string()]);
    let diags = host.resolution_diagnostics(file, &disk);
    assert_eq!(diags.len(), 1);
    assert_eq!(diags[0].message, "cannot resolve import `Missing` (searched: /w, /w/libs)");
}
