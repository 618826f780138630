//! Tests of the item tree.

use analyzer_core::item_tree::{ItemTree, Symbol, SymbolKind};
use analyzer_core::syntax::parse;

fn tree(source: &str) -> ItemTree {
    let (tree, diagnostics) = parse(source);
    assert!(diagnostics.is_empty());
    ItemTree::extract(&tree)
}

fn find<'t>(t: &'t ItemTree, name: &str) -> &'t Symbol {
    t.symbols.iter().find(|s| s.name == name).expect(name)
}

#[test]
fn extracts_top_level_items_with_kinds() {
    let t = tree(
        "export ledger count: Counter;\n\
         struct Point { x: Field; y: Field; }\n\
         enum Color { red, blue }\n\
         export circuit main(a: Field): Field { return a; }\n\
         witness secret(): Field;\n\
         type Pair = [Field, Field];\n",
    );
    assert_eq!(find(&t, "count").kind, SymbolKind::Ledger);
    assert!(find(&t, "count").exported);
    assert_eq!(find(&t, "Point").kind, SymbolKind::Struct);
    assert!(!find(&t, "Point").exported);
    assert_eq!(find(&t, "Color").kind, SymbolKind::Enum);
    assert_eq!(find(&t, "main").kind, SymbolKind::Circuit);
    assert_eq!(find(&t, "secret").kind, SymbolKind::Witness);
    assert_eq!(find(&t, "Pair").kind, SymbolKind::TypeAlias);
}

#[test]
fn fields_variants_and_module_members_have_parents() {
    let t = tree(
        "struct Point { x: Field; y: Field; }\n\
         enum Color { red, blue }\n\
         module M { export circuit f(): Field { return 0; } }\n",
    );
    let (point_idx, _) = t.top_level().into_iter().find(|(_, s)| s.name == "Point").unwrap();
    let fields: Vec<_> = t
        .children_of(point_idx)
        .into_iter()
        .map(|(_, s)| s.name.clone())
        .collect();
    assert_eq!(fields, vec!["x", "y"]);
    assert_eq!(find(&t, "x").kind, SymbolKind::StructField);
    assert_eq!(find(&t, "red").kind, SymbolKind::EnumVariant);
    let (m_idx, _) = t.top_level().into_iter().find(|(_, s)| s.name == "M").unwrap();
    let members: Vec<_> = t.children_of(m_idx)
        .into_iter()
        .map(|(_, s)| s.name.clone()).collect();
    assert_eq!(members, vec!["f"]);
    assert!(find(&t, "f").exported);
}

#[test]
fn name_range_covers_exactly_the_name() {
    let source = "circuit main(): Field { return 0; }";
    let t = tree(source);
    let sym = find(&t, "main");
    assert_eq!(&source[sym.name_range.start as usize..sym.name_range.end as usize], "main");
    assert_eq!(sym.full_range.start(), 0);
}

#[test]
fn signature_is_rendered_without_body() {
    let t = tree("export circuit main(a: Field,\n    b: Field): Field { return a; }");
    assert_eq!(find(&t, "main").signature, "export circuit main(a: Field, b: Field): Field");
    let t = tree("struct Point { x: Field; }");
    assert_eq!(find(&t, "Point").signature, "struct Point");
    let t = tree("export ledger count: Counter;");
    assert_eq!(find(&t, "count").signature, "export ledger count: Counter");
}

#[test]
fn leading_line_comments_become_docs() {
    let t = tree(
        "// Adds one.\n// Wraps at the field modulus.\ncircuit inc(x: Field): Field { return x + 1; }",
    );
    assert_eq!(
        find(&t, "inc").doc.as_deref(),
        Some("Adds one.\nWraps at the field modulus.")
    );
    let t = tree("circuit bare(): [] { }");
    assert_eq!(find(&t, "bare").doc, None);
}

#[test]
fn records_generic_param_count() {
    let t = tree(
        "export struct Box<T> { v: T; }\n\
         export struct Pair<A, B> { a: A; b: B; }\n\
         export struct Point { x: Field; y: Field; }\n\
         export enum Color { Red, Green }\n\
         export circuit id<T>(x: T): T { return x; }\n\
         export circuit plain(x: Field): Field { return x; }",
    );
    assert_eq!(find(&t, "Box").generic_param_count, 1);
    assert_eq!(find(&t, "Pair").generic_param_count, 2);
    assert_eq!(find(&t, "Point").generic_param_count, 0);
    assert_eq!(find(&t, "Color").generic_param_count, 0);
    assert_eq!(find(&t, "id").generic_param_count, 1);
    assert_eq!(find(&t, "plain").generic_param_count, 0);
}

#[test]
fn error_recovered_files_still_extract() {
    let (tree, _) = parse("circuit a(): [] { }\n@@@\ncircuit b(): [] { }");
    let t = ItemTree::extract(&tree);
    assert!(t.symbols.iter().any(|s| s.name == "a"));
    assert!(t.symbols.iter().any(|s| s.name == "b"));
}
