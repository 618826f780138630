//! Tests of the disclosure interpreter.

use analyzer_core::db::{
    item_tree, syntax_tree, CompactDatabase, FileDeps, SourceText, Workspace,
};
use analyzer_core::disclosure::abs::{witnesses_of, Abs, Witness, WitnessInfo};
use analyzer_core::disclosure::env::{Env, WalkState};
use analyzer_core::disclosure::interp::{abs_of_type, interp_expr, interp_stmt, InterpCtx};
use analyzer_core::disclosure::leaks::{DisclosureLeak, DisclosureSink};
use analyzer_core::disclosure::roots::{discover_roots, interp_root, seed_sources, Root};
use analyzer_core::filemap::FileMap;
use analyzer_core::item_tree::{ItemTree, Symbol, SymbolKind};
use analyzer_core::kinds::{
    BINARY_EXPR, BLOCK, CALL_EXPR, CAST_EXPR, DISCLOSE_EXPR, FOLD_EXPR, MAP_EXPR, MEMBER_EXPR,
    TERNARY_EXPR, UNARY_EXPR,
};
use analyzer_core::syntax::SyntaxTree;
use analyzer_core::text::TextRange;
use analyzer_core::ty::TyKind;
use analyzer_core::vfs::FileId;

fn empty_ws() -> Workspace {
    Workspace::new(None, FileMap::new(), FileMap::new())
}

fn witness(uid: u32) -> Witness {
    Witness {
        uid,
        src: TextRange::empty(0),
        info: WitnessInfo::CircuitArg {
            function: "f".into(),
            arg: "x".into(),
        },
        path: Vec::new(),
    }
}

#[test]
fn abs_of_type_builds_struct_multiple_array_single() {
    let mut sink = DisclosureSink::new();
    let w = witness(0);

    let scalar = abs_of_type(&mut sink, &TyKind::Field, &vec![w.clone()]);
    assert_eq!(scalar, Abs::Atomic(vec![w.clone()]));

    let st = TyKind::Struct {
        name: "Point".to_string(),
        fields: vec![
            ("x".to_string(), TyKind::Field),
            ("y".to_string(), TyKind::Boolean),
        ],
    };
    let struct_abs = abs_of_type(&mut sink, &st, &vec![w.clone()]);
    match struct_abs {
        Abs::Multiple(children) => {
            assert_eq!(children.len(), 2);
            assert_eq!(children[0], Abs::Atomic(vec![w.clone()]));
            assert_eq!(children[1], Abs::Atomic(vec![w.clone()]));
        }
        other => panic!("expected Abs::Multiple, got {other:?}"),
    }

    let tup = TyKind::Tuple(vec![TyKind::Field, TyKind::Field]);
    assert!(matches!(
        abs_of_type(&mut sink, &tup, &vec![w.clone()]),
        Abs::Multiple(children) if children.len() == 2
    ));

    let vec_ty = TyKind::Vector(3, Box::new(TyKind::Field));
    let vec_abs = abs_of_type(&mut sink, &vec_ty, &vec![w.clone()]);
    match vec_abs {
        Abs::Single(inner) => assert_eq!(*inner, Abs::Atomic(vec![w])),
        other => panic!("expected Abs::Single, got {other:?}"),
    }

    assert!(sink.advisories().is_empty());
}

#[test]
fn abs_of_type_unknown_emits_advisory() {
    let mut sink = DisclosureSink::new();
    let w = witness(0);
    let result = abs_of_type(&mut sink, &TyKind::Unknown, &vec![w.clone()]);
    assert_eq!(result, Abs::Atomic(vec![w]));
    assert_eq!(sink.advisories().len(), 1);
    assert!(sink.advisories()[0].reason.contains("Unknown"));
}

#[test]
fn seed_sources_tags_constructor_and_circuit_args() {
    let mut db = CompactDatabase::new();
    let text = "export ledger c: Uint<8>;\n\
                 constructor(secret: Uint<8>) { c = secret; }\n\
                 export circuit f(pub_x: Field): [] { }\n";
    let src = SourceText::new(&mut db, text);
    let fd = FileDeps::new(&mut db, Vec::new());
    let ws = empty_ws();
    let file = FileId::from_raw_for_test(0);
    let tree = item_tree(&db, src);
    let base = InterpCtx {
        db: &db,
        file,
        src,
        fd,
        ws: &ws,
        disclosing_fn: None,
    };

    let mut sink = DisclosureSink::new();
    let roots = discover_roots(&base, &tree, &mut sink);
    let ctor_root = roots
        .iter()
        .find(|r| matches!(r, Root::Constructor { .. }))
        .expect("constructor root");
    let circuit_root = roots
        .iter()
        .find(|r| matches!(r, Root::Circuit { name, .. } if name == "f"))
        .expect("circuit root f");

    let ctor_env = seed_sources(&db, file, src, fd, &ws, ctor_root, &mut sink);
    let secret_abs = ctor_env.get("secret").expect("secret seeded");
    match secret_abs {
        Abs::Atomic(witnesses) => {
            assert_eq!(witnesses.len(), 1);
            assert_eq!(
                witnesses[0].info,
                WitnessInfo::ConstructorArg {
                    arg: "secret".into()
                }
            );
        }
        other => panic!("expected Abs::Atomic, got {other:?}"),
    }

    let circuit_env = seed_sources(&db, file, src, fd, &ws, circuit_root, &mut sink);
    let pub_x_abs = circuit_env.get("pub_x").expect("pub_x seeded");
    match pub_x_abs {
        Abs::Atomic(witnesses) => {
            assert_eq!(witnesses.len(), 1);
            assert_eq!(
                witnesses[0].info,
                WitnessInfo::CircuitArg {
                    function: "f".into(),
                    arg: "pub_x".into(),
                }
            );
        }
        other => panic!("expected Abs::Atomic, got {other:?}"),
    }

    assert!(sink.advisories().is_empty());
}

#[test]
fn discover_roots_finds_exported_circuits_and_constructor_only() {
    let mut db = CompactDatabase::new();
    let text = "constructor(x: Field) { }\n\
                 export circuit pub_c(): [] { }\n\
                 circuit priv_c(): [] { }\n";
    let src = SourceText::new(&mut db, text);
    let fd = FileDeps::new(&mut db, Vec::new());
    let ws = empty_ws();
    let file = FileId::from_raw_for_test(0);
    let tree = item_tree(&db, src);
    let base = InterpCtx {
        db: &db,
        file,
        src,
        fd,
        ws: &ws,
        disclosing_fn: None,
    };
    let mut sink = DisclosureSink::new();
    let roots = discover_roots(&base, &tree, &mut sink);

    assert!(roots.iter().any(|r| matches!(r, Root::Constructor { .. })));
    assert!(
        roots
            .iter()
            .any(|r| matches!(r, Root::Circuit { name, .. } if name == "pub_c"))
    );
    assert!(
        !roots
            .iter()
            .any(|r| matches!(r, Root::Circuit { name, .. } if name == "priv_c"))
    );
    assert_eq!(roots.len(), 2);
}

#[test]
fn module_nested_circuit_not_a_root() {
    let (db, src, fd, ws, file) = walk_setup(
        "import CompactStandardLibrary;\n\
         module M {\n\
         export ledger c: Field;\n\
         export circuit leak(x: Field): Field { c = x; return x; }\n\
         }\n",
    );
    let base = InterpCtx {
        db: &db,
        file,
        src,
        fd,
        ws: &ws,
        disclosing_fn: None,
    };
    let tree = item_tree(&db, src);
    let mut sink = DisclosureSink::new();
    let roots = discover_roots(&base, &tree, &mut sink);
    assert!(
        !roots
            .iter()
            .any(|r| matches!(r, Root::Circuit { name, .. } if name == "leak"))
    );
    for root in &roots {
        interp_root(&base, &mut sink, root);
    }
    assert!(
        sink.drain_leaks().is_empty()
    );
    assert!(
        sink.advisories()
            .iter()
            .any(|a| a.reason.contains("module-nested circuit `leak`"))
    );
}

#[test]
fn module_reexported_circuit_is_a_root_and_leaks() {
    let (db, src, fd, ws, file) = walk_setup(
        "import CompactStandardLibrary;\n\
         module Inner {\n\
         export ledger stored: Field;\n\
         export circuit store(x: Field): [] { stored = x; }\n\
         }\n\
         import { store as s } from Inner;\n\
         export { s };\n",
    );
    let base = InterpCtx {
        db: &db,
        file,
        src,
        fd,
        ws: &ws,
        disclosing_fn: None,
    };
    let tree = item_tree(&db, src);
    let mut sink = DisclosureSink::new();
    let roots = discover_roots(&base, &tree, &mut sink);
    assert!(
        roots
            .iter()
            .any(|r| matches!(r, Root::Circuit { name, .. } if name == "store"))
    );
    for root in &roots {
        interp_root(&base, &mut sink, root);
    }
    assert!(
        !sink.drain_leaks().is_empty()
    );
    assert!(
        !sink
            .advisories()
            .iter()
            .any(|a| a.reason.contains("`store`") && a.reason.contains("not re-exported"))
    );
}

#[test]
fn module_reexported_disclosing_circuit_is_a_root_but_no_leak() {
    let (db, src, fd, ws, file) = walk_setup(
        "import CompactStandardLibrary;\n\
         module Inner {\n\
         export ledger stored: Field;\n\
         export circuit store(x: Field): [] { stored = disclose(x); }\n\
         }\n\
         import { store as s } from Inner;\n\
         export { s };\n",
    );
    let base = InterpCtx {
        db: &db,
        file,
        src,
        fd,
        ws: &ws,
        disclosing_fn: None,
    };
    let tree = item_tree(&db, src);
    let mut sink = DisclosureSink::new();
    let roots = discover_roots(&base, &tree, &mut sink);
    assert!(
        roots
            .iter()
            .any(|r| matches!(r, Root::Circuit { name, .. } if name == "store"))
    );
    for root in &roots {
        interp_root(&base, &mut sink, root);
    }
    assert!(
        sink.drain_leaks().is_empty()
    );
}

#[test]
fn module_imported_call_leaks_interprocedurally() {
    let (db, src, fd, ws, file) = walk_setup(
        "import CompactStandardLibrary;\n\
         module Inner {\n\
         export ledger stored: Field;\n\
         export circuit store(x: Field): [] { stored = x; }\n\
         }\n\
         import { store as s } from Inner;\n\
         export circuit top(secret: Field): [] { s(secret); }\n",
    );
    let base = InterpCtx {
        db: &db,
        file,
        src,
        fd,
        ws: &ws,
        disclosing_fn: None,
    };
    let tree = item_tree(&db, src);
    let mut sink = DisclosureSink::new();
    let roots = discover_roots(&base, &tree, &mut sink);
    for root in &roots {
        interp_root(&base, &mut sink, root);
    }
    assert!(
        !sink.drain_leaks().is_empty()
    );
}

#[test]
fn unresolved_callee_is_amber_not_conduit() {
    let (db, src, fd, ws, file) = walk_setup(
        "import CompactStandardLibrary;\n\
         export ledger c: Field;\n\
         witness getW(): Field;\n\
         export circuit f(): [] { c = mf(getW()); }\n",
    );
    let base = InterpCtx {
        db: &db,
        file,
        src,
        fd,
        ws: &ws,
        disclosing_fn: None,
    };
    let tree = item_tree(&db, src);
    let mut sink = DisclosureSink::new();
    let roots = discover_roots(&base, &tree, &mut sink);
    for root in &roots {
        interp_root(&base, &mut sink, root);
    }
    assert!(
        sink.drain_leaks().is_empty()
    );
    assert!(
        !sink.advisories().is_empty()
    );
}

fn walk_setup(
    text: &str,
) -> (
    CompactDatabase,
    SourceText,
    FileDeps,
    Workspace,
    FileId,
) {
    let mut db = CompactDatabase::new();
    let src = SourceText::new(&mut db, text);
    let fd = FileDeps::new(&mut db, Vec::new());
    let ws = empty_ws();
    let file = FileId::from_raw_for_test(0);
    (db, src, fd, ws, file)
}

fn first_node(tree: &SyntaxTree, kind: u16) -> usize {
    (0..tree.len())
        .find(|&i| !tree.is_token(i) && tree.kind(i) == kind)
        .expect("a node of the kind")
}

#[test]
fn disclose_sanitizes() {
    let (db, src, fd, ws, file) =
        walk_setup("export circuit f(): Field { return disclose(w); }\n");
    let ctx = InterpCtx {
        db: &db,
        file,
        src,
        fd,
        ws: &ws,
        disclosing_fn: None,
    };
    let root = syntax_tree(&db, src);
    let expr = first_node(root, DISCLOSE_EXPR);
    let mut env = Env::new();
    env.insert("w".into(), Abs::Atomic(vec![witness(1)]));
    let mut sink = DisclosureSink::new();
    let out = interp_expr(&ctx, &mut sink, &mut WalkState::new(), &env, &Vec::new(), expr);
    assert!(witnesses_of(&out).is_empty());
}

#[test]
fn witness_call_seeds_witness_return() {
    let (db, src, fd, ws, file) =
        walk_setup("witness getW(): Field;\nexport circuit f(): Field { return getW(); }\n");
    let ctx = InterpCtx {
        db: &db,
        file,
        src,
        fd,
        ws: &ws,
        disclosing_fn: None,
    };
    let root = syntax_tree(&db, src);
    let expr = first_node(root, CALL_EXPR);
    let env = Env::new();
    let mut sink = DisclosureSink::new();
    let out = interp_expr(&ctx, &mut sink, &mut WalkState::new(), &env, &Vec::new(), expr);
    match out {
        Abs::Atomic(ws) => {
            assert_eq!(ws.len(), 1);
            assert_eq!(
                ws[0].info,
                WitnessInfo::WitnessReturn {
                    function: "getW".into()
                }
            );
        }
        other => panic!("expected Atomic witness-return, got {other:?}"),
    }
}

#[test]
fn member_projects_struct_field() {
    let (db, src, fd, ws, file) = walk_setup(
        "witness g1(): Field;\nwitness g2(): Field;\nstruct S { a: Field, b: Field }\n\
         export circuit f(): Field { return (S { a: g1(), b: g2() }).b; }\n",
    );
    let ctx = InterpCtx {
        db: &db,
        file,
        src,
        fd,
        ws: &ws,
        disclosing_fn: None,
    };
    let root = syntax_tree(&db, src);
    let expr = first_node(root, MEMBER_EXPR);
    let env = Env::new();
    let mut sink = DisclosureSink::new();
    let out = interp_expr(&ctx, &mut sink, &mut WalkState::new(), &env, &Vec::new(), expr);
    let got = witnesses_of(&out);
    assert_eq!(got.len(), 1);
    assert_eq!(
        got[0].info,
        WitnessInfo::WitnessReturn {
            function: "g2".into()
        }
    );
}

#[test]
fn cast_passthrough_keeps_taint() {
    let (db, src, fd, ws, file) =
        walk_setup("export circuit f(): Field { return w as Field; }\n");
    let ctx = InterpCtx {
        db: &db,
        file,
        src,
        fd,
        ws: &ws,
        disclosing_fn: None,
    };
    let root = syntax_tree(&db, src);
    let expr = first_node(root, CAST_EXPR);
    let mut env = Env::new();
    env.insert("w".into(), Abs::Atomic(vec![witness(1)]));
    let mut sink = DisclosureSink::new();
    let out = interp_expr(&ctx, &mut sink, &mut WalkState::new(), &env, &Vec::new(), expr);
    assert_eq!(witnesses_of(&out).len(), 1);
}

#[test]
fn comparison_unions_to_atomic() {
    let (db, src, fd, ws, file) =
        walk_setup("export circuit f(): Boolean { return w == 0; }\n");
    let ctx = InterpCtx {
        db: &db,
        file,
        src,
        fd,
        ws: &ws,
        disclosing_fn: None,
    };
    let root = syntax_tree(&db, src);
    let expr = first_node(root, BINARY_EXPR);
    let mut env = Env::new();
    env.insert("w".into(), Abs::Atomic(vec![witness(1)]));
    let mut sink = DisclosureSink::new();
    let out = interp_expr(&ctx, &mut sink, &mut WalkState::new(), &env, &Vec::new(), expr);
    assert!(
        matches!(out, Abs::Atomic(_))
    );
    assert_eq!(witnesses_of(&out).len(), 1);
}

#[test]
fn if_joins_both_branches() {
    let (db, src, fd, ws, file) =
        walk_setup("export circuit f(): Field { return c ? a : b; }\n");
    let ctx = InterpCtx {
        db: &db,
        file,
        src,
        fd,
        ws: &ws,
        disclosing_fn: None,
    };
    let root = syntax_tree(&db, src);
    let expr = first_node(root, TERNARY_EXPR);
    let mut env = Env::new();
    env.insert("c".into(), Abs::Atomic(vec![]));
    env.insert("a".into(), Abs::Atomic(vec![witness(1)]));
    env.insert("b".into(), Abs::Atomic(vec![witness(2)]));
    let mut sink = DisclosureSink::new();
    let out = interp_expr(&ctx, &mut sink, &mut WalkState::new(), &env, &Vec::new(), expr);
    assert_eq!(
        witnesses_of(&out).len(),
        2
    );
}

#[test]
fn arithmetic_keeps_taint() {
    let (db, src, fd, ws, file) = walk_setup("export circuit f(): Field { return w + 0; }\n");
    let ctx = InterpCtx {
        db: &db,
        file,
        src,
        fd,
        ws: &ws,
        disclosing_fn: None,
    };
    let root = syntax_tree(&db, src);
    let expr = first_node(root, BINARY_EXPR);
    let mut env = Env::new();
    env.insert("w".into(), Abs::Atomic(vec![witness(1)]));
    let mut sink = DisclosureSink::new();
    let out = interp_expr(&ctx, &mut sink, &mut WalkState::new(), &env, &Vec::new(), expr);
    assert_eq!(witnesses_of(&out).len(), 1);
}

#[test]
fn unhandled_form_emits_advisory_and_keeps_taint() {
    let (db, src, fd, ws, file) = walk_setup("export circuit f(): Boolean { return !w; }\n");
    let ctx = InterpCtx {
        db: &db,
        file,
        src,
        fd,
        ws: &ws,
        disclosing_fn: None,
    };
    let root = syntax_tree(&db, src);
    let expr = first_node(root, UNARY_EXPR);
    let mut env = Env::new();
    env.insert("w".into(), Abs::Atomic(vec![witness(1)]));
    let mut sink = DisclosureSink::new();
    let out = interp_expr(&ctx, &mut sink, &mut WalkState::new(), &env, &Vec::new(), expr);
    assert!(
        !sink.advisories().is_empty()
    );
    assert_eq!(witnesses_of(&out).len(), 1);
}

#[test]
fn unresolved_call_is_amber_clean_not_conduit() {
    let (db, src, fd, ws, file) =
        walk_setup("export circuit f(): Field { return blackbox(w); }\n");
    let ctx = InterpCtx {
        db: &db,
        file,
        src,
        fd,
        ws: &ws,
        disclosing_fn: None,
    };
    let root = syntax_tree(&db, src);
    let expr = first_node(root, CALL_EXPR);
    let mut env = Env::new();
    env.insert("w".into(), Abs::Atomic(vec![witness(1)]));
    let mut sink = DisclosureSink::new();
    let out = interp_expr(&ctx, &mut sink, &mut WalkState::new(), &env, &Vec::new(), expr);
    assert!(
        !sink.advisories().is_empty()
    );
    assert!(
        witnesses_of(&out).is_empty()
    );
}

#[test]
fn const_binding_binds_env() {
    let (db, src, fd, ws, file) = walk_setup(
        "witness getW(): Field;\nexport circuit f(): Field { const s = getW(); return s; }\n",
    );
    let ctx = InterpCtx {
        db: &db,
        file,
        src,
        fd,
        ws: &ws,
        disclosing_fn: None,
    };
    let root = syntax_tree(&db, src);
    let block = first_node(root, BLOCK);
    let mut env = Env::new();
    let mut sink = DisclosureSink::new();
    interp_stmt(
        &ctx,
        &mut sink,
        &mut WalkState::new(),
        &mut env,
        &Vec::new(),
        block,
    );
    let bound = env.get("s").expect("const binding present");
    assert_eq!(
        witnesses_of(bound).len(),
        1
    );
}

#[test]
fn name_bound_struct_member_projects_precisely() {
    let (db, src, fd, ws, file) = walk_setup(
        "witness getW(): Field;\nstruct S { secret: Field, clean: Field }\n\
         export circuit f(): [] {\n\
         const s = S { secret: getW(), clean: 0 };\n\
         const a = s.clean;\n\
         const b = s.secret;\n\
         }\n",
    );
    let ctx = InterpCtx {
        db: &db,
        file,
        src,
        fd,
        ws: &ws,
        disclosing_fn: None,
    };
    let root = syntax_tree(&db, src);
    let block = first_node(root, BLOCK);
    let mut env = Env::new();
    let mut sink = DisclosureSink::new();
    interp_stmt(
        &ctx,
        &mut sink,
        &mut WalkState::new(),
        &mut env,
        &Vec::new(),
        block,
    );
    let a = env.get("a").expect("binding a present");
    assert!(
        witnesses_of(a).is_empty()
    );
    let b = env.get("b").expect("binding b present");
    assert_eq!(
        witnesses_of(b).len(),
        1
    );
    assert_eq!(
        witnesses_of(b)[0].info,
        WitnessInfo::WitnessReturn {
            function: "getW".into()
        }
    );
}

#[test]
fn out_of_order_struct_literal_member_projects_precisely() {
    let (db, src, fd, ws, file) = walk_setup(
        "witness getW(): Uint<8>;\nstruct S { a: Uint<8>, b: Uint<8> }\n\
         export circuit f(): [] {\n\
         const s = S { b: 0, a: getW() };\n\
         const clean = s.b;\n\
         const secret = s.a;\n\
         }\n",
    );
    let ctx = InterpCtx {
        db: &db,
        file,
        src,
        fd,
        ws: &ws,
        disclosing_fn: None,
    };
    let root = syntax_tree(&db, src);
    let block = first_node(root, BLOCK);
    let mut env = Env::new();
    let mut sink = DisclosureSink::new();
    interp_stmt(
        &ctx,
        &mut sink,
        &mut WalkState::new(),
        &mut env,
        &Vec::new(),
        block,
    );
    let clean = env.get("clean").expect("binding clean present");
    assert!(
        witnesses_of(clean).is_empty()
    );
    let secret = env.get("secret").expect("binding secret present");
    assert_eq!(
        witnesses_of(secret).len(),
        1
    );
    assert_eq!(
        witnesses_of(secret)[0].info,
        WitnessInfo::WitnessReturn {
            function: "getW".into()
        }
    );
}

#[test]
fn return_sink_records_only_witness_return_taint() {
    let text = "witness getW(): Uint<8>;\n\
         export circuit leaky(): Uint<8> { return getW(); }\n\
         export circuit ok(x: Uint<8>): Uint<8> { return x; }\n";
    let (db, src, fd, ws, file) = walk_setup(text);
    let base = InterpCtx {
        db: &db,
        file,
        src,
        fd,
        ws: &ws,
        disclosing_fn: None,
    };
    let tree = item_tree(&db, src);
    let mut sink = DisclosureSink::new();
    let roots = discover_roots(&base, &tree, &mut sink);
    for root in &roots {
        interp_root(&base, &mut sink, root);
    }
    let leaks = sink.drain_leaks();
    assert_eq!(leaks.len(), 1);
    assert_eq!(
        leaks[0].nature,
        "the value returned from exported circuit leaky"
    );
    assert_eq!(leaks[0].witnesses.len(), 1);
    let call_start = text.find("return getW()").unwrap() + "return ".len();
    let expected = TextRange::new(
        (call_start as u32),
        ((call_start + "getW()".len()) as u32),
    );
    assert_eq!(
        leaks[0].src, expected
    );
}

#[test]
fn ledger_cell_write_records_leak() {
    let text = "import CompactStandardLibrary;\n\
         export ledger c: Uint<8>;\n\
         witness getW(): Uint<8>;\n\
         export circuit f(): [] { c = getW(); }\n";
    let (db, src, fd, ws, file) = walk_setup(text);
    let base = InterpCtx {
        db: &db,
        file,
        src,
        fd,
        ws: &ws,
        disclosing_fn: None,
    };
    let tree = item_tree(&db, src);
    let mut sink = DisclosureSink::new();
    let roots = discover_roots(&base, &tree, &mut sink);
    for root in &roots {
        interp_root(&base, &mut sink, root);
    }
    let leaks = sink.drain_leaks();
    assert_eq!(leaks.len(), 1);
    assert_eq!(leaks[0].nature, "ledger operation");
    assert_eq!(leaks[0].witnesses.len(), 1);
    let call_start = text.find("c = getW()").unwrap() + "c = ".len();
    let expected = TextRange::new(
        (call_start as u32),
        ((call_start + "getW()".len()) as u32),
    );
    assert_eq!(
        leaks[0].src, expected
    );
}

#[test]
fn control_witness_threads_through_if_and_leaks_at_sink() {
    let (db, src, fd, ws, file) = walk_setup(
        "import CompactStandardLibrary;\n\
         export ledger c: Uint<8>;\n\
         witness getW(): Boolean;\n\
         export circuit f(): [] { if (getW()) { c = 5; } }\n",
    );
    let base = InterpCtx {
        db: &db,
        file,
        src,
        fd,
        ws: &ws,
        disclosing_fn: None,
    };
    let tree = item_tree(&db, src);
    let mut sink = DisclosureSink::new();
    let roots = discover_roots(&base, &tree, &mut sink);
    for root in &roots {
        interp_root(&base, &mut sink, root);
    }
    let leaks = sink.drain_leaks();
    assert_eq!(
        leaks.len(),
        1
    );
    assert_eq!(leaks[0].nature, "performing this ledger operation");
    assert_eq!(leaks[0].witnesses.len(), 1);
    assert_eq!(
        leaks[0].witnesses[0].info,
        WitnessInfo::WitnessReturn {
            function: "getW".into()
        }
    );
}

#[test]
fn control_leak_is_distinct_from_data_leak() {
    let (db, src, fd, ws, file) = walk_setup(
        "import CompactStandardLibrary;\n\
         export ledger c: Uint<8>;\n\
         witness getCtl(): Boolean;\n\
         witness getData(): Uint<8>;\n\
         export circuit f(): [] { if (getCtl()) { c = getData(); } }\n",
    );
    let base = InterpCtx {
        db: &db,
        file,
        src,
        fd,
        ws: &ws,
        disclosing_fn: None,
    };
    let tree = item_tree(&db, src);
    let mut sink = DisclosureSink::new();
    let roots = discover_roots(&base, &tree, &mut sink);
    for root in &roots {
        interp_root(&base, &mut sink, root);
    }
    let mut leaks = sink.drain_leaks();
    leaks.sort_by(|a, b| a.nature.cmp(&b.nature));
    assert_eq!(leaks.len(), 2);
    assert_eq!(leaks[0].nature, "ledger operation");
    assert_eq!(leaks[0].witnesses.len(), 1);
    assert_eq!(
        leaks[0].witnesses[0].info,
        WitnessInfo::WitnessReturn {
            function: "getData".into()
        }
    );
    assert_eq!(leaks[1].nature, "performing this ledger operation");
    assert_eq!(leaks[1].witnesses.len(), 1);
    assert_eq!(
        leaks[1].witnesses[0].info,
        WitnessInfo::WitnessReturn {
            function: "getCtl".into()
        }
    );
}

#[test]
fn disclosed_condition_clears_control_no_leak() {
    let (db, src, fd, ws, file) = walk_setup(
        "import CompactStandardLibrary;\n\
         export ledger c: Uint<8>;\n\
         witness getW(): Boolean;\n\
         export circuit f(): [] { if (disclose(getW())) { c = 5; } }\n",
    );
    let base = InterpCtx {
        db: &db,
        file,
        src,
        fd,
        ws: &ws,
        disclosing_fn: None,
    };
    let tree = item_tree(&db, src);
    let mut sink = DisclosureSink::new();
    let roots = discover_roots(&base, &tree, &mut sink);
    for root in &roots {
        interp_root(&base, &mut sink, root);
    }
    assert!(
        sink.drain_leaks().is_empty()
    );
}

#[test]
fn ledger_method_call_control_leaks_no_data_and_no_advisory() {
    let (db, src, fd, ws, file) = walk_setup(
        "import CompactStandardLibrary;\n\
         export ledger c: Counter;\n\
         witness getW(): Boolean;\n\
         export circuit f(): [] { if (getW()) { c.increment(1); } }\n",
    );
    let base = InterpCtx {
        db: &db,
        file,
        src,
        fd,
        ws: &ws,
        disclosing_fn: None,
    };
    let tree = item_tree(&db, src);
    let mut sink = DisclosureSink::new();
    let roots = discover_roots(&base, &tree, &mut sink);
    for root in &roots {
        interp_root(&base, &mut sink, root);
    }
    let had_advisory = !sink.advisories().is_empty();
    let leaks = sink.drain_leaks();
    assert_eq!(
        leaks.len(),
        1
    );
    assert_eq!(leaks[0].nature, "performing this ledger operation");
    assert_eq!(leaks[0].witnesses.len(), 1);
    assert_eq!(
        leaks[0].witnesses[0].info,
        WitnessInfo::WitnessReturn {
            function: "getW".into()
        }
    );
    assert!(
        !had_advisory
    );
}

fn walk_leaks(text: &str) -> (Vec<DisclosureLeak>, bool) {
    let (db, src, fd, ws, file) = walk_setup(text);
    let base = InterpCtx {
        db: &db,
        file,
        src,
        fd,
        ws: &ws,
        disclosing_fn: None,
    };
    let tree = item_tree(&db, src);
    let mut sink = DisclosureSink::new();
    let roots = discover_roots(&base, &tree, &mut sink);
    for root in &roots {
        interp_root(&base, &mut sink, root);
    }
    let had_advisory = !sink.advisories().is_empty();
    (sink.drain_leaks(), had_advisory)
}

#[test]
fn native_hash_is_conduit_then_ledger_write_leaks() {
    let (leaks, had_advisory) = walk_leaks(
        "import CompactStandardLibrary;\n\
         export ledger c: Bytes<32>;\n\
         witness getW(): Bytes<32>;\n\
         export circuit f(): [] { c = persistentHash<Bytes<32>>(getW()); }\n",
    );
    assert_eq!(leaks.len(), 1);
    assert_eq!(leaks[0].nature, "ledger operation");
    assert_eq!(leaks[0].witnesses.len(), 1);
    assert_eq!(
        leaks[0].witnesses[0].info,
        WitnessInfo::WitnessReturn {
            function: "getW".into()
        }
    );
    assert!(
        leaks[0].witnesses[0]
            .path
            .iter()
            .any(|pp| pp.exposure == "a hash of")
    );
    assert!(!had_advisory);
}

#[test]
fn native_commit_hides_witness_no_leak() {
    let (leaks, had_advisory) = walk_leaks(
        "import CompactStandardLibrary;\n\
         export ledger c: Bytes<32>;\n\
         witness getW(): Bytes<32>;\n\
         witness getR(): Bytes<32>;\n\
         export circuit f(): [] { c = persistentCommit<Bytes<32>>(getW(), getR()); }\n",
    );
    assert!(leaks.is_empty());
    assert!(!had_advisory);
}

#[test]
fn container_op_witness_arg_leaks() {
    let (leaks, had_advisory) = walk_leaks(
        "import CompactStandardLibrary;\n\
         export ledger s: Set<Uint<8>>;\n\
         witness getW(): Uint<8>;\n\
         export circuit f(): [] { s.insert(getW()); }\n",
    );
    assert_eq!(leaks.len(), 1);
    assert_eq!(leaks[0].nature, "ledger operation");
    assert_eq!(leaks[0].witnesses.len(), 1);
    assert_eq!(
        leaks[0].witnesses[0].info,
        WitnessInfo::WitnessReturn {
            function: "getW".into()
        }
    );
    assert!(!had_advisory);
}

fn interp_agg_expr(
    text: &str,
    kind: u16,
    seeds: &[(&str, Abs)],
) -> (Abs, Vec<String>) {
    let (db, src, fd, ws, file) = walk_setup(text);
    let ctx = InterpCtx {
        db: &db,
        file,
        src,
        fd,
        ws: &ws,
        disclosing_fn: None,
    };
    let root = syntax_tree(&db, src);
    let expr = first_node(root, kind);
    let mut env = Env::new();
    for (name, abs) in seeds {
        env.insert((*name).to_string(), abs.clone());
    }
    let mut sink = DisclosureSink::new();
    let out = interp_expr(&ctx, &mut sink, &mut WalkState::new(), &env, &Vec::new(), expr);
    let advisories: Vec<String> = sink.advisories().iter().map(|a| a.reason.clone()).collect();
    (out, advisories)
}

#[test]
fn map_with_disclosing_lambda_is_clean() {
    let (out, _adv) = interp_agg_expr(
        "export circuit f(): [] { const r = map((x, y) => disclose(x + y), a, b); }\n",
        MAP_EXPR,
        &[
            ("a", Abs::Single(Box::new(Abs::Atomic(vec![witness(1)])))),
            ("b", Abs::Single(Box::new(Abs::Atomic(vec![witness(2)])))),
        ],
    );
    assert!(
        witnesses_of(&out).is_empty()
    );
}

#[test]
fn map_without_disclose_propagates_taint() {
    let (out, _adv) = interp_agg_expr(
        "export circuit f(): [] { const r = map((x, y) => x + y, a, b); }\n",
        MAP_EXPR,
        &[
            ("a", Abs::Single(Box::new(Abs::Atomic(vec![witness(1)])))),
            ("b", Abs::Single(Box::new(Abs::Atomic(vec![])))),
        ],
    );
    assert!(
        matches!(out, Abs::Single(_))
    );
    assert_eq!(
        witnesses_of(&out).len(),
        1
    );
}

#[test]
fn fold_over_witness_array_reaches_fixpoint() {
    let (out, _adv) = interp_agg_expr(
        "export circuit f(): [] { const r = fold((a, b) => a + b, 0, s); }\n",
        FOLD_EXPR,
        &[("s", Abs::Single(Box::new(Abs::Atomic(vec![witness(1)]))))],
    );
    assert_eq!(
        witnesses_of(&out).len(),
        1
    );
}

#[test]
fn fold_with_disclosing_lambda_is_clean() {
    let (out, _adv) = interp_agg_expr(
        "export circuit f(): [] { const r = fold((a, b) => disclose(a + b), 0, s); }\n",
        FOLD_EXPR,
        &[("s", Abs::Single(Box::new(Abs::Atomic(vec![witness(1)]))))],
    );
    assert!(
        witnesses_of(&out).is_empty()
    );
}

#[test]
fn fold_over_heterogeneous_tuple_unrolls() {
    let (out, _adv) = interp_agg_expr(
        "export circuit f(): [] { const r = fold((a, b) => a + b, 0, t); }\n",
        FOLD_EXPR,
        &[(
            "t",
            Abs::Multiple(vec![Abs::Atomic(vec![]), Abs::Atomic(vec![witness(7)])]),
        )],
    );
    assert_eq!(
        witnesses_of(&out).len(),
        1
    );
}

#[test]
fn unresolved_call_no_leak_but_advises() {
    let (leaks, had_advisory) = walk_leaks(
        "import CompactStandardLibrary;\n\
         export ledger c: Bytes<32>;\n\
         witness getW(): Bytes<32>;\n\
         export circuit f(): [] { c = mysteryNative(getW()); }\n",
    );
    assert!(
        leaks.is_empty()
    );
    assert!(
        had_advisory
    );
}

#[test]
fn cross_circuit_call_propagates_taint_to_callee_ledger_sink() {
    let (leaks, _adv) = walk_leaks(
        "import CompactStandardLibrary;\n\
         export ledger store: Field;\n\
         circuit stash(v: Field): [] { store = v; }\n\
         export circuit leak(secret: Field): [] { stash(secret); }\n",
    );
    assert!(
        !leaks.is_empty()
    );
    assert_eq!(leaks[0].nature, "ledger operation");
    assert!(
        leaks.iter().flat_map(|l| &l.witnesses).any(|w| matches!(
            &w.info,
            WitnessInfo::CircuitArg { function, arg }
                if function == "leak" && arg == "secret"
        ))
    );
}

#[test]
fn cross_circuit_callee_disclose_sanitizes() {
    let (leaks, _adv) = walk_leaks(
        "import CompactStandardLibrary;\n\
         export ledger store: Field;\n\
         circuit stash(v: Field): [] { store = disclose(v); }\n\
         export circuit leak(secret: Field): [] { stash(secret); }\n",
    );
    assert!(
        leaks.is_empty()
    );
}

#[test]
fn cross_circuit_return_value_flows_back_to_caller_sink() {
    let (leaks, _adv) = walk_leaks(
        "import CompactStandardLibrary;\n\
         export ledger store: Field;\n\
         witness getW(): Field;\n\
         circuit fetch(): Field { return getW(); }\n\
         export circuit f(): [] { store = fetch(); }\n",
    );
    assert!(
        !leaks.is_empty()
    );
    assert!(
        leaks.iter().flat_map(|l| &l.witnesses).any(|w| matches!(
            &w.info,
            WitnessInfo::WitnessReturn { function } if function == "getW"
        ))
    );
}

#[test]
fn cross_circuit_callee_return_is_not_a_disclosure_sink() {
    let (leaks, _adv) = walk_leaks(
        "import CompactStandardLibrary;\n\
         witness getW(): Field;\n\
         circuit fetch(): Field { return getW(); }\n\
         export circuit f(): Field { const x = fetch(); return disclose(x); }\n",
    );
    assert!(
        leaks.is_empty()
    );
}

#[test]
fn recursive_circuit_call_fails_closed_and_terminates() {
    let (leaks, had_advisory) = walk_leaks(
        "import CompactStandardLibrary;\n\
         export ledger store: Field;\n\
         circuit ping(v: Field): Field { return pong(v); }\n\
         circuit pong(v: Field): Field { return ping(v); }\n\
         export circuit f(secret: Field): [] { store = disclose(ping(secret)); }\n",
    );
    assert!(
        had_advisory
    );
    assert!(
        leaks.is_empty()
    );
}

#[test]
fn arg_side_leak_survives_recursion_guard_fail_closed() {
    let (leaks, had_advisory) = walk_leaks(
        "import CompactStandardLibrary;\n\
         export ledger store: Field;\n\
         witness getW(): Field;\n\
         circuit leaky(x: Field): Field { store = x; return x; }\n\
         circuit recurse(v: Field): [] { recurse(leaky(getW())); }\n\
         export circuit f(): [] { recurse(0); }\n",
    );
    assert!(
        had_advisory
    );
    assert!(
        leaks.iter().flat_map(|l| &l.witnesses).any(|w| matches!(
            &w.info,
            WitnessInfo::WitnessReturn { function } if function == "getW"
        ))
    );
}

#[test]
fn cross_circuit_arg_attaches_path_point() {
    let (leaks, _adv) = walk_leaks(
        "import CompactStandardLibrary;\n\
         export ledger store: Field;\n\
         witness getSecret(): Field;\n\
         circuit stash(v: Field): [] { store = v; }\n\
         export circuit reveal(): [] { stash(getSecret()); }\n",
    );
    assert!(
        !leaks.is_empty()
    );
    assert!(
        leaks.iter().flat_map(|l| &l.witnesses).any(|w| w
            .path
            .iter()
            .any(|pp| pp.description == "the argument to stash" && pp.exposure.is_empty()))
    );
}

#[test]
fn cross_circuit_multi_arg_path_point_uses_ordinal() {
    let (leaks, _adv) = walk_leaks(
        "import CompactStandardLibrary;\n\
         export ledger store: Field;\n\
         witness getSecret(): Field;\n\
         circuit sink2(a: Field, b: Field): [] { store = b; }\n\
         export circuit reveal(): [] { sink2(0, getSecret()); }\n",
    );
    assert!(
        leaks.iter().flat_map(|l| &l.witnesses).any(|w| w
            .path
            .iter()
            .any(|pp| pp.description == "the second argument to sink2"))
    );
}

#[test]
fn memo_helper_called_twice_yields_one_leak_row() {
    let (leaks, _adv) = walk_leaks(
        "import CompactStandardLibrary;\n\
         export ledger store: Field;\n\
         circuit stash(v: Field): [] { store = v; }\n\
         export circuit leak(secret: Field): [] { stash(secret); stash(secret); }\n",
    );
    assert_eq!(
        leaks.len(),
        1
    );
    assert_eq!(leaks[0].nature, "ledger operation");
    assert!(
        leaks.iter().flat_map(|l| &l.witnesses).any(|w| matches!(
            &w.info,
            WitnessInfo::CircuitArg { function, arg }
                if function == "leak" && arg == "secret"
        ))
    );
}

#[test]
fn memo_collapses_exponential_fanout() {
    const DEPTH: usize = 40;
    let mut src = String::from(
        "import CompactStandardLibrary;\n\
         export ledger store: Field;\n\
         circuit h0(x: Field): [] { store = x; }\n",
    );
    for i in 1..=DEPTH {
        src.push_str(&format!(
            "circuit h{i}(x: Field): [] {{ h{prev}(x); h{prev}(x); }}\n",
            prev = i - 1
        ));
    }
    src.push_str(&format!(
        "export circuit top(secret: Field): [] {{ h{DEPTH}(secret); }}\n"
    ));

    let (leaks, _adv) = walk_leaks(&src);
    assert_eq!(
        leaks.len(),
        1
    );
    assert_eq!(leaks[0].nature, "ledger operation");
    assert!(
        leaks.iter().flat_map(|l| &l.witnesses).any(|w| matches!(
            &w.info,
            WitnessInfo::CircuitArg { function, arg }
                if function == "top" && arg == "secret"
        ))
    );
}

#[test]
fn ternary_same_witness_both_branches_yields_duplicate_path_point() {
    let (leaks, _adv) = walk_leaks(
        "import CompactStandardLibrary;\n\
         export ledger c: Bytes<32>;\n\
         witness getW(): Bytes<32>;\n\
         export circuit f(): [] {\n\
           const y = getW();\n\
           c = 1 == 2 ? y : y;\n\
         }\n",
    );
    assert_eq!(leaks.len(), 1);
    let path = &leaks[0].witnesses[0].path;
    assert_eq!(
        path.len(),
        2
    );
    assert_eq!(
        path[0], path[1]
    );
    assert_eq!(path[0].description, "the binding of y");
}

#[test]
fn struct_pattern_taints_the_names_it_binds() {
    let (db, src, fd, ws, file) = walk_setup(
        "export circuit f(): [] { const { a: b, c, d: [e, { g: h }] } = v; }\n",
    );
    let ctx = InterpCtx {
        db: &db,
        file,
        src,
        fd,
        ws: &ws,
        disclosing_fn: None,
    };
    let root = syntax_tree(&db, src);
    let block = first_node(root, BLOCK);
    let mut env = Env::new();
    env.insert("v".into(), Abs::Atomic(vec![witness(1)]));
    let mut sink = DisclosureSink::new();
    interp_stmt(
        &ctx,
        &mut sink,
        &mut WalkState::new(),
        &mut env,
        &Vec::new(),
        block,
    );
    for name in ["b", "c", "e", "h"] {
        assert_eq!(env.get(name), Some(&Abs::Atomic(vec![witness(1)])), "{name}");
    }
    for label in ["a", "d", "g"] {
        assert!(env.get(label).is_none(), "{label}");
    }
    assert_eq!(sink.advisories().len(), 1);
}

#[test]
fn a_renamed_field_of_a_witness_leaks() {
    let (leaks, _adv) = walk_leaks(
        "export ledger store: Field;\n\
         struct S { a: Field; }\n\
         witness getS(): S;\n\
         export circuit f(): [] { const { a: b } = getS(); store = b; }\n",
    );
    assert_eq!(leaks.len(), 1);
    assert_eq!(leaks[0].nature, "ledger operation");
}

#[test]
fn a_remembered_call_leaks_at_no_new_place() {
    let callees = "export ledger s: Field;\n\
         witness getW(): Field;\n\
         circuit inner(v: Field): Field { s = v; return v; }\n\
         circuit outer(v: Field): Field { if (v == 1) { s = 2; } return inner(v); }\n";
    let once = format!(
        "{}export circuit r(): [] {{ const w = getW(); outer(w); }}\n",
        callees
    );
    let again = format!(
        "{}export circuit r(): [] {{ const w = getW(); outer(w); outer(w); outer(w); }}\n",
        callees
    );
    let (first, _) = walk_leaks(&once);
    let (second, _) = walk_leaks(&again);
    assert_eq!(first.len(), 2);
    assert_eq!(second.len(), first.len());
    for (a, b) in first.iter().zip(second.iter()) {
        assert_eq!(a.src, b.src);
        assert_eq!(a.nature, b.nature);
    }
}

#[test]
fn a_call_cut_for_recursion_is_remembered_as_it_was_walked() {
    let callees = "export ledger s: Field;\n\
         witness getW(): Field;\n\
         circuit a(v: Field): [] { g(); s = v; }\n\
         circuit g(): [] { a(getW()); }\n";
    let alone = format!("{}export circuit r(): [] {{ g(); }}\n", callees);
    let (leaks, had_advisory) = walk_leaks(&alone);
    assert!(had_advisory);
    assert_eq!(leaks.len(), 1);
    assert_eq!(leaks[0].nature, "ledger operation");
    let behind = format!("{}export circuit r(): [] {{ a(0); g(); }}\n", callees);
    let (leaks, had_advisory) = walk_leaks(&behind);
    assert!(had_advisory);
    assert!(leaks.is_empty());
}

fn symbol(name: &str, kind: SymbolKind, parent: Option<u32>) -> Symbol {
    Symbol {
        name: name.to_string(),
        kind,
        name_range: TextRange { start: 0, end: 0 },
        full_range: TextRange { start: 0, end: 0 },
        signature: String::new(),
        doc: None,
        exported: true,
        parent,
        generic_param_count: 0,
    }
}

#[test]
fn a_module_behind_its_members_nests_them() {
    let (db, src, fd, ws, file) = walk_setup("");
    let base = InterpCtx {
        db: &db,
        file,
        src,
        fd,
        ws: &ws,
        disclosing_fn: None,
    };
    let nested = ItemTree {
        symbols: vec![
            symbol("leak", SymbolKind::Circuit, Some(1)),
            symbol("C", SymbolKind::Contract, Some(2)),
            symbol("M", SymbolKind::Module, None),
        ],
    };
    let mut sink = DisclosureSink::new();
    assert!(discover_roots(&base, &nested, &mut sink).is_empty());
    assert_eq!(sink.advisories().len(), 1);

    let around = ItemTree {
        symbols: vec![
            symbol("f", SymbolKind::Circuit, Some(1)),
            symbol("C", SymbolKind::Contract, Some(2)),
            symbol("D", SymbolKind::Contract, Some(1)),
        ],
    };
    let mut sink = DisclosureSink::new();
    assert_eq!(discover_roots(&base, &around, &mut sink).len(), 1);
    assert!(sink.advisories().is_empty());
}
