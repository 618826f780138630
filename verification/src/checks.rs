//! Diagnostics that need names looked up: imports, generic arguments, ledger
//! calls and circuit calls.

use vstd::prelude::*;
use vstd::string::*;

use crate::calls::{arg_exprs, call_args};
use crate::db::{
    db_ok, dep_target, deps_view, find_dep_target, find_item_source, find_symbol, has_module,
    is_file, item_source, item_symbol, item_tree, lemma_dep_target, resolve_at, resolved,
    resolved_deps, stdlib_name, symbol_of_item, syntax_tree, CompactDatabase, Ctx, CtxView, DbView,
    DepView, FileDeps, SourceText, Workspace,
};
use crate::diagnostics::{
    diags_view, plain_diag, DiagView, Diagnostic, DiagnosticCode, Severity,
};
use crate::infer::{decl_named, expr_ty_kind, find_decl, shown_type};
use crate::item_tree::{clamp_index, index32, SymbolKind, SymbolView};
use crate::kinds::{
    Class, CALL_EXPR, DOT, GENERIC_ARG, GENERIC_ARG_LIST, IDENT, IMPORT, INCLUDE, LEDGER_DECL,
    L_PAREN, NAME_EXPR, SOURCE_FILE, SPREAD_EXPR, STRING_LIT, TYPE_REF,
};
use crate::resolve::{single_top_level_module, sole_module, DefView, Definition};
use crate::source_path::{module_name_of, path_module_name, string_lit_text, unquoted};
use crate::syntax::{
    child, child_token, children, ints, oint, range_of, well_formed, SyntaxTree, Tree,
};
use crate::text::{cat3, cat4, cat5, decimal, decimal_text, otext, same_text, TextRange};
use crate::ty::{display_kind, displayed, is_subtype, subtype, tys_view, TyKind, TyView};
use crate::typing::{callee_params, callee_sig};
use crate::vfs::FileId;

verus! {

// ---------------------------------------------------------------------------
// Imports
// ---------------------------------------------------------------------------

/// The places that were searched: the directory of the file, and behind it
/// the search path, where there is one.
pub open spec fn searched_list(from_dir: Seq<char>, search: Seq<char>) -> Seq<char> {
    if search.len() == 0 {
        from_dir
    } else {
        from_dir + ", "@ + search
    }
}

/// The complaint about an import target that was not found.
pub open spec fn unresolved_import(
    raw: Seq<char>,
    from_dir: Seq<char>,
    search: Seq<char>,
    span: TextRange,
) -> DiagView {
    plain_diag(
        Severity::Error,
        "E"@,
        9001,
        "cannot resolve import `"@ + raw + "` (searched: "@ + searched_list(from_dir, search)
            + ")"@,
        span,
    )
}

/// The complaint about a spliced file that was not found.
pub open spec fn unresolved_splice(
    raw: Seq<char>,
    from_dir: Seq<char>,
    search: Seq<char>,
    span: TextRange,
) -> DiagView {
    plain_diag(
        Severity::Error,
        "E"@,
        9004,
        "cannot resolve include `"@ + raw + "` (searched: "@ + searched_list(from_dir, search)
            + ")"@,
        span,
    )
}

/// The complaint about an imported file whose only module is not the expected
/// one.
pub open spec fn module_mismatch(
    syms: Seq<SymbolView>,
    expected: Seq<char>,
    span: TextRange,
) -> Option<DiagView> {
    match sole_module(syms) {
        None => Some(
            plain_diag(
                Severity::Error,
                "E"@,
                9003,
                "imported file does not contain a single `module "@ + expected + "`"@,
                span,
            ),
        ),
        Some((_, sym)) => if sym.name == expected {
            None
        } else {
            Some(
                plain_diag(
                    Severity::Error,
                    "E"@,
                    9002,
                    "imported file defines module `"@ + sym.name + "` rather than expected `"@
                        + expected + "`"@,
                    span,
                ),
            )
        },
    }
}

/// An optional complaint as a list.
pub open spec fn olist(d: Option<DiagView>) -> Seq<DiagView> {
    match d {
        Some(x) => seq![x],
        None => Seq::empty(),
    }
}

/// The complaint about one import target: that it was not found, or that the
/// file found is not the expected module.
pub open spec fn import_problem(
    db: DbView,
    deps: Seq<DepView>,
    raw: Seq<char>,
    expected: Seq<char>,
    span: TextRange,
    from_dir: Seq<char>,
    search: Seq<char>,
) -> Seq<DiagView> {
    match dep_target(deps, raw, false) {
        None => seq![unresolved_import(raw, from_dir, search, span)],
        Some((_, s)) => olist(module_mismatch(db.sources[s.id as int].syms, expected, span)),
    }
}

/// What an import is checked for.
pub struct ImportCtx {
    pub db: DbView,
    pub t: Tree,
    pub syms: Seq<SymbolView>,
    pub deps: Seq<DepView>,
    pub from_dir: Seq<char>,
    pub search: Seq<char>,
}

/// The complaints about import `n`. The standard library and modules of the
/// file itself are never complained about.
pub open spec fn import_problems_at(c: ImportCtx, n: int) -> Seq<DiagView> {
    match child_token(c.t, n, IDENT) {
        Some(x) => {
            let name = c.t[x].text;
            if name == stdlib_name() || has_module(c.syms, name) {
                Seq::empty()
            } else {
                import_problem(
                    c.db,
                    c.deps,
                    name,
                    name,
                    range_of(c.t, x),
                    c.from_dir,
                    c.search,
                )
            }
        },
        None => match child_token(c.t, n, STRING_LIT) {
            Some(x) => {
                let raw = unquoted(c.t[x].text);
                match module_name_of(raw) {
                    Some(expected) => import_problem(
                        c.db,
                        c.deps,
                        raw,
                        expected,
                        range_of(c.t, x),
                        c.from_dir,
                        c.search,
                    ),
                    None => Seq::empty(),
                }
            },
            None => Seq::empty(),
        },
    }
}

/// The complaints about the imports `kids` from position `k` on.
pub open spec fn import_problems(c: ImportCtx, kids: Seq<int>, k: int) -> Seq<DiagView>
    decreases kids.len() - k,
{
    if 0 <= k < kids.len() {
        import_problems_at(c, kids[k]) + import_problems(c, kids, k + 1)
    } else {
        Seq::empty()
    }
}

/// The complaint about spliced file `n`.
pub open spec fn splice_problems_at(c: ImportCtx, n: int) -> Seq<DiagView> {
    match child_token(c.t, n, STRING_LIT) {
        Some(x) => if dep_target(c.deps, unquoted(c.t[x].text), true) is None {
            seq![
                unresolved_splice(
                    unquoted(c.t[x].text),
                    c.from_dir,
                    c.search,
                    range_of(c.t, x),
                ),
            ]
        } else {
            Seq::empty()
        },
        None => Seq::empty(),
    }
}

/// The complaints about the spliced files `kids` from position `k` on.
pub open spec fn splice_problems(c: ImportCtx, kids: Seq<int>, k: int) -> Seq<DiagView>
    decreases kids.len() - k,
{
    if 0 <= k < kids.len() {
        splice_problems_at(c, kids[k]) + splice_problems(c, kids, k + 1)
    } else {
        Seq::empty()
    }
}

/// All complaints about the imports of a file.
pub open spec fn resolution_problems(c: ImportCtx) -> Seq<DiagView> {
    if is_file(c.t) {
        import_problems(c, children(c.t, 0, Class::Kind(IMPORT)), 0) + splice_problems(
            c,
            children(c.t, 0, Class::Kind(INCLUDE)),
            0,
        )
    } else {
        Seq::empty()
    }
}

/// The places that were searched, for a message.
pub fn searched_list_display(from_dir_display: &str, search_display: &str) -> (r: String)
    ensures
        r@ == searched_list(from_dir_display@, search_display@),
{
    if search_display.is_empty() {
        from_dir_display.to_owned()
    } else {
        cat3(from_dir_display, ", ", search_display)
    }
}

fn unresolved_import_diag_display(raw: &str, from_dir: &str, search: &str, span: TextRange) -> (r:
    Diagnostic)
    ensures
        r@ == unresolved_import(raw@, from_dir@, search@, span),
{
    let list = searched_list_display(from_dir, search);
    let m = cat5("cannot resolve import `", raw, "` (searched: ", &list, ")");
    Diagnostic::error(DiagnosticCode::new("E", 9001), m, span)
}

fn unresolved_include_diag_display(raw: &str, from_dir: &str, search: &str, span: TextRange) -> (r:
    Diagnostic)
    ensures
        r@ == unresolved_splice(raw@, from_dir@, search@, span),
{
    let list = searched_list_display(from_dir, search);
    let m = cat5("cannot resolve include `", raw, "` (searched: ", &list, ")");
    Diagnostic::error(DiagnosticCode::new("E", 9004), m, span)
}

fn module_mismatch_diag_query(
    db: &CompactDatabase,
    src: SourceText,
    expected: &str,
    span: TextRange,
) -> (r: Option<Diagnostic>)
    requires
        src.id < db@.sources.len(),
    ensures
        match r {
            Some(d) => module_mismatch(db@.sources[src.id as int].syms, expected@, span) == Some(
                d@,
            ),
            None => module_mismatch(db@.sources[src.id as int].syms, expected@, span) is None,
        },
{
    match single_top_level_module(item_tree(db, src)) {
        None => {
            let m = cat3("imported file does not contain a single `module ", expected, "`");
            Some(Diagnostic::error(DiagnosticCode::new("E", 9003), m, span))
        },
        Some((_, sym)) => {
            if same_text(&sym.name, expected) {
                None
            } else {
                let m = cat5(
                    "imported file defines module `",
                    &sym.name,
                    "` rather than expected `",
                    expected,
                    "`",
                );
                Some(Diagnostic::error(DiagnosticCode::new("E", 9002), m, span))
            }
        },
    }
}

fn push_diag(diags: &mut Vec<Diagnostic>, d: Diagnostic)
    ensures
        diags_view(final(diags)@) == diags_view(old(diags)@).push(d@),
{
    let ghost before = diags_view(diags@);
    diags.push(d);
    assert(diags_view(diags@) =~= before.push(d@));
}

fn push_import_diag(
    db: &CompactDatabase,
    fd: FileDeps,
    raw: &str,
    expected: &str,
    span: TextRange,
    from_dir: &str,
    search: &str,
    diags: &mut Vec<Diagnostic>,
)
    requires
        db_ok(db@),
        fd.id < db@.deps.len(),
    ensures
        diags_view(final(diags)@) == diags_view(old(diags)@) + import_problem(
            db@,
            db@.deps[fd.id as int],
            raw@,
            expected@,
            span,
            from_dir@,
            search@,
        ),
{
    let ghost base = diags_view(diags@);
    let deps = resolved_deps(db, fd);
    proof {
        lemma_dep_target(db@, fd.id as int, raw@, false, 0);
    }
    match find_dep_target(deps, raw, false) {
        None => {
            let d = unresolved_import_diag_display(raw, from_dir, search, span);
            let ghost own = d@;
            push_diag(diags, d);
            assert(base.push(own) =~= base + seq![own]);
        },
        Some((_, s)) => {
            match module_mismatch_diag_query(db, s, expected, span) {
                Some(d) => {
                    let ghost own = d@;
                    push_diag(diags, d);
                    assert(base.push(own) =~= base + seq![own]);
                },
                None => {
                    assert(base + Seq::<DiagView>::empty() =~= base);
                },
            }
        },
    }
}

fn push_problems_at(
    db: &CompactDatabase,
    src: SourceText,
    fd: FileDeps,
    n: usize,
    from_dir: &str,
    search: &str,
    diags: &mut Vec<Diagnostic>,
)
    requires
        db_ok(db@),
        src.id < db@.sources.len(),
        fd.id < db@.deps.len(),
        n < db@.sources[src.id as int].tree.len(),
    ensures
        diags_view(final(diags)@) == diags_view(old(diags)@) + import_problems_at(
            ImportCtx {
                db: db@,
                t: db@.sources[src.id as int].tree,
                syms: db@.sources[src.id as int].syms,
                deps: db@.deps[fd.id as int],
                from_dir: from_dir@,
                search: search@,
            },
            n as int,
        ),
{
    let ghost base = diags_view(diags@);
    assert(base + Seq::<DiagView>::empty() =~= base);
    let t = syntax_tree(db, src);
    match t.child_token(n, IDENT) {
        Some(x) => {
            let name = t.token_text(x);
            if same_text(name, "CompactStandardLibrary") {
                return;
            }
            if find_symbol(
                item_tree(db, src),
                None,
                name,
                false,
                Some(SymbolKind::Module),
            ).is_some() {
                return;
            }
            push_import_diag(db, fd, name, name, t.range(x), from_dir, search, diags);
        },
        None => {
            if let Some(x) = t.child_token(n, STRING_LIT) {
                let raw = string_lit_text(t.token_text(x));
                if let Some(expected) = path_module_name(&raw) {
                    push_import_diag(db, fd, &raw, &expected, t.range(x), from_dir, search, diags);
                }
            }
        },
    }
}

/// Complains about every import and spliced file that was not found, and about
/// every imported file that does not hold exactly the module it is imported as.
pub fn resolution_diagnostics_query(
    db: &CompactDatabase,
    src: SourceText,
    fd: FileDeps,
    from_dir_display: &str,
    search_display: &str,
) -> (r: Vec<Diagnostic>)
    requires
        db_ok(db@),
        src.id < db@.sources.len(),
        fd.id < db@.deps.len(),
    ensures
        diags_view(r@) == resolution_problems(
            ImportCtx {
                db: db@,
                t: db@.sources[src.id as int].tree,
                syms: db@.sources[src.id as int].syms,
                deps: db@.deps[fd.id as int],
                from_dir: from_dir_display@,
                search: search_display@,
            },
        ),
{
    let ghost c = ImportCtx {
        db: db@,
        t: db@.sources[src.id as int].tree,
        syms: db@.sources[src.id as int].syms,
        deps: db@.deps[fd.id as int],
        from_dir: from_dir_display@,
        search: search_display@,
    };
    let t = syntax_tree(db, src);
    let deps = resolved_deps(db, fd);
    let mut diags: Vec<Diagnostic> = Vec::new();
    assert(diags_view(diags@) =~= Seq::<DiagView>::empty());
    if t.len() == 0 || t.is_token(0) || t.kind(0) != SOURCE_FILE {
        return diags;
    }
    let imports = t.children(0, Class::Kind(IMPORT));
    let ghost list = ints(imports@);
    let ghost first = import_problems(c, list, 0);
    let mut k: usize = 0;
    assert(diags_view(diags@) + first =~= first);
    while k < imports.len()
        invariant
            db_ok(db@),
            src.id < db@.sources.len(),
            fd.id < db@.deps.len(),
            t@ == db@.sources[src.id as int].tree,
            c == (ImportCtx {
                db: db@,
                t: db@.sources[src.id as int].tree,
                syms: db@.sources[src.id as int].syms,
                deps: db@.deps[fd.id as int],
                from_dir: from_dir_display@,
                search: search_display@,
            }),
            k <= imports@.len(),
            list == ints(imports@),
            forall|k: int| #![trigger imports@[k]] 0 <= k < imports@.len() ==> imports@[k] < t@.len(),
            diags_view(diags@) + import_problems(c, list, k as int) == first,
        decreases imports@.len() - k,
    {
        assert(list[k as int] == imports@[k as int]);
        let ghost before = diags_view(diags@);
        push_problems_at(db, src, fd, imports[k], from_dir_display, search_display, &mut diags);
        let ghost own = import_problems_at(c, list[k as int]);
        let ghost rest = import_problems(c, list, k + 1);
        assert(before + (own + rest) =~= (before + own) + rest);
        k = k + 1;
    }
    assert(diags_view(diags@) + Seq::<DiagView>::empty() =~= diags_view(diags@));
    let splices = t.children(0, Class::Kind(INCLUDE));
    let ghost slist = ints(splices@);
    let ghost whole = first + splice_problems(c, slist, 0);
    let mut j: usize = 0;
    while j < splices.len()
        invariant
            well_formed(t@),
            t@ == c.t,
            deps_view(deps@) == c.deps,
            from_dir_display@ == c.from_dir,
            search_display@ == c.search,
            j <= splices@.len(),
            slist == ints(splices@),
            forall|k: int| #![trigger splices@[k]] 0 <= k < splices@.len() ==> splices@[k] < t@.len(),
            diags_view(diags@) + splice_problems(c, slist, j as int) == whole,
        decreases splices@.len() - j,
    {
        assert(slist[j as int] == splices@[j as int]);
        let ghost before = diags_view(diags@);
        let ghost rest = splice_problems(c, slist, j + 1);
        assert(before + (Seq::<DiagView>::empty() + rest) =~= before + rest);
        if let Some(x) = t.child_token(splices[j], STRING_LIT) {
            let raw = string_lit_text(t.token_text(x));
            if find_dep_target(deps, &raw, true).is_none() {
                let d = unresolved_include_diag_display(
                    &raw,
                    from_dir_display,
                    search_display,
                    t.range(x),
                );
                let ghost own = d@;
                push_diag(&mut diags, d);
                assert(before + (seq![own] + rest) =~= before.push(own) + rest);
            }
        }
        j = j + 1;
    }
    assert(diags_view(diags@) + Seq::<DiagView>::empty() =~= diags_view(diags@));
    diags
}


// ---------------------------------------------------------------------------
// Generic arguments
// ---------------------------------------------------------------------------

/// Whether symbols of this kind are named types.
pub open spec fn names_type(kind: SymbolKind) -> bool {
    kind == SymbolKind::Struct || kind == SymbolKind::Enum || kind == SymbolKind::TypeAlias
}

fn is_named_type(kind: SymbolKind) -> (r: bool)
    ensures
        r == names_type(kind),
{
    kind == SymbolKind::Struct || kind == SymbolKind::Enum || kind == SymbolKind::TypeAlias
}

/// The number of generic arguments that type reference `n` gives.
pub open spec fn given_arity(t: Tree, n: int) -> u32 {
    match child(t, n, Class::Kind(GENERIC_ARG_LIST)) {
        Some(l) => index32(children(t, l, Class::Kind(GENERIC_ARG)).len() as int),
        None => 0,
    }
}

/// The complaint about a wrong number of generic arguments.
pub open spec fn arity_mismatch(
    actual: u32,
    declared: u32,
    name: Seq<char>,
    span: TextRange,
) -> DiagView {
    plain_diag(
        Severity::Error,
        "E"@,
        3003,
        "mismatch between actual number "@ + decimal(actual as nat) + " and declared number "@
            + decimal(declared as nat) + " of generic parameters for "@ + name,
        span,
    )
}

/// The complaint about type reference `n`: where its name stands for a named
/// type, it has to give as many generic arguments as that declares.
pub open spec fn arity_problem(c: CtxView, n: int) -> Seq<DiagView> {
    let t = c.tree();
    match child_token(t, n, IDENT) {
        Some(x) => match resolved(c, t[x].start) {
            Some(DefView::Item { file, index }) => match symbol_of_item(c, file, index) {
                Some(sym) => if names_type(sym.kind) && given_arity(t, n)
                    != sym.generic_param_count {
                    seq![
                        arity_mismatch(
                            given_arity(t, n),
                            sym.generic_param_count,
                            t[x].text,
                            range_of(t, n),
                        ),
                    ]
                } else {
                    Seq::empty()
                },
                None => Seq::empty(),
            },
            _ => Seq::empty(),
        },
        None => Seq::empty(),
    }
}

/// The complaints about the type references from index `i` on.
pub open spec fn arity_problems(c: CtxView, i: int) -> Seq<DiagView>
    decreases c.tree().len() - i,
{
    let t = c.tree();
    if 0 <= i < t.len() {
        let rest = arity_problems(c, i + 1);
        if !t[i].token && t[i].kind == TYPE_REF {
            arity_problem(c, i) + rest
        } else {
            rest
        }
    } else {
        Seq::empty()
    }
}

fn generic_arity_diag(actual: u32, declared: u32, name: &str, span: TextRange) -> (r: Diagnostic)
    ensures
        r@ == arity_mismatch(actual, declared, name@, span),
{
    let mut m = cat4(
        "mismatch between actual number ",
        &decimal_text(actual as u128),
        " and declared number ",
        &decimal_text(declared as u128),
    );
    m.append(" of generic parameters for ");
    m.append(name);
    Diagnostic::error(DiagnosticCode::new("E", 3003), m, span)
}

fn count_generic_args(t: &SyntaxTree, n: usize) -> (r: u32)
    requires
        well_formed(t@),
        n < t@.len(),
    ensures
        r == given_arity(t@, n as int),
{
    match t.child(n, Class::Kind(GENERIC_ARG_LIST)) {
        Some(l) => {
            let v = t.children(l, Class::Kind(GENERIC_ARG));
            assert(ints(v@).len() == v@.len());
            clamp_index(v.len())
        },
        None => 0,
    }
}

fn check_type_ref(c: &Ctx, n: usize) -> (r: Option<Diagnostic>)
    requires
        c@.ok(),
        n < c@.tree().len(),
    ensures
        arity_problem(c@, n as int) == olist(
            match r {
                Some(d) => Some(d@),
                None => None,
            },
        ),
{
    let t = syntax_tree(c.db, c.src);
    let x = match t.child_token(n, IDENT) {
        Some(x) => x,
        None => {
            return None;
        },
    };
    let (file, index) = match resolve_at(c, t.range(x).start) {
        Some(Definition::Item { file, index }) => (file, index),
        _ => {
            return None;
        },
    };
    let sym = match item_symbol(c, file, index) {
        Some(s) => s,
        None => {
            return None;
        },
    };
    let actual: u32 = count_generic_args(t, n);
    if is_named_type(sym.kind) && actual != sym.generic_param_count {
        Some(generic_arity_diag(actual, sym.generic_param_count, t.token_text(x), t.range(n)))
    } else {
        None
    }
}

/// Complains about every type reference that gives another number of generic
/// arguments than its type declares. A name that does not stand for a named
/// type causes no complaint.
pub fn generic_diagnostics_query(
    db: &CompactDatabase,
    file: FileId,
    src: SourceText,
    fd: FileDeps,
    ws: &Workspace,
) -> (r: Vec<Diagnostic>)
    requires
        (CtxView { db: db@, file, src, fd, ws: ws@ }).ok(),
    ensures
        diags_view(r@) == arity_problems(CtxView { db: db@, file, src, fd, ws: ws@ }, 0),
{
    let ctx = Ctx { db, file, src, fd, ws };
    let c = &ctx;
    let t = syntax_tree(c.db, c.src);
    let mut diags: Vec<Diagnostic> = Vec::new();
    let ghost whole = arity_problems(c@, 0);
    let end: usize = t.len();
    let mut i: usize = 0;
    assert(diags_view(diags@) + whole =~= whole);
    while i < end
        invariant
            c@.ok(),
            t@ == c@.tree(),
            i <= end,
            end == t@.len(),
            diags_view(diags@) + arity_problems(c@, i as int) == whole,
        decreases end - i,
    {
        let ghost before = diags_view(diags@);
        let ghost rest = arity_problems(c@, i + 1);
        assert(before + (Seq::<DiagView>::empty() + rest) =~= before + rest);
        if !t.is_token(i) && t.kind(i) == TYPE_REF {
            if let Some(d) = check_type_ref(c, i) {
                let ghost own = d@;
                push_diag(&mut diags, d);
                assert(before + (seq![own] + rest) =~= before.push(own) + rest);
            }
        }
        i = i + 1;
    }
    assert(diags_view(diags@) + Seq::<DiagView>::empty() =~= diags_view(diags@));
    diags
}

// ---------------------------------------------------------------------------
// Ledger calls
// ---------------------------------------------------------------------------

/// The parameter types of one method of a builtin ledger type.
pub struct LedgerSig {
    pub adt: String,
    pub method: String,
    pub params: Vec<TyKind>,
}

/// The value of a [`LedgerSig`].
pub struct LedgerSigView {
    pub adt: Seq<char>,
    pub method: Seq<char>,
    pub params: Seq<TyView>,
}

impl View for LedgerSig {
    type V = LedgerSigView;

    open spec fn view(&self) -> LedgerSigView {
        LedgerSigView { adt: self.adt@, method: self.method@, params: tys_view(self.params@) }
    }
}

/// The values of a list of signatures.
pub open spec fn sigs_view(s: Seq<LedgerSig>) -> Seq<LedgerSigView> {
    s.map_values(|x: LedgerSig| x@)
}

/// The parameters of the first signature at or after `k` for this type and
/// method.
pub open spec fn sig_from(
    sigs: Seq<LedgerSigView>,
    k: int,
    adt: Seq<char>,
    method: Seq<char>,
) -> Option<Seq<TyView>>
    decreases sigs.len() - k,
{
    if 0 <= k < sigs.len() {
        if sigs[k].adt == adt && sigs[k].method == method {
            Some(sigs[k].params)
        } else {
            sig_from(sigs, k + 1, adt, method)
        }
    } else {
        None
    }
}

/// Whether `name` is a builtin ledger type.
pub open spec fn builtin_adt(name: Seq<char>) -> bool {
    name == "Counter"@ || name == "Cell"@ || name == "Map"@ || name == "Set"@ || name == "List"@
        || name == "MerkleTree"@ || name == "HistoricMerkleTree"@ || name == "Kernel"@
}

/// Whether `name` is a builtin ledger type.
pub fn is_builtin_adt(name: &str) -> (r: bool)
    ensures
        r == builtin_adt(name@),
{
    same_text(name, "Counter") || same_text(name, "Cell") || same_text(name, "Map") || same_text(
        name,
        "Set",
    ) || same_text(name, "List") || same_text(name, "MerkleTree") || same_text(
        name,
        "HistoricMerkleTree",
    ) || same_text(name, "Kernel")
}

/// The head of the declared type of the ledger field whose name stands at
/// `range`, where it is a type reference.
pub open spec fn ledger_head(t: Tree, range: TextRange) -> Option<int> {
    match decl_named(t, LEDGER_DECL, range) {
        Some(d) => match child(t, d, Class::Type) {
            Some(ty) => if t[ty].kind == TYPE_REF {
                child_token(t, ty, IDENT)
            } else {
                None
            },
            None => None,
        },
        None => None,
    }
}

/// Whether the name at `offset` stands for a type declared by the program.
pub open spec fn names_user_type(c: CtxView, offset: u32) -> bool {
    match resolved(c, offset) {
        Some(DefView::Item { file, index }) => match symbol_of_item(c, file, index) {
            Some(sym) => names_type(sym.kind),
            None => false,
        },
        _ => false,
    }
}

/// The builtin type of the ledger field that the name at `offset` stands for.
pub open spec fn ledger_adt(c: CtxView, offset: u32) -> Option<Seq<char>> {
    match resolved(c, offset) {
        Some(DefView::Item { file, index }) => match (
            symbol_of_item(c, file, index),
            item_source(c, file),
        ) {
            (Some(sym), Some(s)) => if sym.kind != SymbolKind::Ledger {
                None
            } else {
                let t = c.db.sources[s.id as int].tree;
                match ledger_head(t, sym.name_range) {
                    Some(x) => if file == c.file && names_user_type(c, t[x].start) {
                        None
                    } else if builtin_adt(t[x].text) {
                        Some(t[x].text)
                    } else {
                        None
                    },
                    None => None,
                }
            },
            _ => None,
        },
        _ => None,
    }
}

/// The first of `kids` from position `k` on that ends at or before `end`.
pub open spec fn ending_before(t: Tree, kids: Seq<int>, k: int, end: u32) -> Option<int>
    decreases kids.len() - k,
{
    if 0 <= k < kids.len() {
        if t[kids[k]].end <= end {
            Some(kids[k])
        } else {
            ending_before(t, kids, k + 1, end)
        }
    } else {
        None
    }
}

/// The name token of the receiver of method call `n`, where the receiver is a
/// bare name.
pub open spec fn bare_receiver(t: Tree, n: int) -> Option<int> {
    match child_token(t, n, DOT) {
        Some(d) => match ending_before(t, children(t, n, Class::Expr), 0, t[d].start) {
            Some(e) => if t[e].kind == NAME_EXPR {
                child_token(t, e, IDENT)
            } else {
                None
            },
            None => None,
        },
        None => None,
    }
}

/// The complaint about an argument of a ledger call.
pub open spec fn ledger_mismatch(
    pos: int,
    method: Seq<char>,
    expected: TyView,
    actual: TyView,
    span: TextRange,
) -> DiagView {
    plain_diag(
        Severity::Error,
        "E"@,
        3004,
        "expected argument "@ + decimal((pos + 1) as nat) + " of "@ + method + " to have type "@
            + displayed(expected) + " but received "@ + displayed(actual),
        span,
    )
}

/// The complaint about an argument of a circuit call.
pub open spec fn argument_mismatch(
    pos: int,
    name: Seq<char>,
    expected: TyView,
    actual: TyView,
    span: TextRange,
) -> DiagView {
    plain_diag(
        Severity::Error,
        "E"@,
        3006,
        "argument "@ + decimal((pos + 1) as nat) + " of "@ + name + " has type "@ + displayed(
            actual,
        ) + " but the parameter type is "@ + displayed(expected),
        span,
    )
}

/// The complaints about the arguments from position `i` on, each held against
/// its parameter. An unknown type on either side causes none.
pub open spec fn argument_problems(
    t: Tree,
    args: Seq<int>,
    params: Seq<TyView>,
    i: int,
    name: Seq<char>,
    ledger: bool,
) -> Seq<DiagView>
    decreases args.len() - i,
{
    if 0 <= i < args.len() && i < params.len() {
        let rest = argument_problems(t, args, params, i + 1, name, ledger);
        let actual = shown_type(t, args[i]);
        if params[i] is Unknown || actual is Unknown || subtype(actual, params[i]) {
            rest
        } else if ledger {
            seq![ledger_mismatch(i, name, params[i], actual, range_of(t, args[i]))] + rest
        } else {
            seq![argument_mismatch(i, name, params[i], actual, range_of(t, args[i]))] + rest
        }
    } else {
        Seq::empty()
    }
}

/// The complaints about ledger call `n`.
pub open spec fn ledger_call_problems_at(c: CtxView, sigs: Seq<LedgerSigView>, n: int) -> Seq<
    DiagView,
> {
    let t = c.tree();
    match (bare_receiver(t, n), child_token(t, n, IDENT)) {
        (Some(r), Some(m)) => match ledger_adt(c, t[r].start) {
            Some(adt) => match sig_from(sigs, 0, adt, t[m].text) {
                Some(params) => argument_problems(
                    t,
                    call_args(t, n),
                    params,
                    0,
                    t[m].text,
                    true,
                ),
                None => Seq::empty(),
            },
            None => Seq::empty(),
        },
        _ => Seq::empty(),
    }
}

/// The complaints about the ledger calls from index `i` on.
pub open spec fn ledger_call_problems(c: CtxView, sigs: Seq<LedgerSigView>, i: int) -> Seq<DiagView>
    decreases c.tree().len() - i,
{
    let t = c.tree();
    if 0 <= i < t.len() {
        let rest = ledger_call_problems(c, sigs, i + 1);
        if !t[i].token && t[i].kind == CALL_EXPR {
            ledger_call_problems_at(c, sigs, i) + rest
        } else {
            rest
        }
    } else {
        Seq::empty()
    }
}

fn find_ledger_head(t: &SyntaxTree, range: TextRange) -> (r: Option<usize>)
    requires
        well_formed(t@),
    ensures
        oint(r) == ledger_head(t@, range),
        r matches Some(x) ==> x < t@.len(),
{
    match find_decl(t, LEDGER_DECL, range) {
        Some(d) => match t.child(d, Class::Type) {
            Some(ty) => {
                if t.kind(ty) == TYPE_REF {
                    t.child_token(ty, IDENT)
                } else {
                    None
                }
            },
            None => None,
        },
        None => None,
    }
}

fn is_user_type(c: &Ctx, offset: u32) -> (r: bool)
    requires
        c@.ok(),
    ensures
        r == names_user_type(c@, offset),
{
    match resolve_at(c, offset) {
        Some(Definition::Item { file, index }) => match item_symbol(c, file, index) {
            Some(sym) => is_named_type(sym.kind),
            None => false,
        },
        _ => false,
    }
}

/// The builtin type of the ledger field that the name at `offset` stands for.
pub fn ledger_adt_at(c: &Ctx, offset: u32) -> (r: Option<String>)
    requires
        c@.ok(),
    ensures
        otext(r) == ledger_adt(c@, offset),
{
    let (file, index) = match resolve_at(c, offset) {
        Some(Definition::Item { file, index }) => (file, index),
        _ => {
            return None;
        },
    };
    let sym = match item_symbol(c, file, index) {
        Some(s) => s,
        None => {
            return None;
        },
    };
    if sym.kind != SymbolKind::Ledger {
        return None;
    }
    let s = match find_item_source(c, file) {
        Some(s) => s,
        None => {
            return None;
        },
    };
    assert(well_formed(c@.db.sources[s.id as int].tree));
    let t = syntax_tree(c.db, s);
    let x = match find_ledger_head(t, sym.name_range) {
        Some(x) => x,
        None => {
            return None;
        },
    };
    if file == c.file && is_user_type(c, t.range(x).start) {
        return None;
    }
    if is_builtin_adt(t.token_text(x)) {
        Some(t.token_text(x).to_owned())
    } else {
        None
    }
}

fn find_bare_receiver(t: &SyntaxTree, n: usize) -> (r: Option<usize>)
    requires
        well_formed(t@),
        n < t@.len(),
    ensures
        oint(r) == bare_receiver(t@, n as int),
        r matches Some(x) ==> x < t@.len(),
{
    let d = match t.child_token(n, DOT) {
        Some(d) => d,
        None => {
            return None;
        },
    };
    let end: u32 = t.range(d).start;
    let kids = t.children(n, Class::Expr);
    let ghost list = ints(kids@);
    let mut k: usize = 0;
    while k < kids.len()
        invariant
            well_formed(t@),
            n < t@.len(),
            k <= kids@.len(),
            list == ints(kids@),
            forall|k: int| #![trigger kids@[k]] 0 <= k < kids@.len() ==> kids@[k] < t@.len(),
            bare_receiver(t@, n as int) == (match ending_before(t@, list, k as int, end) {
                Some(e) => if t@[e].kind == NAME_EXPR {
                    child_token(t@, e, IDENT)
                } else {
                    None
                },
                None => None,
            }),
        decreases kids@.len() - k,
    {
        let e: usize = kids[k];
        assert(list[k as int] == e);
        if t.range(e).end <= end {
            if t.kind(e) == NAME_EXPR {
                return t.child_token(e, IDENT);
            } else {
                return None;
            }
        }
        k = k + 1;
    }
    None
}

fn find_sig<'a>(sigs: &'a Vec<LedgerSig>, adt: &str, method: &str) -> (r: Option<&'a Vec<TyKind>>)
    ensures
        match r {
            Some(p) => sig_from(sigs_view(sigs@), 0, adt@, method@) == Some(tys_view(p@)),
            None => sig_from(sigs_view(sigs@), 0, adt@, method@) is None,
        },
{
    let ghost list = sigs_view(sigs@);
    let mut k: usize = 0;
    while k < sigs.len()
        invariant
            k <= sigs@.len(),
            list == sigs_view(sigs@),
            sig_from(list, 0, adt@, method@) == sig_from(list, k as int, adt@, method@),
        decreases sigs@.len() - k,
    {
        assert(list[k as int] == sigs@[k as int]@);
        if same_text(&sigs[k].adt, adt) && same_text(&sigs[k].method, method) {
            return Some(&sigs[k].params);
        }
        k = k + 1;
    }
    None
}

fn ledger_arg_diag(pos: usize, method: &str, expected: &TyKind, actual: &TyKind, span: TextRange)
    -> (r: Diagnostic)
    ensures
        r@ == ledger_mismatch(pos as int, method@, expected@, actual@, span),
{
    let mut m = cat4("expected argument ", &decimal_text(pos as u128 + 1), " of ", method);
    m.append(" to have type ");
    m.append(&display_kind(expected));
    m.append(" but received ");
    m.append(&display_kind(actual));
    Diagnostic::error(DiagnosticCode::new("E", 3004), m, span)
}

fn call_arg_diag(pos: usize, name: &str, expected: &TyKind, actual: &TyKind, span: TextRange)
    -> (r: Diagnostic)
    ensures
        r@ == argument_mismatch(pos as int, name@, expected@, actual@, span),
{
    let mut m = cat4("argument ", &decimal_text(pos as u128 + 1), " of ", name);
    m.append(" has type ");
    m.append(&display_kind(actual));
    m.append(" but the parameter type is ");
    m.append(&display_kind(expected));
    Diagnostic::error(DiagnosticCode::new("E", 3006), m, span)
}

fn is_unknown(t: &TyKind) -> (r: bool)
    ensures
        r == (t@ is Unknown),
{
    match t {
        TyKind::Unknown => true,
        _ => false,
    }
}

fn check_arguments(
    t: &SyntaxTree,
    args: &Vec<usize>,
    params: &Vec<TyKind>,
    name: &str,
    ledger: bool,
    diags: &mut Vec<Diagnostic>,
)
    requires
        well_formed(t@),
        forall|k: int| #![trigger args@[k]] 0 <= k < args@.len() ==> args@[k] < t@.len(),
    ensures
        diags_view(final(diags)@) == diags_view(old(diags)@) + argument_problems(
            t@,
            ints(args@),
            tys_view(params@),
            0,
            name@,
            ledger,
        ),
{
    let ghost list = ints(args@);
    let ghost tys = tys_view(params@);
    let ghost whole = diags_view(diags@) + argument_problems(t@, list, tys, 0, name@, ledger);
    let mut i: usize = 0;
    while i < args.len() && i < params.len()
        invariant
            well_formed(t@),
            i <= args@.len(),
            i <= params@.len(),
            list == ints(args@),
            tys == tys_view(params@),
            forall|k: int| #![trigger args@[k]] 0 <= k < args@.len() ==> args@[k] < t@.len(),
            diags_view(diags@) + argument_problems(t@, list, tys, i as int, name@, ledger)
                == whole,
        decreases args@.len() - i,
    {
        let a: usize = args[i];
        assert(list[i as int] == a);
        assert(tys[i as int] == params@[i as int]@);
        let ghost before = diags_view(diags@);
        let ghost rest = argument_problems(t@, list, tys, i + 1, name@, ledger);
        let actual = expr_ty_kind(t, a);
        if !is_unknown(&params[i]) && !is_unknown(&actual) && !is_subtype(&actual, &params[i]) {
            let d = if ledger {
                ledger_arg_diag(i, name, &params[i], &actual, t.range(a))
            } else {
                call_arg_diag(i, name, &params[i], &actual, t.range(a))
            };
            let ghost own = d@;
            push_diag(diags, d);
            assert(before + (seq![own] + rest) =~= before.push(own) + rest);
        }
        i = i + 1;
    }
    assert(diags_view(diags@) + Seq::<DiagView>::empty() =~= diags_view(diags@));
}

fn check_ledger_call(c: &Ctx, sigs: &Vec<LedgerSig>, n: usize, diags: &mut Vec<Diagnostic>)
    requires
        c@.ok(),
        n < c@.tree().len(),
    ensures
        diags_view(final(diags)@) == diags_view(old(diags)@) + ledger_call_problems_at(
            c@,
            sigs_view(sigs@),
            n as int,
        ),
{
    let ghost base = diags_view(diags@);
    assert(base + Seq::<DiagView>::empty() =~= base);
    let t = syntax_tree(c.db, c.src);
    let recv = match find_bare_receiver(t, n) {
        Some(x) => x,
        None => {
            return;
        },
    };
    let m = match t.child_token(n, IDENT) {
        Some(m) => m,
        None => {
            return;
        },
    };
    let adt = match ledger_adt_at(c, t.range(recv).start) {
        Some(a) => a,
        None => {
            return;
        },
    };
    let params = match find_sig(sigs, &adt, t.token_text(m)) {
        Some(p) => p,
        None => {
            return;
        },
    };
    let args = arg_exprs(t, n);
    check_arguments(t, &args, params, t.token_text(m), true, diags);
}

/// Complains about every argument of a ledger call whose type is known and
/// does not fit the parameter. `sigs` lists the methods of the builtin types.
pub fn ledger_call_diagnostics_query(
    db: &CompactDatabase,
    file: FileId,
    src: SourceText,
    fd: FileDeps,
    ws: &Workspace,
    sigs: &Vec<LedgerSig>,
) -> (r: Vec<Diagnostic>)
    requires
        (CtxView { db: db@, file, src, fd, ws: ws@ }).ok(),
    ensures
        diags_view(r@) == ledger_call_problems(CtxView { db: db@, file, src, fd, ws: ws@ }, sigs_view(sigs@), 0),
{
    let ctx = Ctx { db, file, src, fd, ws };
    let c = &ctx;
    let t = syntax_tree(c.db, c.src);
    let mut diags: Vec<Diagnostic> = Vec::new();
    let ghost list = sigs_view(sigs@);
    let ghost whole = ledger_call_problems(c@, list, 0);
    let end: usize = t.len();
    let mut i: usize = 0;
    assert(diags_view(diags@) + whole =~= whole);
    while i < end
        invariant
            c@.ok(),
            t@ == c@.tree(),
            i <= end,
            end == t@.len(),
            list == sigs_view(sigs@),
            diags_view(diags@) + ledger_call_problems(c@, list, i as int) == whole,
        decreases end - i,
    {
        let ghost before = diags_view(diags@);
        let ghost rest = ledger_call_problems(c@, list, i + 1);
        if !t.is_token(i) && t.kind(i) == CALL_EXPR {
            check_ledger_call(c, sigs, i, &mut diags);
            let ghost own = ledger_call_problems_at(c@, list, i as int);
            assert(before + (own + rest) =~= (before + own) + rest);
        }
        i = i + 1;
    }
    assert(diags_view(diags@) + Seq::<DiagView>::empty() =~= diags_view(diags@));
    diags
}

// ---------------------------------------------------------------------------
// Circuit calls
// ---------------------------------------------------------------------------

/// The complaint about a wrong number of arguments.
pub open spec fn count_mismatch(name: Seq<char>, given: nat, declared: nat, span: TextRange) -> DiagView {
    plain_diag(
        Severity::Error,
        "E"@,
        3006,
        "call to "@ + name + " supplies "@ + decimal(given)
            + " argument(s) but its signature declares "@ + decimal(declared),
        span,
    )
}

/// Whether one of `args` from position `k` on is a spread.
pub open spec fn has_spread(t: Tree, args: Seq<int>, k: int) -> bool
    decreases args.len() - k,
{
    if 0 <= k < args.len() {
        t[args[k]].kind == SPREAD_EXPR || has_spread(t, args, k + 1)
    } else {
        false
    }
}

/// The complaints about circuit call `n`: one about a wrong number of
/// arguments, or else one for each argument that does not fit. A callee in
/// doubt or a spread causes none.
pub open spec fn call_problems_at(c: CtxView, n: int) -> Seq<DiagView> {
    let t = c.tree();
    match child_token(t, n, IDENT) {
        Some(x) => if child_token(t, n, DOT) is Some || child_token(t, n, L_PAREN) is None {
            Seq::empty()
        } else {
            match callee_params(c, t[x].start) {
                Some(params) => {
                    let args = call_args(t, n);
                    if has_spread(t, args, 0) {
                        Seq::empty()
                    } else if args.len() != params.len() {
                        seq![count_mismatch(t[x].text, args.len(), params.len(), range_of(t, n))]
                    } else {
                        argument_problems(t, args, params, 0, t[x].text, false)
                    }
                },
                None => Seq::empty(),
            }
        },
        None => Seq::empty(),
    }
}

/// The complaints about the circuit calls from index `i` on.
pub open spec fn call_problems(c: CtxView, i: int) -> Seq<DiagView>
    decreases c.tree().len() - i,
{
    let t = c.tree();
    if 0 <= i < t.len() {
        let rest = call_problems(c, i + 1);
        if !t[i].token && t[i].kind == CALL_EXPR {
            call_problems_at(c, i) + rest
        } else {
            rest
        }
    } else {
        Seq::empty()
    }
}

fn any_spread(t: &SyntaxTree, args: &Vec<usize>) -> (r: bool)
    requires
        forall|k: int| #![trigger args@[k]] 0 <= k < args@.len() ==> args@[k] < t@.len(),
    ensures
        r == has_spread(t@, ints(args@), 0),
{
    let ghost list = ints(args@);
    let mut k: usize = 0;
    while k < args.len()
        invariant
            k <= args@.len(),
            list == ints(args@),
            forall|k: int| #![trigger args@[k]] 0 <= k < args@.len() ==> args@[k] < t@.len(),
            has_spread(t@, list, 0) == has_spread(t@, list, k as int),
        decreases args@.len() - k,
    {
        assert(list[k as int] == args@[k as int]);
        if t.kind(args[k]) == SPREAD_EXPR {
            return true;
        }
        k = k + 1;
    }
    false
}

fn check_call(c: &Ctx, n: usize, diags: &mut Vec<Diagnostic>)
    requires
        c@.ok(),
        n < c@.tree().len(),
    ensures
        diags_view(final(diags)@) == diags_view(old(diags)@) + call_problems_at(c@, n as int),
{
    let ghost base = diags_view(diags@);
    assert(base + Seq::<DiagView>::empty() =~= base);
    let t = syntax_tree(c.db, c.src);
    let x = match t.child_token(n, IDENT) {
        Some(x) => x,
        None => {
            return;
        },
    };
    if t.child_token(n, DOT).is_some() || t.child_token(n, L_PAREN).is_none() {
        return;
    }
    let sig = match callee_sig(c, t.range(x).start) {
        Some(s) => s,
        None => {
            return;
        },
    };
    let args = arg_exprs(t, n);
    assert(ints(args@).len() == args@.len());
    assert(tys_view(sig.params@).len() == sig.params@.len());
    if any_spread(t, &args) {
        return;
    }
    if args.len() != sig.params.len() {
        let mut m = cat4(
            "call to ",
            t.token_text(x),
            " supplies ",
            &decimal_text(args.len() as u128),
        );
        m.append(" argument(s) but its signature declares ");
        m.append(&decimal_text(sig.params.len() as u128));
        let d = Diagnostic::error(DiagnosticCode::new("E", 3006), m, t.range(n));
        let ghost own = d@;
        push_diag(diags, d);
        assert(base.push(own) =~= base + seq![own]);
        return;
    }
    check_arguments(t, &args, &sig.params, t.token_text(x), false, diags);
}

/// Complains about every call of a circuit or witness of the same file with a
/// wrong number of arguments, or with an argument whose type is known and does
/// not fit its parameter.
pub fn call_arg_diagnostics_query(
    db: &CompactDatabase,
    file: FileId,
    src: SourceText,
    fd: FileDeps,
    ws: &Workspace,
) -> (r: Vec<Diagnostic>)
    requires
        (CtxView { db: db@, file, src, fd, ws: ws@ }).ok(),
    ensures
        diags_view(r@) == call_problems(CtxView { db: db@, file, src, fd, ws: ws@ }, 0),
{
    let ctx = Ctx { db, file, src, fd, ws };
    let c = &ctx;
    let t = syntax_tree(c.db, c.src);
    let mut diags: Vec<Diagnostic> = Vec::new();
    let ghost whole = call_problems(c@, 0);
    let end: usize = t.len();
    let mut i: usize = 0;
    assert(diags_view(diags@) + whole =~= whole);
    while i < end
        invariant
            c@.ok(),
            t@ == c@.tree(),
            i <= end,
            end == t@.len(),
            diags_view(diags@) + call_problems(c@, i as int) == whole,
        decreases end - i,
    {
        let ghost before = diags_view(diags@);
        let ghost rest = call_problems(c@, i + 1);
        if !t.is_token(i) && t.kind(i) == CALL_EXPR {
            check_call(c, i, &mut diags);
            let ghost own = call_problems_at(c@, i as int);
            assert(before + (own + rest) =~= (before + own) + rest);
        }
        i = i + 1;
    }
    assert(diags_view(diags@) + Seq::<DiagView>::empty() =~= diags_view(diags@));
    diags
}

} // verus!
