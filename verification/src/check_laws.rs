//! Laws of the complaints about imports, returns, generic arguments and calls.

use vstd::prelude::*;

use crate::calls::{call_args, starting_at};
use crate::checks::{
    argument_mismatch, argument_problems, arity_problem, arity_problems, bare_receiver,
    call_problems, call_problems_at, has_spread, import_problems, import_problems_at, ledger_adt,
    ledger_call_problems, ledger_call_problems_at, ledger_mismatch, names_user_type,
    resolution_problems, sig_from, splice_problems, splice_problems_at, ImportCtx, LedgerSigView,
};
use crate::db::{
    dep_target, resolved, symbol_fits, symbol_from, symbol_of_item, through_import, CtxView,
};
use crate::diagnostics::{DiagView, Severity};
use crate::infer::{
    annotated, circuit_mismatches, circuit_name_at, decl_named, literal_returns, literal_type,
    return_mismatches, shown_type, type_mismatches, uint_type,
};
use crate::item_tree::{SymbolKind, SymbolView};
use crate::kinds::{
    in_class, Class, BLOCK, BOOLEAN_TYPE, CALL_EXPR, CIRCUIT_DEF, DOT, FALSE_KW, FIELD_TYPE,
    GENERIC_ARG, GENERIC_ARG_LIST, IDENT, IMPORT, INCLUDE, LEDGER_DECL, LITERAL_EXPR, L_PAREN,
    NAME_EXPR, RETURN_STMT, SOURCE_FILE, SPREAD_EXPR, STRING_LIT, TRUE_KW, TYPE_REF, UINT_TYPE,
};
use crate::resolve::{sole_module, DefView};
use crate::scope_laws::{lemma_in_left, lemma_in_right, lemma_in_sum};
use crate::source_path::{module_name_of, unquoted};
use crate::syntax::{child, child_token, children, range_of, Tree};
use crate::text::{decimal, TextRange};
use crate::tree_laws::{law_children, nested};
use crate::ty::{displayed, subtype, TyView};
use crate::typing::callee_params;

verus! {

// ---------------------------------------------------------------------------
// Imports
// ---------------------------------------------------------------------------

proof fn lemma_found(
    syms: Seq<SymbolView>,
    i: int,
    j: int,
    parent: Option<u32>,
    name: Seq<char>,
    exported_only: bool,
    kind: Option<SymbolKind>,
)
    requires
        0 <= i <= j < syms.len(),
        symbol_fits(syms[j], parent, name, exported_only, kind),
    ensures
        symbol_from(syms, i, parent, name, exported_only, kind) is Some,
    decreases j - i,
{
    if i < j && !symbol_fits(syms[i], parent, name, exported_only, kind) {
        lemma_found(syms, i + 1, j, parent, name, exported_only, kind);
    }
}

/// What the imports of the file of a context are held against.
pub open spec fn imports_of(c: CtxView, from_dir: Seq<char>, search: Seq<char>) -> ImportCtx {
    ImportCtx { db: c.db, t: c.tree(), syms: c.syms(), deps: c.deps(), from_dir, search }
}

/// An import by name of a module that the file itself declares at its top level,
/// or of the standard library, is never complained about.
pub proof fn law_own_modules_are_not_complained_about(c: ImportCtx, n: int, x: int, j: int)
    requires
        child_token(c.t, n, IDENT) == Some(x),
        c.t[x].text == "CompactStandardLibrary"@ || (0 <= j < c.syms.len() && c.syms[j].kind
            == SymbolKind::Module && c.syms[j].parent is None && c.syms[j].name == c.t[x].text),
    ensures
        import_problems_at(c, n).len() == 0,
{
    if c.t[x].text != "CompactStandardLibrary"@ {
        lemma_found(c.syms, 0, j, None, c.t[x].text, false, Some(SymbolKind::Module));
    }
}

/// An import through which some name is found is never complained about.
pub proof fn law_resolving_imports_are_not_complained_about(
    c: CtxView,
    n: int,
    name: Seq<char>,
    from_dir: Seq<char>,
    search: Seq<char>,
)
    requires
        through_import(c, n, name) is Some,
    ensures
        import_problems_at(imports_of(c, from_dir, search), n).len() == 0,
{
}

/// An import target that was not found is complained about once, at the token
/// that names it.
pub proof fn law_missing_import_is_complained_about(c: ImportCtx, n: int, x: int)
    requires
        match child_token(c.t, n, IDENT) {
            Some(y) => x == y && c.t[x].text != "CompactStandardLibrary"@ && dep_target(
                c.deps,
                c.t[x].text,
                false,
            ) is None && forall|j: int|
                #![trigger c.syms[j]]
                0 <= j < c.syms.len() ==> !(c.syms[j].kind == SymbolKind::Module
                    && c.syms[j].parent is None && c.syms[j].name == c.t[x].text),
            None => child_token(c.t, n, STRING_LIT) == Some(x) && module_name_of(
                unquoted(c.t[x].text),
            ) is Some && dep_target(c.deps, unquoted(c.t[x].text), false) is None,
        },
    ensures
        import_problems_at(c, n).len() == 1,
        import_problems_at(c, n)[0].number == 9001,
        import_problems_at(c, n)[0].severity == Severity::Error,
        import_problems_at(c, n)[0].primary_span == range_of(c.t, x),
{
    if child_token(c.t, n, IDENT) is Some {
        lemma_not_found(c.syms, 0, c.t[x].text);
    }
}

proof fn lemma_not_found(syms: Seq<SymbolView>, i: int, name: Seq<char>)
    requires
        0 <= i,
        forall|j: int|
            #![trigger syms[j]]
            i <= j < syms.len() ==> !(syms[j].kind == SymbolKind::Module && syms[j].parent is None
                && syms[j].name == name),
    ensures
        symbol_from(syms, i, None, name, false, Some(SymbolKind::Module)) is None,
    decreases syms.len() - i,
{
    if i < syms.len() {
        assert(!symbol_fits(syms[i], None, name, false, Some(SymbolKind::Module)));
        lemma_not_found(syms, i + 1, name);
    }
}

/// An import that leads to a file is complained about exactly where that file
/// does not consist of the one module that the import expects: `E9003` where it
/// has no single module, and else `E9002`.
pub proof fn law_imported_file_is_one_module(c: ImportCtx, n: int, x: int, expected: Seq<char>)
    requires
        match child_token(c.t, n, IDENT) {
            Some(y) => x == y && c.t[x].text != "CompactStandardLibrary"@ && expected == c.t[x].text
                && dep_target(c.deps, expected, false) is Some && forall|j: int|
                #![trigger c.syms[j]]
                0 <= j < c.syms.len() ==> !(c.syms[j].kind == SymbolKind::Module
                    && c.syms[j].parent is None && c.syms[j].name == c.t[x].text),
            None => child_token(c.t, n, STRING_LIT) == Some(x) && module_name_of(
                unquoted(c.t[x].text),
            ) == Some(expected) && dep_target(c.deps, unquoted(c.t[x].text), false) is Some,
        },
    ensures
        ({
            let raw = if child_token(c.t, n, IDENT) is Some {
                c.t[x].text
            } else {
                unquoted(c.t[x].text)
            };
            let target = dep_target(c.deps, raw, false)->0;
            let all = import_problems_at(c, n);
            match sole_module(c.db.sources[target.1.id as int].syms) {
                Some((_, m)) => if m.name == expected {
                    all.len() == 0
                } else {
                    all.len() == 1 && all[0].number == 9002 && all[0].primary_span == range_of(
                        c.t,
                        x,
                    ) && all[0].severity == Severity::Error
                },
                None => all.len() == 1 && all[0].number == 9003 && all[0].primary_span == range_of(
                    c.t,
                    x,
                ) && all[0].severity == Severity::Error,
            }
        }),
{
    if child_token(c.t, n, IDENT) is Some {
        lemma_not_found(c.syms, 0, c.t[x].text);
    }
}

/// A spliced file is complained about exactly where it was not found, once and
/// at the literal that names it.
pub proof fn law_missing_splice_is_complained_about(c: ImportCtx, n: int, x: int)
    requires
        child_token(c.t, n, STRING_LIT) == Some(x),
    ensures
        splice_problems_at(c, n).len() == (if dep_target(c.deps, unquoted(c.t[x].text), true)
            is None {
            1nat
        } else {
            0nat
        }),
        splice_problems_at(c, n).len() > 0 ==> splice_problems_at(c, n)[0].number == 9004
            && splice_problems_at(c, n)[0].primary_span == range_of(c.t, x)
            && splice_problems_at(c, n)[0].severity == Severity::Error,
{
}

proof fn lemma_imports(c: ImportCtx, kids: Seq<int>, k: int, d: DiagView)
    requires
        0 <= k,
    ensures
        import_problems(c, kids, k).contains(d) <==> exists|j: int|
            k <= j < kids.len() && import_problems_at(c, #[trigger] kids[j]).contains(d),
        splice_problems(c, kids, k).contains(d) <==> exists|j: int|
            k <= j < kids.len() && splice_problems_at(c, #[trigger] kids[j]).contains(d),
    decreases kids.len() - k,
{
    if k < kids.len() {
        lemma_imports(c, kids, k + 1, d);
        let a = import_problems_at(c, kids[k]);
        let b = import_problems(c, kids, k + 1);
        if a.contains(d) {
            lemma_in_left(a, b, d);
        }
        if b.contains(d) {
            lemma_in_right(a, b, d);
        }
        if (a + b).contains(d) {
            lemma_in_sum(a, b, d);
        }
        let x = splice_problems_at(c, kids[k]);
        let y = splice_problems(c, kids, k + 1);
        if x.contains(d) {
            lemma_in_left(x, y, d);
        }
        if y.contains(d) {
            lemma_in_right(x, y, d);
        }
        if (x + y).contains(d) {
            lemma_in_sum(x, y, d);
        }
    }
}

/// The complaints about the imports of a file are those about its imports and
/// spliced files, all of them and no other.
pub proof fn law_every_import_is_checked(c: ImportCtx, d: DiagView)
    requires
        nested(c.t),
        c.t.len() > 0,
        !c.t[0].token,
        c.t[0].kind == SOURCE_FILE,
    ensures
        resolution_problems(c).contains(d) <==> exists|n: int|
            0 <= n < c.t.len() && #[trigger] c.t[n].parent == Some(0int) && !c.t[n].token && ((
            c.t[n].kind == IMPORT && import_problems_at(c, n).contains(d)) || (c.t[n].kind
                == INCLUDE && splice_problems_at(c, n).contains(d))),
{
    let imports = children(c.t, 0, Class::Kind(IMPORT));
    let splices = children(c.t, 0, Class::Kind(INCLUDE));
    let a = import_problems(c, imports, 0);
    let b = splice_problems(c, splices, 0);
    lemma_imports(c, imports, 0, d);
    lemma_imports(c, splices, 0, d);
    if a.contains(d) {
        lemma_in_left(a, b, d);
        let j = choose|j: int|
            0 <= j < imports.len() && import_problems_at(c, #[trigger] imports[j]).contains(d);
        law_children(c.t, 0, Class::Kind(IMPORT), imports[j]);
        assert(c.t[imports[j]].parent == Some(0int));
    }
    if b.contains(d) {
        lemma_in_right(a, b, d);
        let j = choose|j: int|
            0 <= j < splices.len() && splice_problems_at(c, #[trigger] splices[j]).contains(d);
        law_children(c.t, 0, Class::Kind(INCLUDE), splices[j]);
        assert(c.t[splices[j]].parent == Some(0int));
    }
    if (a + b).contains(d) {
        lemma_in_sum(a, b, d);
    }
    if exists|n: int|
        0 <= n < c.t.len() && #[trigger] c.t[n].parent == Some(0int) && !c.t[n].token && ((
        c.t[n].kind == IMPORT && import_problems_at(c, n).contains(d)) || (c.t[n].kind == INCLUDE
            && splice_problems_at(c, n).contains(d))) {
        let n = choose|n: int|
            0 <= n < c.t.len() && #[trigger] c.t[n].parent == Some(0int) && !c.t[n].token && ((
            c.t[n].kind == IMPORT && import_problems_at(c, n).contains(d)) || (c.t[n].kind
                == INCLUDE && splice_problems_at(c, n).contains(d)));
        if c.t[n].kind == IMPORT {
            law_children(c.t, 0, Class::Kind(IMPORT), n);
            let j = imports.index_of(n);
            assert(import_problems_at(c, imports[j]).contains(d));
        } else {
            law_children(c.t, 0, Class::Kind(INCLUDE), n);
            let j = splices.index_of(n);
            assert(splice_problems_at(c, splices[j]).contains(d));
        }
    }
}

// ---------------------------------------------------------------------------
// Returns
// ---------------------------------------------------------------------------

/// Either keyword makes a literal a Boolean, and nothing else does.
pub proof fn law_boolean_keywords_are_boolean(t: Tree, n: int)
    ensures
        child_token(t, n, TRUE_KW) is Some ==> literal_type(t, n) is Boolean,
        child_token(t, n, FALSE_KW) is Some ==> literal_type(t, n) is Boolean,
        child_token(t, n, TRUE_KW) is None && child_token(t, n, FALSE_KW) is None ==> literal_type(
            t,
            n,
        ) is Unknown,
{
}

/// Whether statement `s` returns the literal `true` or the literal `false`.
pub open spec fn returns_boolean(t: Tree, s: int) -> bool {
    t[s].kind == RETURN_STMT && (child(t, s, Class::Expr) matches Some(e) && t[e].kind
        == LITERAL_EXPR && (child_token(t, e, TRUE_KW) is Some || child_token(t, e, FALSE_KW)
        is Some))
}

/// How many of the statements from position `k` on do.
pub open spec fn boolean_returns(t: Tree, stmts: Seq<int>, k: int) -> nat
    decreases stmts.len() - k,
{
    if 0 <= k < stmts.len() {
        boolean_returns(t, stmts, k + 1) + (if returns_boolean(t, stmts[k]) {
            1nat
        } else {
            0nat
        })
    } else {
        0
    }
}

/// The declared type is modelled and holds no Boolean.
pub open spec fn numeric_annotation(t: Tree, ty: int) -> bool {
    t[ty].kind == FIELD_TYPE || (t[ty].kind == UINT_TYPE && uint_type(t, ty) is Uint)
}

proof fn lemma_returns(t: Tree, stmts: Seq<int>, k: int, ty: int, name: Seq<char>)
    requires
        0 <= k,
        numeric_annotation(t, ty),
    ensures
        ({
            let places = literal_returns(t, stmts, k);
            let all = return_mismatches(places, 0, annotated(t, ty), name);
            &&& all.len() == boolean_returns(t, stmts, k)
            &&& forall|j: int|
                #![trigger stmts[j]]
                k <= j < stmts.len() && returns_boolean(t, stmts[j]) ==> exists|i: int|
                    0 <= i < all.len() && (#[trigger] all[i]).primary_span == range_of(t, stmts[j])
            &&& forall|i: int|
                #![trigger all[i]]
                0 <= i < all.len() ==> all[i].number == 3001 && all[i].severity == Severity::Error
                    && all[i].message == "mismatch between actual return type "@ + "Boolean"@
                    + " and declared return type "@ + displayed(annotated(t, ty)) + " of circuit "@
                    + name && exists|j: int|
                    k <= j < stmts.len() && returns_boolean(t, #[trigger] stmts[j])
                        && all[i].primary_span == range_of(t, stmts[j])
        }),
    decreases stmts.len() - k,
{
    let declared = annotated(t, ty);
    let places = literal_returns(t, stmts, k);
    let all = return_mismatches(places, 0, declared, name);
    if k < stmts.len() {
        let rest = literal_returns(t, stmts, k + 1);
        let after = return_mismatches(rest, 0, declared, name);
        lemma_returns(t, stmts, k + 1, ty, name);
        let e = child(t, stmts[k], Class::Expr);
        if t[stmts[k]].kind == RETURN_STMT && e is Some && t[e->0].kind == LITERAL_EXPR {
            let own = (range_of(t, stmts[k]), literal_type(t, e->0));
            assert(places == seq![own] + rest);
            lemma_shift(own, rest, 0, declared, name);
            assert(places[0] == own);
            if returns_boolean(t, stmts[k]) {
                assert(all == seq![all[0]] + after);
                assert(all[0].primary_span == range_of(t, stmts[k]));
                assert forall|j: int|
                    #![trigger stmts[j]]
                    k <= j < stmts.len() && returns_boolean(t, stmts[j]) implies exists|i: int|
                    0 <= i < all.len() && (#[trigger] all[i]).primary_span == range_of(
                        t,
                        stmts[j],
                    ) by {
                    if j > k {
                        let i = choose|i: int|
                            0 <= i < after.len() && (#[trigger] after[i]).primary_span == range_of(
                                t,
                                stmts[j],
                            );
                        assert(all[i + 1] == after[i]);
                    }
                }
                assert forall|i: int| #![trigger all[i]] 0 <= i < all.len() implies all[i].number
                    == 3001 && all[i].severity == Severity::Error && all[i].message
                    == "mismatch between actual return type "@ + "Boolean"@
                    + " and declared return type "@ + displayed(declared) + " of circuit "@ + name
                    && exists|j: int|
                    k <= j < stmts.len() && returns_boolean(t, #[trigger] stmts[j])
                        && all[i].primary_span == range_of(t, stmts[j]) by {
                    if i > 0 {
                        assert(all[i] == after[i - 1]);
                    } else {
                        assert(returns_boolean(t, stmts[k]));
                    }
                }
            } else {
                assert(all == after);
            }
        } else {
            assert(places == rest);
            assert(!returns_boolean(t, stmts[k]));
        }
    }
}

proof fn lemma_shift(
    own: (TextRange, TyView),
    rest: Seq<(TextRange, TyView)>,
    k: int,
    declared: TyView,
    name: Seq<char>,
)
    requires
        0 <= k,
    ensures
        return_mismatches(seq![own] + rest, k + 1, declared, name) == return_mismatches(
            rest,
            k,
            declared,
            name,
        ),
    decreases rest.len() - k,
{
    let all = seq![own] + rest;
    if k < rest.len() {
        assert(all[k + 1] == rest[k]);
        lemma_shift(own, rest, k + 1, declared, name);
    }
}

/// A circuit that is declared to return a number gets exactly one complaint for
/// each statement of its body that returns `true` or `false`, at that statement,
/// with the two types and its name. One that returns a Boolean gets none.
pub proof fn law_boolean_returns_of_numbers(t: Tree, syms: Seq<SymbolView>, n: int, x: int, ty: int, b: int, j: int)
    requires
        child_token(t, n, IDENT) == Some(x),
        child(t, n, Class::Type) == Some(ty),
        child(t, n, Class::Kind(BLOCK)) == Some(b),
        0 <= j < syms.len(),
        syms[j].kind == SymbolKind::Circuit,
        syms[j].name_range == range_of(t, x),
        forall|i: int|
            #![trigger syms[i]]
            j < i < syms.len() ==> !(syms[i].kind == SymbolKind::Circuit && syms[i].name_range
                == range_of(t, x)),
    ensures
        numeric_annotation(t, ty) ==> ({
            let stmts = children(t, b, Class::Stmt);
            let all = circuit_mismatches(t, syms, n);
            &&& all.len() == boolean_returns(t, stmts, 0)
            &&& forall|k: int|
                #![trigger stmts[k]]
                0 <= k < stmts.len() && returns_boolean(t, stmts[k]) ==> exists|i: int|
                    0 <= i < all.len() && (#[trigger] all[i]).primary_span == range_of(t, stmts[k])
            &&& forall|i: int|
                #![trigger all[i]]
                0 <= i < all.len() ==> all[i].number == 3001 && all[i].severity == Severity::Error
                    && all[i].message == "mismatch between actual return type "@ + "Boolean"@
                    + " and declared return type "@ + displayed(annotated(t, ty)) + " of circuit "@
                    + syms[j].name
        }),
        t[ty].kind == BOOLEAN_TYPE ==> circuit_mismatches(t, syms, n).len() == 0,
{
    lemma_circuit_name(syms, syms.len() as int, range_of(t, x), j);
    let stmts = children(t, b, Class::Stmt);
    if numeric_annotation(t, ty) {
        lemma_returns(t, stmts, 0, ty, syms[j].name);
    }
    if t[ty].kind == BOOLEAN_TYPE {
        lemma_boolean_fits(t, stmts, 0, syms[j].name);
    }
}

proof fn lemma_boolean_fits(t: Tree, stmts: Seq<int>, k: int, name: Seq<char>)
    requires
        0 <= k,
    ensures
        return_mismatches(literal_returns(t, stmts, k), 0, TyView::Boolean, name).len() == 0,
    decreases stmts.len() - k,
{
    if k < stmts.len() {
        lemma_boolean_fits(t, stmts, k + 1, name);
        let rest = literal_returns(t, stmts, k + 1);
        let places = literal_returns(t, stmts, k);
        let e = child(t, stmts[k], Class::Expr);
        if t[stmts[k]].kind == RETURN_STMT && e is Some && t[e->0].kind == LITERAL_EXPR {
            let own = (range_of(t, stmts[k]), literal_type(t, e->0));
            assert(places == seq![own] + rest);
            assert(places[0] == own);
            lemma_shift(own, rest, 0, TyView::Boolean, name);
        }
    }
}

proof fn lemma_circuit_name(syms: Seq<SymbolView>, n: int, range: TextRange, j: int)
    requires
        0 <= j < n <= syms.len(),
        syms[j].kind == SymbolKind::Circuit,
        syms[j].name_range == range,
        forall|i: int|
            #![trigger syms[i]]
            j < i < n ==> !(syms[i].kind == SymbolKind::Circuit && syms[i].name_range == range),
    ensures
        circuit_name_at(syms, n, range) == Some(syms[j].name),
    decreases n,
{
    if n - 1 > j {
        assert(!(syms[n - 1].kind == SymbolKind::Circuit && syms[n - 1].name_range == range));
        lemma_circuit_name(syms, n - 1, range, j);
    }
}

/// The complaints about the returns of a file are those about its circuits, all
/// of them and no other.
pub proof fn law_every_circuit_is_checked(t: Tree, syms: Seq<SymbolView>, i: int, d: DiagView)
    requires
        0 <= i,
    ensures
        type_mismatches(t, syms, i).contains(d) <==> exists|n: int|
            i <= n < t.len() && !t[n].token && (#[trigger] t[n]).kind == CIRCUIT_DEF
                && circuit_mismatches(t, syms, n).contains(d),
    decreases t.len() - i,
{
    if i < t.len() {
        law_every_circuit_is_checked(t, syms, i + 1, d);
        let own = circuit_mismatches(t, syms, i);
        let rest = type_mismatches(t, syms, i + 1);
        if !t[i].token && t[i].kind == CIRCUIT_DEF {
            if own.contains(d) {
                lemma_in_left(own, rest, d);
            }
            if rest.contains(d) {
                lemma_in_right(own, rest, d);
            }
            if (own + rest).contains(d) {
                lemma_in_sum(own, rest, d);
            }
        }
    }
}

// ---------------------------------------------------------------------------
// Generic arguments
// ---------------------------------------------------------------------------

/// A type reference is complained about exactly where its name stands for a
/// struct, an enum or a type alias that declares another number of generic
/// parameters than it gives arguments; once, and at the reference.
pub proof fn law_generic_arguments_are_counted(
    c: CtxView,
    n: int,
    x: int,
    def: DefView,
    sym: SymbolView,
)
    requires
        child_token(c.tree(), n, IDENT) == Some(x),
        resolved(c, c.tree()[x].start) == Some(def),
        def matches DefView::Item { file, index } && symbol_of_item(c, file, index) == Some(sym),
        child(c.tree(), n, Class::Kind(GENERIC_ARG_LIST)) matches Some(l) ==> children(
            c.tree(),
            l,
            Class::Kind(GENERIC_ARG),
        ).len() <= u32::MAX,
    ensures
        ({
            let given = match child(c.tree(), n, Class::Kind(GENERIC_ARG_LIST)) {
                Some(l) => children(c.tree(), l, Class::Kind(GENERIC_ARG)).len(),
                None => 0,
            };
            let all = arity_problem(c, n);
            let named = sym.kind == SymbolKind::Struct || sym.kind == SymbolKind::Enum || sym.kind
                == SymbolKind::TypeAlias;
            &&& all.len() == (if named && given != sym.generic_param_count {
                1nat
            } else {
                0nat
            })
            &&& all.len() > 0 ==> all[0].number == 3003 && all[0].severity == Severity::Error
                && all[0].primary_span == range_of(c.tree(), n) && all[0].message
                == "mismatch between actual number "@ + decimal(given) + " and declared number "@
                + decimal(sym.generic_param_count as nat) + " of generic parameters for "@
                + c.tree()[x].text
        }),
{
}

/// The complaints about generic arguments are those about the type references of
/// a file, all of them and no other.
pub proof fn law_every_type_reference_is_checked(c: CtxView, i: int, d: DiagView)
    requires
        0 <= i,
    ensures
        arity_problems(c, i).contains(d) <==> exists|n: int|
            i <= n < c.tree().len() && !c.tree()[n].token && (#[trigger] c.tree()[n]).kind
                == TYPE_REF && arity_problem(c, n).contains(d),
    decreases c.tree().len() - i,
{
    let t = c.tree();
    if i < t.len() {
        law_every_type_reference_is_checked(c, i + 1, d);
        let own = arity_problem(c, i);
        let rest = arity_problems(c, i + 1);
        if !t[i].token && t[i].kind == TYPE_REF {
            if own.contains(d) {
                lemma_in_left(own, rest, d);
            }
            if rest.contains(d) {
                lemma_in_right(own, rest, d);
            }
            if (own + rest).contains(d) {
                lemma_in_sum(own, rest, d);
            }
        }
    }
}

// ---------------------------------------------------------------------------
// Calls
// ---------------------------------------------------------------------------

/// Whether argument `i` shows a type that its parameter does not take.
pub open spec fn misfits(t: Tree, args: Seq<int>, params: Seq<TyView>, i: int) -> bool {
    !(params[i] is Unknown) && !(shown_type(t, args[i]) is Unknown) && !subtype(
        shown_type(t, args[i]),
        params[i],
    )
}

/// How many of the arguments from position `i` on do.
pub open spec fn misfit_count(t: Tree, args: Seq<int>, params: Seq<TyView>, i: int) -> nat
    decreases args.len() - i,
{
    if 0 <= i < args.len() && i < params.len() {
        misfit_count(t, args, params, i + 1) + (if misfits(t, args, params, i) {
            1nat
        } else {
            0nat
        })
    } else {
        0
    }
}

/// What the complaint about argument `i` says.
pub open spec fn misfit_message(
    t: Tree,
    arg: int,
    param: TyView,
    i: int,
    name: Seq<char>,
    ledger: bool,
) -> Seq<char> {
    let actual = displayed(shown_type(t, arg));
    if ledger {
        "expected argument "@ + decimal((i + 1) as nat) + " of "@ + name + " to have type "@
            + displayed(param) + " but received "@ + actual
    } else {
        "argument "@ + decimal((i + 1) as nat) + " of "@ + name + " has type "@ + actual
            + " but the parameter type is "@ + displayed(param)
    }
}

/// Whether `d` is the complaint about argument `i`.
pub open spec fn complains_about(
    d: DiagView,
    t: Tree,
    args: Seq<int>,
    params: Seq<TyView>,
    i: int,
    name: Seq<char>,
    ledger: bool,
) -> bool {
    &&& d.severity == Severity::Error
    &&& d.number == (if ledger {
        3004u16
    } else {
        3006u16
    })
    &&& d.primary_span == range_of(t, args[i])
    &&& d.message == misfit_message(t, args[i], params[i], i, name, ledger)
}

proof fn lemma_argument(
    t: Tree,
    args: Seq<int>,
    params: Seq<TyView>,
    k: int,
    name: Seq<char>,
    ledger: bool,
) -> (d: DiagView)
    requires
        0 <= k < args.len(),
        k < params.len(),
    ensures
        complains_about(d, t, args, params, k, name, ledger),
        argument_problems(t, args, params, k, name, ledger) == (if misfits(t, args, params, k) {
            seq![d]
        } else {
            Seq::<DiagView>::empty()
        }) + argument_problems(t, args, params, k + 1, name, ledger),
{
    let actual = shown_type(t, args[k]);
    let rest = argument_problems(t, args, params, k + 1, name, ledger);
    assert(Seq::<DiagView>::empty() + rest =~= rest);
    if ledger {
        ledger_mismatch(k, name, params[k], actual, range_of(t, args[k]))
    } else {
        argument_mismatch(k, name, params[k], actual, range_of(t, args[k]))
    }
}

/// There is one complaint for each argument that does not fit, at that argument;
/// `E3004` for a ledger call and `E3006` for a circuit call.
pub proof fn law_misfits_are_complained_about(
    t: Tree,
    args: Seq<int>,
    params: Seq<TyView>,
    k: int,
    name: Seq<char>,
    ledger: bool,
    i: int,
)
    requires
        0 <= k <= i < args.len(),
        i < params.len(),
        misfits(t, args, params, i),
    ensures
        argument_problems(t, args, params, k, name, ledger).len() == misfit_count(
            t,
            args,
            params,
            k,
        ),
        exists|d: DiagView|
            argument_problems(t, args, params, k, name, ledger).contains(d)
                && #[trigger] complains_about(d, t, args, params, i, name, ledger),
    decreases i - k,
{
    lemma_misfit_count(t, args, params, k, name, ledger);
    let d = lemma_argument(t, args, params, k, name, ledger);
    let rest = argument_problems(t, args, params, k + 1, name, ledger);
    if k == i {
        assert(seq![d][0] == d);
        lemma_in_left(seq![d], rest, d);
    } else {
        law_misfits_are_complained_about(t, args, params, k + 1, name, ledger, i);
        let e = choose|e: DiagView|
            rest.contains(e) && #[trigger] complains_about(e, t, args, params, i, name, ledger);
        if misfits(t, args, params, k) {
            lemma_in_right(seq![d], rest, e);
        } else {
            lemma_in_right(Seq::<DiagView>::empty(), rest, e);
        }
    }
}

proof fn lemma_misfit_count(
    t: Tree,
    args: Seq<int>,
    params: Seq<TyView>,
    k: int,
    name: Seq<char>,
    ledger: bool,
)
    requires
        0 <= k,
    ensures
        argument_problems(t, args, params, k, name, ledger).len() == misfit_count(
            t,
            args,
            params,
            k,
        ),
    decreases args.len() - k,
{
    if k < args.len() && k < params.len() {
        let d = lemma_argument(t, args, params, k, name, ledger);
        lemma_misfit_count(t, args, params, k + 1, name, ledger);
    }
}

/// Only arguments that do not fit are complained about.
pub proof fn law_only_misfits_are_complained_about(
    t: Tree,
    args: Seq<int>,
    params: Seq<TyView>,
    k: int,
    name: Seq<char>,
    ledger: bool,
    d: DiagView,
)
    requires
        0 <= k,
        argument_problems(t, args, params, k, name, ledger).contains(d),
    ensures
        exists|i: int|
            k <= i < args.len() && i < params.len() && misfits(t, args, params, i)
                && #[trigger] complains_about(d, t, args, params, i, name, ledger),
    decreases args.len() - k,
{
    let own = lemma_argument(t, args, params, k, name, ledger);
    let rest = argument_problems(t, args, params, k + 1, name, ledger);
    if misfits(t, args, params, k) {
        lemma_in_sum(seq![own], rest, d);
    } else {
        lemma_in_sum(Seq::<DiagView>::empty(), rest, d);
    }
    if rest.contains(d) {
        law_only_misfits_are_complained_about(t, args, params, k + 1, name, ledger, d);
    } else {
        assert(seq![own][0] == d);
        assert(complains_about(d, t, args, params, k, name, ledger));
    }
}

/// A call of a circuit whose parameters are known is complained about once where
/// it gives another number of arguments, and else for each argument that does
/// not fit. A spread among the arguments keeps it from being complained about.
pub proof fn law_call_arguments_are_counted(c: CtxView, n: int, x: int, params: Seq<TyView>)
    requires
        child_token(c.tree(), n, IDENT) == Some(x),
        child_token(c.tree(), n, DOT) is None,
        child_token(c.tree(), n, L_PAREN) is Some,
        callee_params(c, c.tree()[x].start) == Some(params),
    ensures
        ({
            let t = c.tree();
            let args = call_args(t, n);
            let all = call_problems_at(c, n);
            let spread = exists|i: int|
                0 <= i < args.len() && t[#[trigger] args[i]].kind == SPREAD_EXPR;
            &&& spread ==> all.len() == 0
            &&& !spread && args.len() != params.len() ==> all.len() == 1 && all[0].number == 3006
                && all[0].primary_span == range_of(t, n) && all[0].severity == Severity::Error
                && all[0].message == "call to "@ + t[x].text + " supplies "@ + decimal(args.len())
                + " argument(s) but its signature declares "@ + decimal(params.len())
            &&& !spread && args.len() == params.len() ==> all == argument_problems(
                t,
                args,
                params,
                0,
                t[x].text,
                false,
            )
        }),
{
    lemma_spread(c.tree(), call_args(c.tree(), n), 0);
}

proof fn lemma_spread(t: Tree, args: Seq<int>, k: int)
    requires
        0 <= k,
    ensures
        has_spread(t, args, k) <==> exists|i: int|
            k <= i < args.len() && t[#[trigger] args[i]].kind == SPREAD_EXPR,
    decreases args.len() - k,
{
    if k < args.len() {
        lemma_spread(t, args, k + 1);
    }
}

/// The complaints about calls are those about the call expressions of a file, all
/// of them and no other.
pub proof fn law_every_call_is_checked(
    c: CtxView,
    sigs: Seq<LedgerSigView>,
    i: int,
    d: DiagView,
)
    requires
        0 <= i,
    ensures
        call_problems(c, i).contains(d) <==> exists|n: int|
            i <= n < c.tree().len() && !c.tree()[n].token && (#[trigger] c.tree()[n]).kind
                == CALL_EXPR && call_problems_at(c, n).contains(d),
        ledger_call_problems(c, sigs, i).contains(d) <==> exists|n: int|
            i <= n < c.tree().len() && !c.tree()[n].token && (#[trigger] c.tree()[n]).kind
                == CALL_EXPR && ledger_call_problems_at(c, sigs, n).contains(d),
    decreases c.tree().len() - i,
{
    let t = c.tree();
    if i < t.len() {
        law_every_call_is_checked(c, sigs, i + 1, d);
        if !t[i].token && t[i].kind == CALL_EXPR {
            let a = call_problems_at(c, i);
            let b = call_problems(c, i + 1);
            if a.contains(d) {
                lemma_in_left(a, b, d);
            }
            if b.contains(d) {
                lemma_in_right(a, b, d);
            }
            if (a + b).contains(d) {
                lemma_in_sum(a, b, d);
            }
            let x = ledger_call_problems_at(c, sigs, i);
            let y = ledger_call_problems(c, sigs, i + 1);
            if x.contains(d) {
                lemma_in_left(x, y, d);
            }
            if y.contains(d) {
                lemma_in_right(x, y, d);
            }
            if (x + y).contains(d) {
                lemma_in_sum(x, y, d);
            }
        }
    }
}

/// The arguments of a call are the expressions directly under it that start at
/// or behind its opening parenthesis, in order.
pub proof fn law_arguments_of_a_call(t: Tree, n: int, p: int, e: int)
    requires
        nested(t),
        0 <= n < t.len(),
        child_token(t, n, L_PAREN) == Some(p),
    ensures
        call_args(t, n).contains(e) <==> 0 <= e < t.len() && t[e].parent == Some(n) && !t[e].token
            && in_class(Class::Expr, t[e].kind) && t[e].start >= t[p].start,
{
    law_children(t, n, Class::Expr, e);
    lemma_starting(t, children(t, n, Class::Expr), 0, t[p].start, e);
}

proof fn lemma_starting(t: Tree, kids: Seq<int>, k: int, start: u32, e: int)
    requires
        0 <= k,
    ensures
        starting_at(t, kids, k, start).contains(e) <==> exists|j: int|
            k <= j < kids.len() && #[trigger] kids[j] == e && t[e].start >= start,
    decreases kids.len() - k,
{
    if k < kids.len() {
        lemma_starting(t, kids, k + 1, start, e);
        let rest = starting_at(t, kids, k + 1, start);
        let all = starting_at(t, kids, k, start);
        if t[kids[k]].start >= start {
            assert(all == seq![kids[k]] + rest);
            assert(seq![kids[k]][0] == kids[k]);
            if rest.contains(e) {
                lemma_in_right(seq![kids[k]], rest, e);
            }
            if e == kids[k] {
                lemma_in_left(seq![kids[k]], rest, e);
            }
            if all.contains(e) {
                lemma_in_sum(seq![kids[k]], rest, e);
            }
        }
    }
}

/// A method call on a ledger field of a builtin type whose method has a known
/// signature is held against that signature: the first one listed for the type
/// and the method.
pub proof fn law_ledger_calls_are_held_against_signatures(
    c: CtxView,
    sigs: Seq<LedgerSigView>,
    n: int,
    r: int,
    m: int,
    j: int,
    adt: Seq<char>,
)
    requires
        bare_receiver(c.tree(), n) == Some(r),
        child_token(c.tree(), n, IDENT) == Some(m),
        ledger_adt(c, c.tree()[r].start) == Some(adt),
        0 <= j < sigs.len(),
        sigs[j].adt == adt,
        sigs[j].method == c.tree()[m].text,
        forall|i: int|
            #![trigger sigs[i]]
            0 <= i < j ==> !(sigs[i].adt == adt && sigs[i].method == c.tree()[m].text),
    ensures
        ledger_call_problems_at(c, sigs, n) == argument_problems(
            c.tree(),
            call_args(c.tree(), n),
            sigs[j].params,
            0,
            c.tree()[m].text,
            true,
        ),
{
    lemma_sig(sigs, 0, j, adt, c.tree()[m].text);
}

proof fn lemma_sig(sigs: Seq<LedgerSigView>, k: int, j: int, adt: Seq<char>, method: Seq<char>)
    requires
        0 <= k <= j < sigs.len(),
        sigs[j].adt == adt,
        sigs[j].method == method,
        forall|i: int| #![trigger sigs[i]] k <= i < j ==> !(sigs[i].adt == adt && sigs[i].method == method),
    ensures
        sig_from(sigs, k, adt, method) == Some(sigs[j].params),
    decreases j - k,
{
    if k < j {
        assert(!(sigs[k].adt == adt && sigs[k].method == method));
        lemma_sig(sigs, k + 1, j, adt, method);
    }
}

/// The builtin type of a ledger field is the head of its declared type, for
/// every builtin type, unless the program declares a type of that name.
pub proof fn law_builtin_type_of_a_ledger_field(
    c: CtxView,
    offset: u32,
    index: u32,
    d: int,
    ty: int,
    x: int,
)
    requires
        resolved(c, offset) == Some(DefView::Item { file: c.file, index }),
        index < c.syms().len(),
        c.syms()[index as int].kind == SymbolKind::Ledger,
        decl_named(
            c.tree(),
            LEDGER_DECL,
            c.syms()[index as int].name_range,
        ) == Some(d),
        child(c.tree(), d, Class::Type) == Some(ty),
        c.tree()[ty].kind == TYPE_REF,
        child_token(c.tree(), ty, IDENT) == Some(x),
        !names_user_type(c, c.tree()[x].start),
    ensures
        ({
            let name = c.tree()[x].text;
            (name == "Counter"@ || name == "Cell"@ || name == "Map"@ || name == "Set"@ || name
                == "List"@ || name == "MerkleTree"@ || name == "HistoricMerkleTree"@ || name
                == "Kernel"@) ==> ledger_adt(c, offset) == Some(name)
        }),
        ledger_adt(c, offset) matches Some(a) ==> a == c.tree()[x].text,
{
}

/// The receiver of a method call is the expression in front of the dot, also
/// where it ends at the dot; only a bare name counts.
pub proof fn law_receiver_of_a_method_call(t: Tree, n: int, d: int)
    requires
        child_token(t, n, DOT) == Some(d),
        children(t, n, Class::Expr).len() > 0,
        t[children(t, n, Class::Expr)[0]].end <= t[d].start,
    ensures
        ({
            let e = children(t, n, Class::Expr)[0];
            &&& t[e].kind == NAME_EXPR ==> bare_receiver(t, n) == child_token(t, e, IDENT)
            &&& t[e].kind != NAME_EXPR ==> bare_receiver(t, n) is None
        }),
{
}

} // verus!
