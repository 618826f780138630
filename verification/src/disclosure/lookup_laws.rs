//! Laws of how the analysis looks things up in the tree.

use vstd::prelude::*;

use crate::db::{resolved, symbol_of_item, CtxView};
use crate::disclosure::abs::{
    all_witnesses, equivalent, with_point, AbsView, PointView, WitnessView,
};
use crate::disclosure::abs_laws::{has_uid, law_join_unites, law_merge_unites};
use crate::disclosure::leaks::{LeakView, SinkView};
use crate::disclosure::model::{
    all_bound, bound, callee_of, circuit_def, element_at, element_of, element_patterns, ev,
    field_position, first_solid, fold_bound, fold_fixed, joined_upto, lambda_params, last_solid,
    last_text_token, param_child_name, param_child_names, params_parts, peeled, projected,
    root_name, solid_range, universe_upto, unroll_len_from, with_params, writes_ledger, CalleeView,
    EnvView, St, Walk,
};
use crate::disclosure::report::{leak_diag, origin_label, point_label, point_spans, witness_spans};
use crate::disclosure::tables::native_flags;
use crate::disclosure::value_laws::{all_flat, law_fields_are_found_by_name};
use crate::disclosure::walk_laws::{law_marking_keeps_witnesses, some_has_uid};
use crate::infer::{decl_named, decl_named_from};
use crate::item_tree::{SymbolKind, SymbolView};
use crate::kinds::{
    in_class, trivia, Class, BLOCK, CIRCUIT_DEF, DOT, IDENT, IDENT_PAT, INDEX_EXPR, MEMBER_EXPR,
    NAME_EXPR, PARAM, PARAM_LIST, PAREN_EXPR, TUPLE_PAT, TUPLE_PAT_ELT, WITNESS_DECL,
};
use crate::resolve::DefView;
use crate::syntax::{child, child_token, children, lemma_node_from, range_of, well_formed, Tree};
use crate::text::{trimmed, TextRange};
use crate::ty::TyView;
use crate::typing::{resolved_type, type_around};
use crate::vfs::FileId;

verus! {

// ---------------------------------------------------------------------------
// Places
// ---------------------------------------------------------------------------

/// A place belongs to what its parts belong to: a parenthesised place, a member
/// and an element to the ledger exactly where what stands in front does.
pub proof fn law_parts_of_a_place(c: CtxView, e: int, x: int)
    requires
        well_formed(c.tree()),
        0 <= e < c.tree().len(),
        c.tree()[e].kind == PAREN_EXPR || c.tree()[e].kind == MEMBER_EXPR || c.tree()[e].kind
            == INDEX_EXPR,
        child(c.tree(), e, Class::Expr) == Some(x),
    ensures
        root_name(c.tree(), e) == root_name(c.tree(), x),
        writes_ledger(c, e) == writes_ledger(c, x),
{
    let t = c.tree();
    lemma_node_from(t, e + 1, t[e].next, Class::Expr);
    lemma_peeled(t, x);
    if t[e].kind == PAREN_EXPR {
        assert(peeled(t, e) == peeled(t, x));
    } else {
        assert(peeled(t, e) == e);
    }
}

proof fn lemma_peeled(t: Tree, e: int)
    requires
        well_formed(t),
        0 <= e < t.len(),
    ensures
        e <= peeled(t, e) < t.len(),
    decreases t.len() - e,
{
    if t[e].kind == PAREN_EXPR {
        lemma_node_from(t, e + 1, t[e].next, Class::Expr);
        if let Some(x) = child(t, e, Class::Expr) {
            lemma_peeled(t, x);
        }
    }
}

/// A name belongs to the ledger exactly where it resolves to a ledger field.
pub proof fn law_name_of_a_place(c: CtxView, e: int, x: int, file: FileId, index: u32)
    requires
        0 <= e < c.tree().len(),
        c.tree()[e].kind == NAME_EXPR,
        child_token(c.tree(), e, IDENT) == Some(x),
    ensures
        root_name(c.tree(), e) == Some(x),
        resolved(c, c.tree()[x].start) == Some((DefView::Item { file, index })) ==> (writes_ledger(
            c,
            e,
        ) <==> (symbol_of_item(c, file, index) matches Some(sym) && sym.kind
            == SymbolKind::Ledger)),
        !(resolved(c, c.tree()[x].start) matches Some(DefView::Item { .. })) ==> !writes_ledger(c, e),
{
    assert(peeled(c.tree(), e) == e);
}

/// Nothing but names, members, elements and parentheses around them is a place.
pub proof fn law_other_forms_are_no_places(c: CtxView, e: int)
    requires
        0 <= e < c.tree().len(),
        c.tree()[e].kind != NAME_EXPR,
        c.tree()[e].kind != PAREN_EXPR,
        c.tree()[e].kind != MEMBER_EXPR,
        c.tree()[e].kind != INDEX_EXPR,
    ensures
        !writes_ledger(c, e),
{
    assert(peeled(c.tree(), e) == e);
}

// ---------------------------------------------------------------------------
// Ranges
// ---------------------------------------------------------------------------

proof fn lemma_first_solid(t: Tree, i: int, end: int, a: int)
    requires
        0 <= i <= a < end <= t.len(),
        t[a].token,
        !trivia(t[a].kind),
        forall|j: int| i <= j < a ==> !((#[trigger] t[j]).token && !trivia(t[j].kind)),
    ensures
        first_solid(t, i, end) == Some(a),
    decreases a - i,
{
    if i < a {
        lemma_first_solid(t, i + 1, end, a);
    }
}

proof fn lemma_last_solid(t: Tree, lo: int, i: int, b: int)
    requires
        0 <= lo <= b < i <= t.len(),
        t[b].token,
        !trivia(t[b].kind),
        forall|j: int| b < j < i ==> !((#[trigger] t[j]).token && !trivia(t[j].kind)),
    ensures
        last_solid(t, lo, i) == Some(b),
    decreases i - b,
{
    if b < i - 1 {
        assert(!(t[i - 1].token && !trivia(t[i - 1].kind)));
        lemma_last_solid(t, lo, i - 1, b);
    }
}

/// A leak is reported from the first to the last token of its expression that is
/// neither white space nor a comment.
pub proof fn law_reported_range(t: Tree, n: int, a: int, b: int)
    requires
        0 <= n <= a <= b < t[n].next <= t.len(),
        t[a].token && !trivia(t[a].kind),
        t[b].token && !trivia(t[b].kind),
        forall|j: int| n <= j < a ==> !((#[trigger] t[j]).token && !trivia(t[j].kind)),
        forall|j: int| b < j < t[n].next ==> !((#[trigger] t[j]).token && !trivia(t[j].kind)),
    ensures
        solid_range(t, n) == (TextRange { start: t[a].start, end: t[b].end }),
{
    lemma_first_solid(t, n, t[n].next, a);
    lemma_last_solid(t, n, t[n].next, b);
}

proof fn lemma_last_text(t: Tree, lo: int, i: int, b: int)
    requires
        0 <= lo <= b < i <= t.len(),
        t[b].token,
        trimmed(t[b].text).len() > 0,
        forall|j: int| b < j < i ==> !((#[trigger] t[j]).token && trimmed(t[j].text).len() > 0),
    ensures
        last_text_token(t, lo, i) == Some(b),
    decreases i - b,
{
    if b < i - 1 {
        assert(!(t[i - 1].token && trimmed(t[i - 1].text).len() > 0));
        lemma_last_text(t, lo, i - 1, b);
    }
}

/// A field is looked up in the struct that the last token of the expression in
/// front shows, parentheses around that expression left aside.
pub proof fn law_field_of_an_expression(
    c: CtxView,
    e: int,
    name: Seq<char>,
    b: int,
    i: int,
)
    requires
        0 <= e < c.tree().len(),
        c.tree()[e].kind != PAREN_EXPR,
        e <= b < c.tree()[e].next <= c.tree().len(),
        c.tree()[b].token,
        trimmed(c.tree()[b].text).len() > 0,
        forall|j: int|
            b < j < c.tree()[e].next ==> !((#[trigger] c.tree()[j]).token && trimmed(
                c.tree()[j].text,
            ).len() > 0),
    ensures
        match type_around(c, c.tree()[b].start) {
            TyView::Struct { fields, .. } => {
                &&& 0 <= i < fields.len() && fields[i].0 == name && (forall|j: int|
                    0 <= j < i ==> (#[trigger] fields[j]).0 != name) ==> projected(c, e, name)
                    == Some(i)
                &&& (forall|j: int| 0 <= j < fields.len() ==> (#[trigger] fields[j]).0 != name)
                    ==> projected(c, e, name) is None
            },
            _ => projected(c, e, name) is None,
        },
{
    let t = c.tree();
    assert(peeled(t, e) == e);
    lemma_last_text(t, e, t[e].next, b);
    if let TyView::Struct { fields, .. } = type_around(c, t[b].start) {
        if 0 <= i < fields.len() && fields[i].0 == name && (forall|j: int|
            0 <= j < i ==> (#[trigger] fields[j]).0 != name) {
            law_fields_are_found_by_name(fields, name, i);
        }
        if forall|j: int| 0 <= j < fields.len() ==> (#[trigger] fields[j]).0 != name {
            lemma_no_field(fields, 0, name);
        }
    }
}

proof fn lemma_no_field(fields: Seq<(Seq<char>, TyView)>, k: int, name: Seq<char>)
    requires
        0 <= k,
        forall|j: int| k <= j < fields.len() ==> (#[trigger] fields[j]).0 != name,
    ensures
        field_position(fields, k, name) is None,
    decreases fields.len() - k,
{
    if k < fields.len() {
        lemma_no_field(fields, k + 1, name);
    }
}

// ---------------------------------------------------------------------------
// Declarations and callees
// ---------------------------------------------------------------------------

proof fn lemma_decl(t: Tree, i: int, end: int, kind: u16, range: TextRange, n: int, x: int)
    requires
        0 <= i <= n < end <= t.len(),
        !t[n].token,
        t[n].kind == kind,
        child_token(t, n, IDENT) == Some(x),
        range_of(t, x) == range,
    ensures
        decl_named_from(t, i, end, kind, range) matches Some(m) && i <= m <= n && !t[m].token
            && t[m].kind == kind && (child_token(t, m, IDENT) matches Some(y) && range_of(t, y)
            == range),
    decreases end - i,
{
    let name = child_token(t, i, IDENT);
    if !(!t[i].token && t[i].kind == kind && name is Some && range_of(t, name->0) == range) {
        lemma_decl(t, i + 1, end, kind, range, n, x);
    }
}

/// A declaration is found by the place of its name: what is found is of the
/// kind that is asked for, and its name stands at that place.
pub proof fn law_declarations_are_found_by_place(t: Tree, n: int, x: int)
    requires
        0 <= n < t.len(),
        !t[n].token,
        child_token(t, n, IDENT) == Some(x),
    ensures
        decl_named(t, t[n].kind, range_of(t, x)) matches Some(m) && 0 <= m <= n && !t[m].token
            && t[m].kind == t[n].kind && (child_token(t, m, IDENT) matches Some(y) && range_of(t, y)
            == range_of(t, x)),
{
    lemma_decl(t, 0, t.len() as int, t[n].kind, range_of(t, x), n, x);
}

/// A call goes to what its name resolves to: a witness function with the type
/// that its declaration in the file states, a circuit, or a circuit without a
/// body. A call with a dot is a method.
pub proof fn law_callee_follows_the_symbol(
    c: CtxView,
    n: int,
    x: int,
    file: FileId,
    index: u32,
    sym: SymbolView,
)
    requires
        child_token(c.tree(), n, IDENT) == Some(x),
        resolved(c, c.tree()[x].start) == Some((DefView::Item { file, index })),
        symbol_of_item(c, file, index) == Some(sym),
    ensures
        ({
            let plain = child_token(c.tree(), n, DOT) is None;
            let r = callee_of(c, n);
            &&& !plain ==> r is Native
            &&& plain && sym.kind == SymbolKind::Circuit ==> r == (CalleeView::Circuit {
                file,
                symbol: index,
            })
            &&& plain && (sym.kind == SymbolKind::CircuitSig || sym.kind
                == SymbolKind::ContractCircuit) ==> r is Deferred
            &&& plain && sym.kind == SymbolKind::Witness ==> r is Witness && r->name == sym.name
            &&& plain && sym.kind == SymbolKind::Witness && file != c.file ==> r->ret is Unknown
            &&& plain && sym.kind == SymbolKind::Witness && file == c.file ==> (decl_named(
                c.tree(),
                WITNESS_DECL,
                sym.name_range,
            ) matches Some(d) ==> (child(c.tree(), d, Class::Type) matches Some(ty) ==> r->ret
                == resolved_type(c, ty)))
        }),
{
}

/// A name that resolves to nothing is a native operation where it is known as
/// one, and else a circuit that cannot be walked.
pub proof fn law_unresolved_callee(c: CtxView, n: int, x: int)
    requires
        child_token(c.tree(), n, DOT) is None,
        child_token(c.tree(), n, IDENT) == Some(x),
        resolved(c, c.tree()[x].start) is None,
    ensures
        native_flags(c.tree()[x].text) is Some ==> callee_of(c, n) is Native,
        native_flags(c.tree()[x].text) is None ==> callee_of(c, n) is Deferred,
{
}

/// A circuit can be walked exactly where it is declared in the same file with a
/// body: that body, with its parameters in the order in which they are written.
pub proof fn law_circuit_to_walk(c: CtxView, file: FileId, symbol: u32, n: int, i: int)
    requires
        symbol < c.syms().len(),
        decl_named(c.tree(), CIRCUIT_DEF, c.syms()[symbol as int].name_range) == Some(n),
    ensures
        ({
            let params = params_parts(c.tree(), children(c.tree(), n, Class::Kind(PARAM)), 0);
            let body = child(c.tree(), n, Class::Kind(BLOCK));
            let d = circuit_def(c, file, symbol);
            &&& d is Some <==> file == c.file && body is Some
            &&& d matches Some(v) ==> Some(v.body) == body && v.name
                == c.syms()[symbol as int].name && v.params.len() == params.len() && (0 <= i
                < params.len() ==> v.params[i] == c.tree()[params[i].0].text)
        }),
{
}

// ---------------------------------------------------------------------------
// Patterns and parameters
// ---------------------------------------------------------------------------

proof fn lemma_all_bound(
    t: Tree,
    sink: SinkView,
    env: EnvView,
    pats: Seq<int>,
    k: int,
    vals: Seq<AbsView>,
    after: int,
    j: int,
    name: Seq<char>,
    uid: u32,
)
    requires
        0 <= k,
        0 <= after,
        vals.len() == pats.len(),
        forall|a: int|
            0 <= a < pats.len() ==> after < #[trigger] pats[a] < t.len() && t[pats[a]].kind
                == IDENT_PAT && child_token(t, pats[a], IDENT) is Some,
    ensures
        ({
            let r = all_bound(t, sink, env, pats, k, vals, after);
            &&& r.0 == sink
            &&& k <= j < pats.len() && t[child_token(t, pats[j], IDENT)->0].text == name && (
            forall|a: int|
                j < a < pats.len() ==> t[child_token(t, #[trigger] pats[a], IDENT)->0].text != name)
                ==> r.1.contains_key(name) && (has_uid(all_witnesses(r.1[name]), uid) <==> has_uid(
                all_witnesses(vals[j]),
                uid,
            ))
            &&& (forall|a: int|
                k <= a < pats.len() ==> t[child_token(t, #[trigger] pats[a], IDENT)->0].text != name)
                ==> r.1.contains_key(name) == env.contains_key(name) && r.1[name] == env[name]
        }),
    decreases pats.len() - k,
{
    if k < pats.len() {
        let r = bound(t, sink, env, pats[k], vals[k]);
        let x = child_token(t, pats[k], IDENT)->0;
        law_marking_keeps_witnesses(
            vals[k],
            PointView {
                src: range_of(t, x),
                description: "the binding of "@ + t[x].text,
                exposure: Seq::empty(),
            },
            uid,
        );
        assert(after < pats[k] < t.len());
        assert(r.0 == sink);
        assert(all_bound(t, sink, env, pats, k, vals, after) == all_bound(
            t,
            r.0,
            r.1,
            pats,
            k + 1,
            vals,
            after,
        ));
        lemma_all_bound(t, r.0, r.1, pats, k + 1, vals, after, j, name, uid);
        let own = with_point(
            vals[k],
            PointView {
                src: range_of(t, x),
                description: "the binding of "@ + t[x].text,
                exposure: Seq::empty(),
            },
        );
        assert(r.1 == env.insert(t[x].text, own));
        if forall|a: int|
            k <= a < pats.len() ==> t[child_token(t, #[trigger] pats[a], IDENT)->0].text != name {
            assert(t[child_token(t, pats[k], IDENT)->0].text != name);
        }
    }
}

/// A tuple pattern of names that fits the value binds each name to its own
/// element: the witnesses of the name are exactly those of the element.
pub proof fn law_tuple_elements_are_bound(
    t: Tree,
    sink: SinkView,
    env: EnvView,
    p: int,
    vals: Seq<AbsView>,
    j: int,
    uid: u32,
)
    requires
        0 <= p < t.len(),
        t[p].kind == TUPLE_PAT,
        ({
            let pats = element_patterns(t, children(t, p, Class::Kind(TUPLE_PAT_ELT)), 0);
            &&& vals.len() == pats.len()
            &&& 0 <= j < pats.len()
            &&& forall|a: int|
                0 <= a < pats.len() ==> p < #[trigger] pats[a] < t.len() && t[pats[a]].kind
                    == IDENT_PAT && child_token(t, pats[a], IDENT) is Some
            &&& forall|a: int|
                j < a < pats.len() ==> t[child_token(t, #[trigger] pats[a], IDENT)->0].text
                    != t[child_token(t, pats[j], IDENT)->0].text
        }),
    ensures
        ({
            let pats = element_patterns(t, children(t, p, Class::Kind(TUPLE_PAT_ELT)), 0);
            let name = t[child_token(t, pats[j], IDENT)->0].text;
            let r = bound(t, sink, env, p, AbsView::Multiple(vals));
            &&& r.0 == sink
            &&& r.1.contains_key(name)
            &&& has_uid(all_witnesses(r.1[name]), uid) <==> has_uid(all_witnesses(vals[j]), uid)
        }),
{
    let pats = element_patterns(t, children(t, p, Class::Kind(TUPLE_PAT_ELT)), 0);
    let name = t[child_token(t, pats[j], IDENT)->0].text;
    lemma_all_bound(t, sink, env, pats, 0, vals, p, j, name, uid);
    assert(bound(t, sink, env, p, AbsView::Multiple(vals)) == all_bound(
        t,
        sink,
        env,
        pats,
        0,
        vals,
        p,
    ));
}

proof fn lemma_param_names(t: Tree, kids: Seq<int>, k: int)
    requires
        0 <= k <= kids.len(),
    ensures
        param_child_names(t, kids, k).len() == kids.len() - k,
        forall|i: int|
            #![trigger param_child_names(t, kids, k)[i]]
            0 <= i < kids.len() - k ==> param_child_names(t, kids, k)[i] == param_child_name(
                t,
                kids[k + i],
            ),
    decreases kids.len() - k,
{
    if k < kids.len() {
        lemma_param_names(t, kids, k + 1);
        let all = param_child_names(t, kids, k);
        let rest = param_child_names(t, kids, k + 1);
        assert(all == seq![param_child_name(t, kids[k])] + rest);
        assert forall|i: int| #![trigger all[i]] 0 <= i < kids.len() - k implies all[i]
            == param_child_name(t, kids[k + i]) by {
            if i > 0 {
                assert(all[i] == rest[i - 1]);
                assert(rest[i - 1] == param_child_name(t, kids[k + 1 + (i - 1)]));
            }
        }
    }
}

/// A lambda has one parameter for each child of its list, in order. One that is
/// a name, with or without a type, is bound under that name.
pub proof fn law_parameters_of_a_lambda(t: Tree, n: int, p: int, i: int)
    requires
        child(t, n, Class::Kind(PARAM_LIST)) == Some(p),
        0 <= i < children(t, p, Class::Any).len(),
    ensures
        ({
            let kid = children(t, p, Class::Any)[i];
            let params = lambda_params(t, n);
            &&& params.len() == children(t, p, Class::Any).len()
            &&& t[kid].kind == IDENT_PAT ==> (child_token(t, kid, IDENT) matches Some(x)
                ==> params[i] == Some(t[x].text))
            &&& t[kid].kind == PARAM ==> (child(t, kid, Class::Pat) matches Some(q)
                ==> t[q].kind == IDENT_PAT ==> (child_token(t, q, IDENT) matches Some(x)
                ==> params[i] == Some(t[x].text)))
        }),
{
    let kids = children(t, p, Class::Any);
    lemma_param_names(t, kids, 0);
    assert(lambda_params(t, n)[i] == param_child_name(t, kids[0 + i]));
}

// ---------------------------------------------------------------------------
// Elements of sequences
// ---------------------------------------------------------------------------

proof fn lemma_joined_upto(items: Seq<AbsView>, n: int, uid: u32)
    requires
        0 <= n <= items.len(),
        all_flat(items),
    ensures
        !(joined_upto(items, n) is Multiple) && !(joined_upto(items, n) is Single),
        has_uid(all_witnesses(joined_upto(items, n)), uid) <==> exists|i: int|
            0 <= i < n && has_uid(all_witnesses(#[trigger] items[i]), uid),
    decreases n,
{
    if n > 0 {
        lemma_joined_upto(items, n - 1, uid);
        assert(!(items[n - 1] is Multiple) && !(items[n - 1] is Single));
        law_join_unites(joined_upto(items, n - 1), items[n - 1], uid);
        if has_uid(all_witnesses(items[n - 1]), uid) {
            assert(0 <= n - 1 < n);
        }
    }
}

/// What stands for every element of a sequence has the witnesses of every
/// element, and what stands for one element has the witnesses of that one.
pub proof fn law_elements_of_a_sequence(items: Seq<AbsView>, inner: AbsView, i: int, uid: u32)
    requires
        all_flat(items),
    ensures
        has_uid(all_witnesses(element_of(AbsView::Multiple(items))), uid) <==> some_has_uid(
            items,
            uid,
        ),
        0 <= i < items.len() ==> element_at(AbsView::Multiple(items), i) == items[i],
        element_of(AbsView::Single(Box::new(inner))) == inner,
        element_at(AbsView::Single(Box::new(inner)), i) == inner,
        !(inner is Multiple) && !(inner is Single) ==> element_of(inner) == inner && element_at(
            inner,
            i,
        ) == inner,
{
    lemma_joined_upto(items, items.len() as int, uid);
}

/// Values are taken element by element where one of them is a tuple, and then as
/// often as the shortest tuple has elements.
pub proof fn law_shortest_tuple_counts(vals: Seq<AbsView>, k: int, i: int)
    requires
        0 <= k <= i < vals.len(),
        vals[i] is Multiple,
    ensures
        unroll_len_from(vals, k) matches Some(m) && m <= vals[i]->Multiple_0.len() && exists|j: int|
            k <= j < vals.len() && #[trigger] vals[j] is Multiple && vals[j]->Multiple_0.len() == m,
    decreases vals.len() - k,
{
    if k < i {
        law_shortest_tuple_counts(vals, k + 1, i);
        let m = unroll_len_from(vals, k + 1)->0;
        let j = choose|j: int|
            k + 1 <= j < vals.len() && #[trigger] vals[j] is Multiple && vals[j]->Multiple_0.len()
                == m;
        assert(vals[j] is Multiple);
        assert(vals[k] is Multiple || unroll_len_from(vals, k) == unroll_len_from(vals, k + 1));
    } else {
        lemma_some_tuple(vals, k + 1);
        assert(vals[k] is Multiple);
    }
}

proof fn lemma_some_tuple(vals: Seq<AbsView>, k: int)
    requires
        0 <= k,
    ensures
        unroll_len_from(vals, k) matches Some(m) ==> exists|j: int|
            k <= j < vals.len() && #[trigger] vals[j] is Multiple && vals[j]->Multiple_0.len() == m,
    decreases vals.len() - k,
{
    if k < vals.len() {
        lemma_some_tuple(vals, k + 1);
        assert(vals[k] is Multiple || !(vals[k] is Multiple));
    }
}

proof fn lemma_universe(init: AbsView, elems: Seq<AbsView>, n: int, uid: u32)
    requires
        0 <= n <= elems.len(),
    ensures
        has_uid(universe_upto(init, elems, n), uid) <==> has_uid(all_witnesses(init), uid)
            || exists|i: int| 0 <= i < n && has_uid(all_witnesses(#[trigger] elems[i]), uid),
    decreases n,
{
    if n > 0 {
        lemma_universe(init, elems, n - 1, uid);
        law_merge_unites(universe_upto(init, elems, n - 1), all_witnesses(elems[n - 1]), uid);
        if has_uid(all_witnesses(elems[n - 1]), uid) {
            assert(0 <= n - 1 < n);
        }
    }
}

/// A fold over arrays may walk its body twice more often than there are
/// witnesses in its start value and its elements.
pub proof fn law_fold_has_rounds_enough(init: AbsView, elems: Seq<AbsView>) -> (all: Seq<
    WitnessView,
>)
    ensures
        forall|uid: u32|
            #[trigger] has_uid(all, uid) <==> has_uid(all_witnesses(init), uid) || some_has_uid(
                elems,
                uid,
            ),
        fold_bound(init, elems) == all.len() + 2,
{
    let n = elems.len() as int;
    let all = universe_upto(init, elems, n);
    assert forall|uid: u32|
        #[trigger] has_uid(all, uid) <==> has_uid(all_witnesses(init), uid) || some_has_uid(
            elems,
            uid,
        ) by {
        lemma_universe(init, elems, n, uid);
    }
    all
}

/// The state and the value after the body of a fold over arrays was walked `j`
/// times.
pub open spec fn rounds(
    w: Walk,
    st: St,
    env: EnvView,
    control: Seq<WitnessView>,
    body: int,
    params: Seq<Option<Seq<char>>>,
    elems: Seq<AbsView>,
    acc: AbsView,
    j: nat,
) -> (St, AbsView)
    decreases j,
{
    if j == 0 {
        (st, acc)
    } else {
        let before = rounds(w, st, env, control, body, params, elems, acc, (j - 1) as nat);
        ev(
            w,
            before.0,
            with_params(env, params, seq![before.1] + elems, 0),
            control,
            body,
        )
    }
}

/// Whether round `j` changed nothing.
pub open spec fn settled(
    w: Walk,
    st: St,
    env: EnvView,
    control: Seq<WitnessView>,
    body: int,
    params: Seq<Option<Seq<char>>>,
    elems: Seq<AbsView>,
    acc: AbsView,
    j: nat,
) -> bool {
    &&& j > 0
    &&& equivalent(
        rounds(w, st, env, control, body, params, elems, acc, j).1,
        rounds(w, st, env, control, body, params, elems, acc, (j - 1) as nat).1,
    )
}

proof fn lemma_round(
    w: Walk,
    st: St,
    env: EnvView,
    control: Seq<WitnessView>,
    body: int,
    params: Seq<Option<Seq<char>>>,
    elems: Seq<AbsView>,
    bound: int,
    acc: AbsView,
    k: nat,
)
    requires
        k < bound,
    ensures
        ({
            let now = rounds(w, st, env, control, body, params, elems, acc, k);
            let next = rounds(w, st, env, control, body, params, elems, acc, k + 1);
            let i = k as int;
            let here = fold_fixed(w, now.0, env, control, body, params, elems, i, bound, now.1);
            here == if settled(w, st, env, control, body, params, elems, acc, k + 1) {
                next
            } else {
                fold_fixed(w, next.0, env, control, body, params, elems, i + 1, bound, next.1)
            }
        }),
{
    let now = rounds(w, st, env, control, body, params, elems, acc, k);
    let next = rounds(w, st, env, control, body, params, elems, acc, k + 1);
    let scope = with_params(env, params, seq![now.1] + elems, 0);
    assert(next == ev(w, now.0, scope, control, body));
}

proof fn lemma_rounds(
    w: Walk,
    st: St,
    env: EnvView,
    control: Seq<WitnessView>,
    body: int,
    params: Seq<Option<Seq<char>>>,
    elems: Seq<AbsView>,
    bound: int,
    acc: AbsView,
    k: nat,
) -> (j: nat)
    requires
        k < bound,
        forall|i: nat|
            i <= k ==> !#[trigger] settled(w, st, env, control, body, params, elems, acc, i),
    ensures
        k < j <= bound,
        ({
            let now = rounds(w, st, env, control, body, params, elems, acc, k);
            let end = rounds(w, st, env, control, body, params, elems, acc, j);
            let i = k as int;
            fold_fixed(w, now.0, env, control, body, params, elems, i, bound, now.1) == end
        }),
        j == bound || settled(w, st, env, control, body, params, elems, acc, j),
        forall|i: nat|
            i < j ==> !#[trigger] settled(w, st, env, control, body, params, elems, acc, i),
    decreases bound - k,
{
    lemma_round(w, st, env, control, body, params, elems, bound, acc, k);
    let next = rounds(w, st, env, control, body, params, elems, acc, k + 1);
    if settled(w, st, env, control, body, params, elems, acc, k + 1) {
        k + 1
    } else if k + 1 < bound {
        lemma_rounds(w, st, env, control, body, params, elems, bound, acc, k + 1)
    } else {
        let i = k as int + 1;
        assert(fold_fixed(w, next.0, env, control, body, params, elems, i, bound, next.1) == next);
        k + 1
    }
}

/// A fold over arrays walks its body until the value changes no more, or as
/// often as it may: it stops in the first round that changes nothing.
pub proof fn law_fold_goes_on_until_nothing_changes(
    w: Walk,
    st: St,
    env: EnvView,
    control: Seq<WitnessView>,
    body: int,
    params: Seq<Option<Seq<char>>>,
    elems: Seq<AbsView>,
    bound: int,
    acc: AbsView,
) -> (j: nat)
    requires
        0 < bound,
    ensures
        0 < j <= bound,
        fold_fixed(w, st, env, control, body, params, elems, 0, bound, acc) == rounds(
            w,
            st,
            env,
            control,
            body,
            params,
            elems,
            acc,
            j,
        ),
        j == bound || settled(w, st, env, control, body, params, elems, acc, j),
        forall|i: nat|
            i < j ==> !#[trigger] settled(w, st, env, control, body, params, elems, acc, i),
{
    lemma_rounds(w, st, env, control, body, params, elems, bound, acc, 0)
}

// ---------------------------------------------------------------------------
// Reports
// ---------------------------------------------------------------------------

proof fn lemma_point_shown(path: Seq<PointView>, k: int, i: int)
    requires
        0 <= k <= i < path.len(),
        i == 0 || path[i] != path[i - 1],
    ensures
        exists|j: int|
            0 <= j < point_spans(path, k).len() && (#[trigger] point_spans(path, k)[j]).span
                == path[i].src && point_spans(path, k)[j].label == Some(point_label(path[i])),
    decreases path.len() - k,
{
    let all = point_spans(path, k);
    let rest = point_spans(path, k + 1);
    if k == i {
        assert(all[0].span == path[i].src);
    } else {
        lemma_point_shown(path, k + 1, i);
        let j = choose|j: int|
            0 <= j < rest.len() && (#[trigger] rest[j]).span == path[i].src && rest[j].label == Some(
                point_label(path[i]),
            );
        if k > 0 && path[k] == path[k - 1] {
            assert(all == rest);
            assert(all[j].span == path[i].src);
        } else {
            assert(all[j + 1] == rest[j]);
        }
    }
}

proof fn lemma_witness_shown(ws: Seq<WitnessView>, k: int, i: int, p: int)
    requires
        0 <= k <= i < ws.len(),
    ensures
        exists|j: int|
            0 <= j < witness_spans(ws, k).len() && (#[trigger] witness_spans(ws, k)[j]).span
                == ws[i].src && witness_spans(ws, k)[j].label == Some(origin_label(ws[i].info)),
        0 <= p < ws[i].path.len() && (p == 0 || ws[i].path[p] != ws[i].path[p - 1]) ==> exists|
            j: int,
        |
            0 <= j < witness_spans(ws, k).len() && (#[trigger] witness_spans(ws, k)[j]).span
                == ws[i].path[p].src && witness_spans(ws, k)[j].label == Some(
                point_label(ws[i].path[p]),
            ),
    decreases ws.len() - k,
{
    let all = witness_spans(ws, k);
    let rest = witness_spans(ws, k + 1);
    let mine = point_spans(ws[k].path, 0);
    if k == i {
        assert(all[0].span == ws[i].src);
        if 0 <= p < ws[i].path.len() && (p == 0 || ws[i].path[p] != ws[i].path[p - 1]) {
            lemma_point_shown(ws[i].path, 0, p);
            let j = choose|j: int|
                0 <= j < mine.len() && (#[trigger] mine[j]).span == ws[i].path[p].src
                    && mine[j].label == Some(point_label(ws[i].path[p]));
            assert(all[j + 1] == mine[j]);
        }
    } else {
        lemma_witness_shown(ws, k + 1, i, p);
        let a = choose|j: int|
            0 <= j < rest.len() && (#[trigger] rest[j]).span == ws[i].src && rest[j].label == Some(
                origin_label(ws[i].info),
            );
        assert(all[1 + mine.len() + a] == rest[a]);
        if 0 <= p < ws[i].path.len() && (p == 0 || ws[i].path[p] != ws[i].path[p - 1]) {
            let b = choose|j: int|
                0 <= j < rest.len() && (#[trigger] rest[j]).span == ws[i].path[p].src
                    && rest[j].label == Some(point_label(ws[i].path[p]));
            assert(all[1 + mine.len() + b] == rest[b]);
        }
    }
}

/// The report of a leak shows the origin of each of its witnesses, and every
/// point on the trail of each that differs from the point before it.
pub proof fn law_trails_are_shown(leak: LeakView, i: int, p: int)
    requires
        0 <= i < leak.witnesses.len(),
    ensures
        ({
            let v = leak.witnesses[i];
            let spans = leak_diag(leak).secondary_spans;
            &&& exists|j: int|
                0 <= j < spans.len() && (#[trigger] spans[j]).span == v.src && spans[j].label
                    == Some(origin_label(v.info))
            &&& 0 <= p < v.path.len() && (p == 0 || v.path[p] != v.path[p - 1]) ==> exists|j: int|
                0 <= j < spans.len() && (#[trigger] spans[j]).span == v.path[p].src
                    && spans[j].label == Some(point_label(v.path[p]))
        }),
{
    let spans = leak_diag(leak).secondary_spans;
    assert(spans == witness_spans(leak.witnesses, 0));
    lemma_witness_shown(leak.witnesses, 0, i, p);
}

/// Every node that can bind a name counts as a pattern.
pub proof fn law_only_patterns_bind(t: Tree, sink: SinkView, env: EnvView, p: int, val: AbsView)
    requires
        0 <= p < t.len(),
        !in_class(Class::Pat, t[p].kind),
    ensures
        bound(t, sink, env, p, val) == (sink, env),
{
}

} // verus!
