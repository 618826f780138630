//! Laws of how leaks and witnesses flow through expressions.

use vstd::prelude::*;

use crate::disclosure::abs::{
    all_witnesses, joined, tagged, with_witnesses, witnesses_upto, AbsView, PointView, WitnessView,
};
use crate::disclosure::abs_laws::{
    compatible, has_uid, law_join_unites, law_merge_unites, lemma_upto_uids,
};
use crate::disclosure::flow_laws::{behind, lemma_children_behind, lemma_kid};
use crate::disclosure::model::{
    bool_token_from, built, chosen, clean, combined, elements_at, elements_of, ev, ev_binary,
    ev_body, ev_fold, ev_index, ev_inits, ev_join, ev_list, ev_map, ev_member, ev_struct,
    ev_ternary, ev_union, field_position, fold_bound, fold_fixed, fold_unrolled, indexed, init_for,
    kid, lambda_of, lambda_params, map_unrolled, merged_children, operator_from, projected, run,
    run_block, run_returning, threaded, unroll_len_from, with_params, EnvView, St, Walk,
};
use crate::disclosure::walk_laws::{
    kept_built, kept_combined, kept_ev, kept_fold_fixed, kept_fold_unrolled, kept_indexed,
    kept_inits, kept_list, kept_map_unrolled, law_marking_keeps_witnesses, law_operators_keep_taint,
    lemma_same, lemma_tagged, lemma_trans, lemma_union_uids, sink_grown, some_has_uid, st_grown,
};
use crate::kinds::{
    in_class, Class, AMP_AMP, ARRAY_EXPR, BINARY_EXPR, BYTES_EXPR, CAST_EXPR, DISCLOSE_EXPR,
    FALSE_KW, FOLD_EXPR, IDENT, INDEX_EXPR, LITERAL_EXPR, MAP_EXPR, MEMBER_EXPR, NAME_EXPR,
    PAREN_EXPR, PIPE_PIPE, RETURN_STMT, STRUCT_EXPR, STRUCT_FIELD_INIT, STRUCT_UPDATE, TERNARY_EXPR,
    TRUE_KW,
};
use crate::syntax::{child, child_token, children, range_of, token_from, well_formed, Tree};
use crate::text::TextRange;
use crate::ty::TyView;
use crate::typing::named_type;

verus! {

// ---------------------------------------------------------------------------
// Values
// ---------------------------------------------------------------------------

/// Whether a value has a part that can carry a witness.
pub open spec fn has_part(a: AbsView) -> bool
    decreases a,
{
    match a {
        AbsView::Multiple(items) => exists|i: int|
            0 <= i < items.len() && has_part(#[trigger] items[i]),
        AbsView::Single(inner) => has_part(*inner),
        _ => true,
    }
}

/// Witnesses that are added to a value are in it afterwards, beside its own, and
/// no others are.
pub proof fn law_added_witnesses_are_there(a: AbsView, extra: Seq<WitnessView>, uid: u32)
    ensures
        has_uid(all_witnesses(with_witnesses(a, extra)), uid) <==> has_uid(all_witnesses(a), uid)
            || (has_uid(extra, uid) && has_part(a)),
    decreases a,
{
    match a {
        AbsView::Atomic(ws) => law_merge_unites(ws, extra, uid),
        AbsView::Boolean { witnesses, .. } => law_merge_unites(witnesses, extra, uid),
        AbsView::Multiple(items) => {
            let whole = with_witnesses(a, extra);
            let out = whole->Multiple_0;
            assert forall|i: int| 0 <= i < items.len() implies (has_uid(
                all_witnesses(#[trigger] out[i]),
                uid,
            ) <==> has_uid(all_witnesses(items[i]), uid) || (has_uid(extra, uid) && has_part(
                items[i],
            ))) by {
                law_added_witnesses_are_there(items[i], extra, uid);
            }
            lemma_upto_uids(items, items.len() as int, uid);
            lemma_upto_uids(out, out.len() as int, uid);
            if has_uid(witnesses_upto(items, items.len() as int), uid) {
                let i = choose|i: int|
                    0 <= i < items.len() && has_uid(all_witnesses(#[trigger] items[i]), uid);
                assert(has_uid(all_witnesses(out[i]), uid));
            }
            if has_uid(extra, uid) && has_part(a) {
                let i = choose|i: int| 0 <= i < items.len() && has_part(#[trigger] items[i]);
                assert(has_uid(all_witnesses(out[i]), uid));
            }
            if has_uid(witnesses_upto(out, out.len() as int), uid) {
                let i = choose|i: int|
                    0 <= i < out.len() && has_uid(all_witnesses(#[trigger] out[i]), uid);
                assert(has_uid(all_witnesses(items[i]), uid) || has_part(items[i]));
            }
            assert(all_witnesses(whole) == witnesses_upto(out, out.len() as int));
        },
        AbsView::Single(inner) => law_added_witnesses_are_there(*inner, extra, uid),
    }
}

// ---------------------------------------------------------------------------
// Simple forms
// ---------------------------------------------------------------------------

/// Parentheses and a cast change nothing, and `disclose` walks what stands in
/// it like anything else.
pub proof fn law_wrapped_expressions_are_walked(
    w: Walk,
    st: St,
    env: EnvView,
    control: Seq<WitnessView>,
    n: int,
)
    requires
        well_formed(w.t()),
        0 <= n < w.t().len(),
        w.t()[n].kind == PAREN_EXPR || w.t()[n].kind == CAST_EXPR || w.t()[n].kind == DISCLOSE_EXPR,
        children(w.t(), n, Class::Expr).len() > 0,
    ensures
        ({
            let inside = ev(w, st, env, control, children(w.t(), n, Class::Expr)[0]);
            let r = ev(w, st, env, control, n);
            &&& r.0 == inside.0
            &&& w.t()[n].kind != DISCLOSE_EXPR ==> r.1 == inside.1
        }),
{
    lemma_kid(w, st, env, control, n, 0);
}

/// A name comes to what is bound to it.
pub proof fn law_names_read_their_binding(
    w: Walk,
    st: St,
    env: EnvView,
    control: Seq<WitnessView>,
    n: int,
    x: int,
)
    requires
        0 <= n < w.t().len(),
        w.t()[n].kind == NAME_EXPR,
        child_token(w.t(), n, IDENT) == Some(x),
    ensures
        ev(w, st, env, control, n).0 == st,
        env.contains_key(w.t()[x].text) ==> ev(w, st, env, control, n).1 == env[w.t()[x].text],
        !env.contains_key(w.t()[x].text) ==> all_witnesses(ev(w, st, env, control, n).1)
            == Seq::<WitnessView>::empty(),
{
}

proof fn lemma_bool_token(t: Tree, i: int, end: int)
    requires
        well_formed(t),
        0 <= i,
    ensures
        token_from(t, i, end, TRUE_KW) is Some && token_from(
            t,
            i,
            end,
            FALSE_KW,
        ) is None ==> bool_token_from(t, i, end) == Some(true),
        token_from(t, i, end, FALSE_KW) is Some && token_from(
            t,
            i,
            end,
            TRUE_KW,
        ) is None ==> bool_token_from(t, i, end) == Some(false),
        token_from(t, i, end, FALSE_KW) is None && token_from(
            t,
            i,
            end,
            TRUE_KW,
        ) is None ==> bool_token_from(t, i, end) is None,
    decreases t.len() - i,
{
    if 0 <= i < end && i < t.len() {
        lemma_bool_token(t, t[i].next, end);
    }
}

/// A literal carries no witness; `true` and `false` have a known value.
pub proof fn law_literals_are_clean(
    w: Walk,
    st: St,
    env: EnvView,
    control: Seq<WitnessView>,
    n: int,
)
    requires
        well_formed(w.t()),
        0 <= n < w.t().len(),
        w.t()[n].kind == LITERAL_EXPR,
    ensures
        ({
            let r = ev(w, st, env, control, n);
            let yes = child_token(w.t(), n, TRUE_KW) is Some;
            let no = child_token(w.t(), n, FALSE_KW) is Some;
            &&& r.0 == st
            &&& all_witnesses(r.1) == Seq::<WitnessView>::empty()
            &&& yes && !no ==> r.1 is Boolean && r.1->value
            &&& no && !yes ==> r.1 is Boolean && !r.1->value
            &&& !yes && !no ==> r.1 is Atomic
        }),
{
    lemma_bool_token(w.t(), n + 1, w.t()[n].next);
}

// ---------------------------------------------------------------------------
// Operators
// ---------------------------------------------------------------------------

/// Both operands are walked, and what they leak stays; the right operand of a
/// connective is controlled by the left one. The result has exactly the
/// witnesses of the operands.
pub proof fn law_operands_are_walked(
    w: Walk,
    st: St,
    env: EnvView,
    control: Seq<WitnessView>,
    n: int,
    uid: u32,
)
    requires
        well_formed(w.t()),
        0 <= n < w.t().len(),
        w.t()[n].kind == BINARY_EXPR,
        children(w.t(), n, Class::Expr).len() == 2,
    ensures
        ({
            let kids = children(w.t(), n, Class::Expr);
            let op = operator_from(w.t(), n + 1, w.t()[n].next);
            let lhs = ev(w, st, env, control, kids[0]);
            let inner = if op == Some(AMP_AMP) || op == Some(PIPE_PIPE) {
                threaded(all_witnesses(lhs.1), control, range_of(w.t(), n))
            } else {
                control
            };
            let rhs = ev(w, lhs.0, env, inner, kids[1]);
            let r = ev(w, st, env, control, n);
            &&& sink_grown(lhs.0.sink, r.0.sink)
            &&& sink_grown(rhs.0.sink, r.0.sink)
            &&& compatible(lhs.1, rhs.1) ==> (has_uid(all_witnesses(r.1), uid) <==> has_uid(
                all_witnesses(lhs.1),
                uid,
            ) || has_uid(all_witnesses(rhs.1), uid))
        }),
{
    let t = w.t();
    let kids = children(t, n, Class::Expr);
    let src = range_of(t, n);
    let op = operator_from(t, n + 1, t[n].next);
    lemma_kid(w, st, env, control, n, 0);
    let lhs = ev(w, st, env, control, kids[0]);
    let inner = if op == Some(AMP_AMP) || op == Some(PIPE_PIPE) {
        threaded(all_witnesses(lhs.1), control, src)
    } else {
        control
    };
    lemma_kid(w, lhs.0, env, inner, n, 1);
    let rhs = ev(w, lhs.0, env, inner, kids[1]);
    assert(ev(w, st, env, control, n) == ev_binary(w, st, env, control, n));
    assert(ev_binary(w, st, env, control, n) == combined(rhs.0, op, lhs.1, rhs.1, src));
    kept_ev(w, lhs.0, env, inner, kids[1]);
    kept_combined(w.c, rhs.0, op, lhs.1, rhs.1, src);
    lemma_trans(w.c, lhs.0, rhs.0, combined(rhs.0, op, lhs.1, rhs.1, src).0);
    reveal(st_grown);
    if compatible(lhs.1, rhs.1) {
        law_operators_keep_taint(rhs.0, op, lhs.1, rhs.1, src, uid);
    }
}

/// A conditional expression walks its condition and both branches, which the
/// condition controls, and what they leak stays. The witnesses of the condition
/// are in the result. So are those of both branches, unless the condition is a
/// constant: then those of the branch that it takes are.
pub proof fn law_conditional_is_walked(
    w: Walk,
    st: St,
    env: EnvView,
    control: Seq<WitnessView>,
    n: int,
    uid: u32,
)
    requires
        well_formed(w.t()),
        0 <= n < w.t().len(),
        w.t()[n].kind == TERNARY_EXPR,
        children(w.t(), n, Class::Expr).len() == 3,
    ensures
        ({
            let kids = children(w.t(), n, Class::Expr);
            let cond = ev(w, st, env, control, kids[0]);
            let inner = threaded(all_witnesses(cond.1), control, range_of(w.t(), n));
            let yes = ev(w, cond.0, env, inner, kids[1]);
            let no = ev(w, yes.0, env, inner, kids[2]);
            let r = ev(w, st, env, control, n);
            let taken = match cond.1 {
                AbsView::Boolean { value, .. } => if value {
                    has_uid(all_witnesses(yes.1), uid)
                } else {
                    has_uid(all_witnesses(no.1), uid)
                },
                _ => has_uid(all_witnesses(yes.1), uid) || has_uid(all_witnesses(no.1), uid),
            };
            &&& sink_grown(cond.0.sink, r.0.sink)
            &&& sink_grown(yes.0.sink, r.0.sink)
            &&& r.0 == no.0
            &&& compatible(yes.1, no.1) && taken ==> has_uid(all_witnesses(r.1), uid)
            &&& compatible(yes.1, no.1) && !taken && !has_uid(all_witnesses(cond.1), uid)
                ==> !has_uid(all_witnesses(r.1), uid)
            &&& has_uid(all_witnesses(cond.1), uid) && has_part(yes.1) && has_part(no.1)
                && has_part(joined(yes.1, no.1)) ==> has_uid(all_witnesses(r.1), uid)
        }),
{
    let t = w.t();
    let kids = children(t, n, Class::Expr);
    let src = range_of(t, n);
    lemma_kid(w, st, env, control, n, 0);
    let cond = ev(w, st, env, control, kids[0]);
    let inner = threaded(all_witnesses(cond.1), control, src);
    lemma_kid(w, cond.0, env, inner, n, 1);
    let yes = ev(w, cond.0, env, inner, kids[1]);
    lemma_kid(w, yes.0, env, inner, n, 2);
    let no = ev(w, yes.0, env, inner, kids[2]);
    assert(ev(w, st, env, control, n) == ev_ternary(w, st, env, control, n));
    assert(ev_ternary(w, st, env, control, n) == (no.0, chosen(cond.1, yes.1, no.1, src)));
    kept_ev(w, cond.0, env, inner, kids[1]);
    kept_ev(w, yes.0, env, inner, kids[2]);
    lemma_trans(w.c, cond.0, yes.0, no.0);
    reveal(st_grown);
    let taken = match cond.1 {
        AbsView::Boolean { value, .. } => if value {
            yes.1
        } else {
            no.1
        },
        _ => joined(yes.1, no.1),
    };
    if compatible(yes.1, no.1) {
        law_join_unites(yes.1, no.1, uid);
    }
    let point = PointView {
        src,
        description: "the conditional expression"@,
        exposure: "the boolean value of"@,
    };
    lemma_tagged(all_witnesses(cond.1), point, uid);
    law_added_witnesses_are_there(taken, tagged(all_witnesses(cond.1), point), uid);
}

// ---------------------------------------------------------------------------
// Parts of values
// ---------------------------------------------------------------------------

proof fn lemma_merged_children(items: Seq<AbsView>, n: int, ws: Seq<WitnessView>, uid: u32)
    requires
        0 <= n <= items.len(),
    ensures
        has_uid(merged_children(items, n, ws), uid) <==> has_uid(ws, uid) || exists|i: int|
            0 <= i < n && has_uid(all_witnesses(#[trigger] items[i]), uid),
    decreases n,
{
    if n > 0 {
        lemma_merged_children(items, n - 1, ws, uid);
        law_merge_unites(merged_children(items, n - 1, ws), all_witnesses(items[n - 1]), uid);
        if has_uid(all_witnesses(items[n - 1]), uid) {
            assert(0 <= n - 1 < n);
        }
    }
}

/// An index expression walks the base and the index, and what they leak stays.
/// The element has the witnesses of the base, and those of the index as well.
pub proof fn law_index_is_walked(
    w: Walk,
    st: St,
    env: EnvView,
    control: Seq<WitnessView>,
    n: int,
    uid: u32,
)
    requires
        well_formed(w.t()),
        0 <= n < w.t().len(),
        w.t()[n].kind == INDEX_EXPR,
        children(w.t(), n, Class::Expr).len() == 2,
    ensures
        ({
            let kids = children(w.t(), n, Class::Expr);
            let base = ev(w, st, env, control, kids[0]);
            let index = ev(w, base.0, env, control, kids[1]);
            let r = ev(w, st, env, control, n);
            &&& sink_grown(base.0.sink, r.0.sink)
            &&& sink_grown(index.0.sink, r.0.sink)
            &&& has_part(base.1) || base.1 is Multiple ==> (has_uid(all_witnesses(r.1), uid)
                <==> has_uid(all_witnesses(base.1), uid) || has_uid(all_witnesses(index.1), uid))
        }),
{
    let t = w.t();
    let kids = children(t, n, Class::Expr);
    let src = range_of(t, n);
    lemma_kid(w, st, env, control, n, 0);
    let base = ev(w, st, env, control, kids[0]);
    lemma_kid(w, base.0, env, control, n, 1);
    let index = ev(w, base.0, env, control, kids[1]);
    let ws = all_witnesses(index.1);
    assert(ev(w, st, env, control, n) == ev_index(w, st, env, control, n));
    assert(ev_index(w, st, env, control, n) == indexed(index.0, base.1, ws, src));
    kept_ev(w, base.0, env, control, kids[1]);
    kept_indexed(w.c, index.0, base.1, ws, src);
    lemma_trans(w.c, base.0, index.0, indexed(index.0, base.1, ws, src).0);
    reveal(st_grown);
    match base.1 {
        AbsView::Single(inner) => {
            law_added_witnesses_are_there(*inner, ws, uid);
            law_marking_keeps_witnesses(
                with_witnesses(*inner, ws),
                PointView {
                    src,
                    description: "the index"@,
                    exposure: "the element selected by"@,
                },
                uid,
            );
        },
        AbsView::Multiple(items) => {
            lemma_merged_children(items, items.len() as int, ws, uid);
            lemma_upto_uids(items, items.len() as int, uid);
        },
        _ => law_merge_unites(all_witnesses(base.1), ws, uid),
    }
}

/// A member access walks its base. Where the field and the shape are known it
/// comes to that field, and else it has all witnesses of the base.
pub proof fn law_member_is_walked(
    w: Walk,
    st: St,
    env: EnvView,
    control: Seq<WitnessView>,
    n: int,
    x: int,
)
    requires
        well_formed(w.t()),
        0 <= n < w.t().len(),
        w.t()[n].kind == MEMBER_EXPR,
        children(w.t(), n, Class::Expr).len() > 0,
        child_token(w.t(), n, IDENT) == Some(x),
    ensures
        ({
            let kids = children(w.t(), n, Class::Expr);
            let base = ev(w, st, env, control, kids[0]);
            let r = ev(w, st, env, control, n);
            let at = projected(w.c, kids[0], w.t()[x].text);
            let known = at is Some && base.1 is Multiple && 0 <= at->0
                < base.1->Multiple_0.len();
            &&& r.0.sink.leaks == base.0.sink.leaks
            &&& known ==> r.1 == base.1->Multiple_0[at->0]
            &&& !known ==> all_witnesses(r.1) == all_witnesses(base.1)
        }),
{
    lemma_kid(w, st, env, control, n, 0);
    assert(ev(w, st, env, control, n) == ev_member(w, st, env, control, n));
}

/// The place of a field is that of the declared field with this name.
pub proof fn law_fields_are_found_by_name(
    fields: Seq<(Seq<char>, TyView)>,
    name: Seq<char>,
    i: int,
)
    requires
        0 <= i < fields.len(),
        fields[i].0 == name,
        forall|j: int| 0 <= j < i ==> (#[trigger] fields[j]).0 != name,
    ensures
        field_position(fields, 0, name) == Some(i),
{
    lemma_field_position(fields, 0, name, i);
}

proof fn lemma_field_position(
    fields: Seq<(Seq<char>, TyView)>,
    k: int,
    name: Seq<char>,
    i: int,
)
    requires
        0 <= k <= i < fields.len(),
        fields[i].0 == name,
        forall|j: int| k <= j < i ==> (#[trigger] fields[j]).0 != name,
    ensures
        field_position(fields, k, name) == Some(i),
    decreases i - k,
{
    if k < i {
        lemma_field_position(fields, k + 1, name, i);
    }
}

/// Whether the values are all without parts.
pub open spec fn all_flat(values: Seq<AbsView>) -> bool {
    forall|i: int|
        0 <= i < values.len() ==> !(#[trigger] values[i] is Multiple) && !(values[i] is Single)
}

proof fn lemma_join_list(
    w: Walk,
    st: St,
    env: EnvView,
    control: Seq<WitnessView>,
    kids: Seq<int>,
    k: int,
    after: int,
    acc: Option<AbsView>,
    uid: u32,
)
    requires
        acc matches Some(a) ==> !(a is Multiple) && !(a is Single),
    ensures
        ({
            let all = ev_list(w, st, env, control, kids, k, after);
            let r = ev_join(w, st, env, control, kids, k, after, acc);
            &&& r.0 == all.0
            &&& all_flat(all.1) && (acc is Some || all.1.len() > 0) ==> r.1 is Some && (has_uid(
                all_witnesses(r.1->0),
                uid,
            ) <==> (acc is Some && has_uid(all_witnesses(acc->0), uid)) || some_has_uid(all.1, uid))
            &&& acc is None && all.1.len() == 0 ==> r.1 is None
        }),
    decreases kids.len() - k,
{
    let all = ev_list(w, st, env, control, kids, k, after);
    if 0 <= k < kids.len() && after < kids[k] < w.t().len() {
        let a = ev(w, st, env, control, kids[k]);
        let next = match acc {
            Some(prev) => joined(prev, a.1),
            None => a.1,
        };
        let rest = ev_list(w, a.0, env, control, kids, k + 1, after);
        assert(all.1 == seq![a.1] + rest.1);
        if all_flat(all.1) {
            assert(all.1[0] == a.1);
            assert forall|i: int| 0 <= i < rest.1.len() implies !(#[trigger] rest.1[i] is Multiple)
                && !(rest.1[i] is Single) by {
                assert(all.1[i + 1] == rest.1[i]);
            }
            if let Some(prev) = acc {
                law_join_unites(prev, a.1, uid);
            }
            lemma_join_list(w, a.0, env, control, kids, k + 1, after, Some(next), uid);
            if some_has_uid(rest.1, uid) {
                let i = choose|i: int|
                    0 <= i < rest.1.len() && has_uid(all_witnesses(#[trigger] rest.1[i]), uid);
                assert(all.1[i + 1] == rest.1[i]);
            }
            if has_uid(all_witnesses(a.1), uid) {
                assert(has_uid(all_witnesses(all.1[0]), uid));
            }
            if some_has_uid(all.1, uid) {
                let i = choose|i: int|
                    0 <= i < all.1.len() && has_uid(all_witnesses(#[trigger] all.1[i]), uid);
                if i > 0 {
                    assert(rest.1[i - 1] == all.1[i]);
                }
            }
        } else {
            lemma_join_state(w, a.0, env, control, kids, k + 1, after, Some(next));
        }
    }
}

proof fn lemma_join_state(
    w: Walk,
    st: St,
    env: EnvView,
    control: Seq<WitnessView>,
    kids: Seq<int>,
    k: int,
    after: int,
    acc: Option<AbsView>,
)
    ensures
        ev_join(w, st, env, control, kids, k, after, acc).0 == ev_list(
            w,
            st,
            env,
            control,
            kids,
            k,
            after,
        ).0,
    decreases kids.len() - k,
{
    if 0 <= k < kids.len() && after < kids[k] < w.t().len() {
        let a = ev(w, st, env, control, kids[k]);
        let next = match acc {
            Some(prev) => joined(prev, a.1),
            None => a.1,
        };
        lemma_join_state(w, a.0, env, control, kids, k + 1, after, Some(next));
    }
}

/// An array and a byte string walk their elements in order. The witnesses of a
/// byte string are exactly those of its elements, and so are those of an array
/// whose elements have no parts.
pub proof fn law_elements_are_walked(
    w: Walk,
    st: St,
    env: EnvView,
    control: Seq<WitnessView>,
    n: int,
    uid: u32,
)
    requires
        0 <= n < w.t().len(),
        w.t()[n].kind == ARRAY_EXPR || w.t()[n].kind == BYTES_EXPR,
    ensures
        ({
            let all = ev_list(w, st, env, control, children(w.t(), n, Class::Expr), 0, n);
            let r = ev(w, st, env, control, n);
            &&& r.0 == all.0
            &&& w.t()[n].kind == ARRAY_EXPR ==> r.1 is Single
            &&& w.t()[n].kind == BYTES_EXPR || all_flat(all.1) ==> (has_uid(
                all_witnesses(r.1),
                uid,
            ) <==> some_has_uid(all.1, uid))
        }),
{
    let kids = children(w.t(), n, Class::Expr);
    lemma_union_uids(w, st, env, control, kids, 0, n, Seq::empty(), uid);
    lemma_join_state(w, st, env, control, kids, 0, n, None);
    lemma_join_list(w, st, env, control, kids, 0, n, None, uid);
    if w.t()[n].kind == ARRAY_EXPR {
        let inside = match ev_join(w, st, env, control, kids, 0, n, None).1 {
            Some(a) => a,
            None => clean(),
        };
        let r = ev(w, st, env, control, n).1;
        assert(r == AbsView::Single(Box::new(inside)));
        assert(all_witnesses(r) == all_witnesses(inside));
    } else {
        let ws = ev_union(w, st, env, control, kids, 0, n, Seq::empty()).1;
        assert(ev(w, st, env, control, n).1 == AbsView::Atomic(ws));
    }
}

// ---------------------------------------------------------------------------
// Struct literals
// ---------------------------------------------------------------------------

proof fn lemma_inits_split(
    w: Walk,
    st: St,
    env: EnvView,
    control: Seq<WitnessView>,
    kids: Seq<int>,
    k: int,
    i: int,
    after: int,
)
    requires
        0 <= k <= i <= kids.len(),
        behind(w.t(), kids, after),
    ensures
        ({
            let u = ev_inits(w, st, env, control, kids.take(i), k, after);
            let r = ev_inits(w, u.0, env, control, kids, i, after);
            &&& ev_inits(w, st, env, control, kids, k, after) == (r.0, u.1 + r.1)
            &&& u.1.len() == i - k
        }),
    decreases i - k,
{
    let all = ev_inits(w, st, env, control, kids, k, after);
    if k < i {
        assert(kids.take(i)[k] == kids[k]);
        assert(after < kids[k] < w.t().len());
        let name = match child_token(w.t(), kids[k], IDENT) {
            Some(x) => Some(w.t()[x].text),
            None => None,
        };
        let a = kid(w, st, env, control, kids[k], 0);
        lemma_inits_split(w, a.0, env, control, kids, k + 1, i, after);
        let u = ev_inits(w, a.0, env, control, kids.take(i), k + 1, after);
        let r = ev_inits(w, u.0, env, control, kids, i, after);
        assert(seq![(name, a.1)] + (u.1 + r.1) =~= (seq![(name, a.1)] + u.1) + r.1);
    } else {
        assert(Seq::<(Option<Seq<char>>, AbsView)>::empty() + all.1 =~= all.1);
    }
}

/// The initializers of a struct literal are walked in order: each from the state
/// behind those before it, and what it leaks is still there behind the literal.
pub proof fn law_initializers_are_walked(
    w: Walk,
    st: St,
    env: EnvView,
    control: Seq<WitnessView>,
    n: int,
    i: int,
    x: int,
)
    requires
        well_formed(w.t()),
        0 <= n < w.t().len(),
        w.t()[n].kind == STRUCT_EXPR,
        child(w.t(), n, Class::Kind(STRUCT_UPDATE)) is None,
        0 <= i < children(w.t(), n, Class::Kind(STRUCT_FIELD_INIT)).len(),
        child_token(w.t(), children(w.t(), n, Class::Kind(STRUCT_FIELD_INIT))[i], IDENT) == Some(x),
        children(
            w.t(),
            children(w.t(), n, Class::Kind(STRUCT_FIELD_INIT))[i],
            Class::Expr,
        ).len() > 0,
    ensures
        ({
            let kids = children(w.t(), n, Class::Kind(STRUCT_FIELD_INIT));
            let before = ev_inits(w, st, env, control, kids.take(i), 0, n);
            let all = ev_inits(w, st, env, control, kids, 0, n);
            let value = ev(w, before.0, env, control, children(w.t(), kids[i], Class::Expr)[0]);
            let r = ev(w, st, env, control, n);
            &&& i == 0 ==> before.0 == st
            &&& before.1.len() == i
            &&& ev_inits(w, st, env, control, kids.take(i + 1), 0, n) == (
                value.0,
                before.1.push((Some(w.t()[x].text), value.1)),
            )
            &&& i < all.1.len()
            &&& all.1[i] == (Some(w.t()[x].text), value.1)
            &&& sink_grown(value.0.sink, r.0.sink)
            &&& r.0.sink.leaks == all.0.sink.leaks
        }),
{
    let t = w.t();
    let kids = children(t, n, Class::Kind(STRUCT_FIELD_INIT));
    lemma_children_behind(t, n, Class::Kind(STRUCT_FIELD_INIT));
    let before = ev_inits(w, st, env, control, kids.take(i), 0, n);
    assert(n < kids[i] < t.len());
    lemma_kid(w, before.0, env, control, kids[i], 0);
    let value = kid(w, before.0, env, control, kids[i], 0);
    let entry = (Some(t[x].text), value.1);
    let more = kids.take(i + 1);
    assert(more.take(i) =~= kids.take(i));
    assert(more[i] == kids[i]);
    assert forall|j: int| 0 <= j < more.len() implies n < #[trigger] more[j] < t.len() by {
        assert(more[j] == kids[j]);
    }
    lemma_inits_split(w, st, env, control, more, 0, i, n);
    let r = ev_inits(w, before.0, env, control, more, i, n);
    let none = ev_inits(w, value.0, env, control, more, i + 1, n);
    assert(none == (value.0, Seq::<(Option<Seq<char>>, AbsView)>::empty()));
    assert(r.1 =~= seq![entry]);
    assert(before.1 + r.1 =~= before.1.push(entry));
    lemma_inits_split(w, st, env, control, kids, 0, i + 1, n);
    let all = ev_inits(w, st, env, control, kids, 0, n);
    let rest = ev_inits(w, value.0, env, control, kids, i + 1, n);
    assert(all == (rest.0, before.1.push(entry) + rest.1));
    kept_inits(w, value.0, env, control, kids, i + 1, n);
    let declared = match child_token(t, n, IDENT) {
        Some(y) => named_type(w.c, t[y].start, Seq::empty()),
        None => TyView::Unknown,
    };
    assert(ev(w, st, env, control, n) == ev_struct(w, st, env, control, n));
    assert(ev_struct(w, st, env, control, n) == built(all.0, declared, all.1, range_of(t, n)));
    kept_built(w.c, all.0, declared, all.1, range_of(t, n));
    lemma_trans(w.c, value.0, all.0, built(all.0, declared, all.1, range_of(t, n)).0);
    reveal(st_grown);
}

proof fn lemma_init_for(
    inits: Seq<(Option<Seq<char>>, AbsView)>,
    k: int,
    name: Seq<char>,
    i: int,
)
    requires
        0 <= k <= i < inits.len(),
        inits[i].0 == Some(name),
        forall|j: int| k <= j < i ==> (#[trigger] inits[j]).0 != Some(name),
    ensures
        init_for(inits, k, name) == inits[i].1,
    decreases i - k,
{
    if k < i {
        lemma_init_for(inits, k + 1, name, i);
    }
}

/// A struct literal of a known struct has one child per declared field: the
/// initializer with the name of the field, whatever the order they are written
/// in. One of an unknown struct has the initializers as written.
pub proof fn law_initializers_reach_their_fields(
    st: St,
    declared: TyView,
    inits: Seq<(Option<Seq<char>>, AbsView)>,
    src: TextRange,
    f: int,
    i: int,
)
    requires
        0 <= i < inits.len(),
    ensures
        ({
            let r = built(st, declared, inits, src).1;
            &&& r is Multiple
            &&& declared matches TyView::Struct { fields, .. } ==> {
                &&& r->Multiple_0.len() == fields.len()
                &&& 0 <= f < fields.len() && inits[i].0 == Some(fields[f].0) && (forall|j: int|
                    0 <= j < i ==> (#[trigger] inits[j]).0 != Some(fields[f].0))
                    ==> r->Multiple_0[f] == inits[i].1
            }
            &&& !(declared is Struct) ==> r->Multiple_0.len() == inits.len() && r->Multiple_0[i]
                == inits[i].1
        }),
{
    if let TyView::Struct { fields, .. } = declared {
        if 0 <= f < fields.len() && inits[i].0 == Some(fields[f].0) && (forall|j: int|
            0 <= j < i ==> (#[trigger] inits[j]).0 != Some(fields[f].0)) {
            lemma_init_for(inits, 0, fields[f].0, i);
        }
    }
}

// ---------------------------------------------------------------------------
// Maps and folds
// ---------------------------------------------------------------------------

proof fn lemma_with_params(
    env: EnvView,
    params: Seq<Option<Seq<char>>>,
    vals: Seq<AbsView>,
    k: int,
    i: int,
    name: Seq<char>,
)
    requires
        0 <= k,
    ensures
        ({
            let out = with_params(env, params, vals, k);
            &&& k <= i < params.len() && i < vals.len() && params[i] == Some(name) && (forall|j: int|
                i < j < params.len() ==> #[trigger] params[j] != Some(name)) ==> out.contains_key(
                name,
            ) && out[name] == vals[i]
            &&& (forall|j: int| k <= j < params.len() ==> #[trigger] params[j] != Some(name))
                ==> out.contains_key(name) == env.contains_key(name) && out[name] == env[name]
        }),
    decreases params.len() - k,
{
    if k < params.len() && k < vals.len() {
        let next = match params[k] {
            Some(p) => env.insert(p, vals[k]),
            None => env,
        };
        lemma_with_params(next, params, vals, k + 1, i, name);
    }
}

/// Inside a lambda each parameter has the value that is handed to it, and every
/// other name what it has outside.
pub proof fn law_lambda_parameters_are_bound(
    env: EnvView,
    params: Seq<Option<Seq<char>>>,
    vals: Seq<AbsView>,
    i: int,
    name: Seq<char>,
)
    ensures
        ({
            let out = with_params(env, params, vals, 0);
            &&& 0 <= i < params.len() && i < vals.len() && params[i] == Some(name) && (forall|j: int|
                i < j < params.len() ==> #[trigger] params[j] != Some(name)) ==> out.contains_key(
                name,
            ) && out[name] == vals[i]
            &&& !params.contains(Some(name)) ==> out.contains_key(name) == env.contains_key(name)
                && out[name] == env[name]
        }),
{
    lemma_with_params(env, params, vals, 0, i, name);
    if !params.contains(Some(name)) {
        assert(forall|j: int| 0 <= j < params.len() ==> #[trigger] params[j] != Some(name));
    }
}

proof fn lemma_map_split(
    w: Walk,
    st: St,
    env: EnvView,
    control: Seq<WitnessView>,
    body: int,
    params: Seq<Option<Seq<char>>>,
    seqs: Seq<AbsView>,
    k: int,
    i: int,
    len: int,
)
    requires
        0 <= k <= i <= len,
    ensures
        ({
            let u = map_unrolled(w, st, env, control, body, params, seqs, k, i);
            let r = map_unrolled(w, u.0, env, control, body, params, seqs, i, len);
            &&& map_unrolled(w, st, env, control, body, params, seqs, k, len) == (r.0, u.1 + r.1)
            &&& u.1.len() == i - k
        }),
    decreases i - k,
{
    let all = map_unrolled(w, st, env, control, body, params, seqs, k, len);
    if k < i {
        let a = ev(w, st, with_params(env, params, elements_at(seqs, k), 0), control, body);
        lemma_map_split(w, a.0, env, control, body, params, seqs, k + 1, i, len);
        let u = map_unrolled(w, a.0, env, control, body, params, seqs, k + 1, i);
        let r = map_unrolled(w, u.0, env, control, body, params, seqs, i, len);
        assert(seq![a.1] + (u.1 + r.1) =~= (seq![a.1] + u.1) + r.1);
    } else {
        assert(Seq::<AbsView>::empty() + all.1 =~= all.1);
    }
}

/// A `map` walks its sequences, and behind them the body of its lambda: once
/// for each element of a tuple, with the parameters bound to that element, or
/// once for all elements of arrays. What the body leaks is still there behind
/// the `map`, and the values of the body are the elements of the result.
pub proof fn law_map_walks_its_body(
    w: Walk,
    st: St,
    env: EnvView,
    control: Seq<WitnessView>,
    n: int,
    lambda: int,
    body: int,
    i: int,
)
    requires
        0 <= n < w.t().len(),
        w.t()[n].kind == MAP_EXPR,
        children(w.t(), n, Class::Expr).len() > 1,
        lambda_of(w.t(), children(w.t(), n, Class::Expr)[0]) == Some((lambda, body)),
        n < body < w.t().len(),
    ensures
        ({
            let kids = children(w.t(), n, Class::Expr);
            let params = lambda_params(w.t(), lambda);
            let seqs = ev_list(w, st, env, control, kids, 1, n);
            let r = ev(w, st, env, control, n);
            &&& sink_grown(seqs.0.sink, r.0.sink)
            &&& unroll_len_from(seqs.1, 0) is None ==> ({
                let once = ev(
                    w,
                    seqs.0,
                    with_params(env, params, elements_of(seqs.1), 0),
                    control,
                    body,
                );
                r.0 == once.0 && all_witnesses(r.1) == all_witnesses(once.1) && r.1 is Single
            })
            &&& unroll_len_from(seqs.1, 0) matches Some(len) ==> {
                &&& r.1 is Multiple
                &&& r.1->Multiple_0.len() == len
                &&& 0 <= i < len ==> ({
                    let before = map_unrolled(w, seqs.0, env, control, body, params, seqs.1, 0, i);
                    let x = ev(
                        w,
                        before.0,
                        with_params(env, params, elements_at(seqs.1, i), 0),
                        control,
                        body,
                    );
                    &&& i == 0 ==> before.0 == seqs.0
                    &&& map_unrolled(w, seqs.0, env, control, body, params, seqs.1, 0, i + 1).0
                        == x.0
                    &&& r.1->Multiple_0[i] == x.1
                    &&& sink_grown(x.0.sink, r.0.sink)
                })
            }
        }),
{
    let t = w.t();
    let kids = children(t, n, Class::Expr);
    let params = lambda_params(t, lambda);
    let seqs = ev_list(w, st, env, control, kids, 1, n);
    assert(ev(w, st, env, control, n) == ev_map(w, st, env, control, n));
    let r = ev_map(w, st, env, control, n);
    match unroll_len_from(seqs.1, 0) {
        None => {
            let scope = with_params(env, params, elements_of(seqs.1), 0);
            let once = ev(w, seqs.0, scope, control, body);
            kept_ev(w, seqs.0, scope, control, body);
            assert(r == (once.0, AbsView::Single(Box::new(once.1))));
            assert(all_witnesses(r.1) == all_witnesses(once.1));
        },
        Some(len) => {
            let m = len as int;
            let whole = map_unrolled(w, seqs.0, env, control, body, params, seqs.1, 0, m);
            assert(r == (whole.0, AbsView::Multiple(whole.1)));
            kept_map_unrolled(w, seqs.0, env, control, body, params, seqs.1, 0, m);
            lemma_map_split(w, seqs.0, env, control, body, params, seqs.1, 0, m, m);
            if 0 <= i < m {
                let before = map_unrolled(w, seqs.0, env, control, body, params, seqs.1, 0, i);
                let scope = with_params(env, params, elements_at(seqs.1, i), 0);
                let x = ev(w, before.0, scope, control, body);
                lemma_map_split(w, seqs.0, env, control, body, params, seqs.1, 0, i, i + 1);
                lemma_map_split(w, seqs.0, env, control, body, params, seqs.1, 0, i, m);
                let none = map_unrolled(w, x.0, env, control, body, params, seqs.1, i + 1, i + 1);
                assert(none == (x.0, Seq::<AbsView>::empty()));
                let rest = map_unrolled(w, x.0, env, control, body, params, seqs.1, i + 1, m);
                assert(whole == (rest.0, before.1 + (seq![x.1] + rest.1)));
                kept_map_unrolled(w, x.0, env, control, body, params, seqs.1, i + 1, m);
            }
        },
    }
    reveal(st_grown);
}

proof fn lemma_fold_split(
    w: Walk,
    st: St,
    env: EnvView,
    control: Seq<WitnessView>,
    body: int,
    params: Seq<Option<Seq<char>>>,
    seqs: Seq<AbsView>,
    k: int,
    i: int,
    len: int,
    acc: AbsView,
)
    requires
        0 <= k <= i <= len,
    ensures
        ({
            let u = fold_unrolled(w, st, env, control, body, params, seqs, k, i, acc);
            fold_unrolled(w, st, env, control, body, params, seqs, k, len, acc) == fold_unrolled(
                w,
                u.0,
                env,
                control,
                body,
                params,
                seqs,
                i,
                len,
                u.1,
            )
        }),
    decreases i - k,
{
    if k < i {
        let scope = with_params(env, params, seq![acc] + elements_at(seqs, k), 0);
        let a = ev(w, st, scope, control, body);
        lemma_fold_split(w, a.0, env, control, body, params, seqs, k + 1, i, len, a.1);
    }
}

/// A `fold` walks its start value and its sequences, and behind them the body
/// of its lambda, with the first parameter bound to what the fold has come to:
/// once for each element of a tuple, or at least once for all elements of
/// arrays. What the body leaks is still there behind the `fold`.
pub proof fn law_fold_walks_its_body(
    w: Walk,
    st: St,
    env: EnvView,
    control: Seq<WitnessView>,
    n: int,
    lambda: int,
    body: int,
    i: int,
)
    requires
        well_formed(w.t()),
        0 <= n < w.t().len(),
        w.t()[n].kind == FOLD_EXPR,
        children(w.t(), n, Class::Expr).len() > 2,
        lambda_of(w.t(), children(w.t(), n, Class::Expr)[0]) == Some((lambda, body)),
        n < body < w.t().len(),
    ensures
        ({
            let kids = children(w.t(), n, Class::Expr);
            let params = lambda_params(w.t(), lambda);
            let init = ev(w, st, env, control, kids[1]);
            let seqs = ev_list(w, init.0, env, control, kids, 2, n);
            let r = ev(w, st, env, control, n);
            &&& sink_grown(init.0.sink, r.0.sink)
            &&& sink_grown(seqs.0.sink, r.0.sink)
            &&& unroll_len_from(seqs.1, 0) is None ==> sink_grown(
                ev(
                    w,
                    seqs.0,
                    with_params(env, params, seq![init.1] + elements_of(seqs.1), 0),
                    control,
                    body,
                ).0.sink,
                r.0.sink,
            )
            &&& unroll_len_from(seqs.1, 0) matches Some(len) ==> {
                &&& len == 0 ==> r == (seqs.0, init.1)
                &&& 0 <= i < len ==> ({
                    let before = fold_unrolled(
                        w,
                        seqs.0,
                        env,
                        control,
                        body,
                        params,
                        seqs.1,
                        0,
                        i,
                        init.1,
                    );
                    let x = ev(
                        w,
                        before.0,
                        with_params(env, params, seq![before.1] + elements_at(seqs.1, i), 0),
                        control,
                        body,
                    );
                    &&& i == 0 ==> before == (seqs.0, init.1)
                    &&& fold_unrolled(
                        w,
                        seqs.0,
                        env,
                        control,
                        body,
                        params,
                        seqs.1,
                        0,
                        i + 1,
                        init.1,
                    ) == x
                    &&& sink_grown(x.0.sink, r.0.sink)
                    &&& i + 1 == len ==> r == x
                })
            }
        }),
{
    let t = w.t();
    let kids = children(t, n, Class::Expr);
    let params = lambda_params(t, lambda);
    lemma_kid(w, st, env, control, n, 1);
    let init = ev(w, st, env, control, kids[1]);
    let seqs = ev_list(w, init.0, env, control, kids, 2, n);
    kept_list(w, init.0, env, control, kids, 2, n);
    assert(ev(w, st, env, control, n) == ev_fold(w, st, env, control, n));
    let r = ev_fold(w, st, env, control, n);
    match unroll_len_from(seqs.1, 0) {
        None => {
            let elems = elements_of(seqs.1);
            let bound = fold_bound(init.1, elems) as int;
            let scope = with_params(env, params, seq![init.1] + elems, 0);
            let once = ev(w, seqs.0, scope, control, body);
            assert(r == fold_fixed(
                w,
                seqs.0,
                env,
                control,
                body,
                params,
                elems,
                0,
                bound,
                init.1,
            ));
            kept_fold_fixed(w, seqs.0, env, control, body, params, elems, 0, bound, init.1);
            kept_fold_fixed(w, once.0, env, control, body, params, elems, 1, bound, once.1);
            lemma_same(w.c, once.0);
        },
        Some(len) => {
            let m = len as int;
            assert(r == fold_unrolled(
                w,
                seqs.0,
                env,
                control,
                body,
                params,
                seqs.1,
                0,
                m,
                init.1,
            ));
            kept_fold_unrolled(w, seqs.0, env, control, body, params, seqs.1, 0, m, init.1);
            if 0 <= i < m {
                let before = fold_unrolled(
                    w,
                    seqs.0,
                    env,
                    control,
                    body,
                    params,
                    seqs.1,
                    0,
                    i,
                    init.1,
                );
                let scope = with_params(env, params, seq![before.1] + elements_at(seqs.1, i), 0);
                let x = ev(w, before.0, scope, control, body);
                lemma_fold_split(w, seqs.0, env, control, body, params, seqs.1, 0, i, i + 1, init.1);
                lemma_fold_split(w, seqs.0, env, control, body, params, seqs.1, 0, i, m, init.1);
                let none = fold_unrolled(
                    w,
                    x.0,
                    env,
                    control,
                    body,
                    params,
                    seqs.1,
                    i + 1,
                    i + 1,
                    x.1,
                );
                assert(none == x);
                kept_fold_unrolled(w, x.0, env, control, body, params, seqs.1, i + 1, m, x.1);
            }
        },
    }
    lemma_trans(w.c, init.0, seqs.0, r.0);
    reveal(st_grown);
}

// ---------------------------------------------------------------------------
// Bodies of circuits
// ---------------------------------------------------------------------------

proof fn lemma_returning(
    w: Walk,
    st: St,
    env: EnvView,
    control: Seq<WitnessView>,
    kids: Seq<int>,
    k: int,
    m: int,
    after: int,
    tail: Option<AbsView>,
)
    requires
        0 <= k <= m <= kids.len(),
        behind(w.t(), kids, after),
        forall|j: int| k <= j < m ==> w.t()[#[trigger] kids[j]].kind != RETURN_STMT,
    ensures
        ({
            let u = run_block(w, st, env, control, kids.take(m), k, after);
            run_returning(w, st, env, control, kids, k, after, tail) == run_returning(
                w,
                u.0,
                u.1,
                control,
                kids,
                m,
                after,
                tail,
            )
        }),
    decreases m - k,
{
    if k < m {
        assert(kids.take(m)[k] == kids[k]);
        assert(after < kids[k] < w.t().len());
        let r = run(w, st, env, control, kids[k]);
        lemma_returning(w, r.0, r.1, control, kids, k + 1, m, after, tail);
    }
}

/// The body of a circuit runs its statements in order up to the `return` at its
/// end. It comes to the value of that `return`, with the witnesses that were
/// returned from inside control flow added to it, and what the statements and
/// the value leak is still there behind the call.
pub proof fn law_body_comes_to_its_return(
    w: Walk,
    st: St,
    env: EnvView,
    control: Seq<WitnessView>,
    n: int,
    m: int,
    uid: u32,
)
    requires
        well_formed(w.t()),
        0 <= n < w.t().len(),
        0 <= m,
        m + 1 == children(w.t(), n, Class::Stmt).len(),
        forall|j: int|
            0 <= j < m ==> w.t()[#[trigger] children(w.t(), n, Class::Stmt)[j]].kind != RETURN_STMT,
        w.t()[children(w.t(), n, Class::Stmt)[m]].kind == RETURN_STMT,
        children(w.t(), children(w.t(), n, Class::Stmt)[m], Class::Expr).len() > 0,
    ensures
        ({
            let kids = children(w.t(), n, Class::Stmt);
            let start = St { ret: Seq::empty(), ..st };
            let before = run_block(w, start, env, control, kids.take(m), 0, n);
            let value = ev(
                w,
                before.0,
                before.1,
                control,
                children(w.t(), kids[m], Class::Expr)[0],
            );
            let r = ev_body(w, st, env, control, n);
            &&& r.0.sink == value.0.sink
            &&& r.0.ret == st.ret
            &&& has_part(value.1) ==> (has_uid(all_witnesses(r.1), uid) <==> has_uid(
                all_witnesses(value.1),
                uid,
            ) || has_uid(value.0.ret, uid))
        }),
{
    let t = w.t();
    let kids = children(t, n, Class::Stmt);
    lemma_children_behind(t, n, Class::Stmt);
    let start = St { ret: Seq::empty(), ..st };
    let before = run_block(w, start, env, control, kids.take(m), 0, n);
    lemma_returning(w, start, env, control, kids, 0, m, n, None);
    assert(n < kids[m] < t.len());
    lemma_kid(w, before.0, before.1, control, kids[m], 0);
    let value = kid(w, before.0, before.1, control, kids[m], 0);
    let last = run_returning(w, value.0, before.1, control, kids, m + 1, n, Some(value.1));
    assert(last == (value.0, Some(value.1)));
    assert(run_returning(w, before.0, before.1, control, kids, m, n, None) == last);
    law_added_witnesses_are_there(value.1, value.0.ret, uid);
}

/// A body that returns twice at its own level comes to both values: the
/// witnesses of either are in the result, and what the second leaks stays too.
pub proof fn law_every_return_counts(
    w: Walk,
    st: St,
    env: EnvView,
    control: Seq<WitnessView>,
    n: int,
    m: int,
    uid: u32,
)
    requires
        well_formed(w.t()),
        0 <= n < w.t().len(),
        0 <= m,
        m + 2 == children(w.t(), n, Class::Stmt).len(),
        forall|j: int|
            0 <= j < m ==> w.t()[#[trigger] children(w.t(), n, Class::Stmt)[j]].kind != RETURN_STMT,
        w.t()[children(w.t(), n, Class::Stmt)[m]].kind == RETURN_STMT,
        w.t()[children(w.t(), n, Class::Stmt)[m + 1]].kind == RETURN_STMT,
        children(w.t(), children(w.t(), n, Class::Stmt)[m], Class::Expr).len() > 0,
        children(w.t(), children(w.t(), n, Class::Stmt)[m + 1], Class::Expr).len() > 0,
    ensures
        ({
            let t = w.t();
            let kids = children(t, n, Class::Stmt);
            let start = St { ret: Seq::empty(), ..st };
            let before = run_block(w, start, env, control, kids.take(m), 0, n);
            let a = ev(w, before.0, before.1, control, children(t, kids[m], Class::Expr)[0]);
            let b = ev(w, a.0, before.1, control, children(t, kids[m + 1], Class::Expr)[0]);
            let r = ev_body(w, st, env, control, n);
            &&& r.0.sink == b.0.sink
            &&& compatible(a.1, b.1) && has_part(joined(a.1, b.1)) ==> (has_uid(
                all_witnesses(r.1),
                uid,
            ) <==> has_uid(all_witnesses(a.1), uid) || has_uid(all_witnesses(b.1), uid) || has_uid(
                b.0.ret,
                uid,
            ))
        }),
{
    let t = w.t();
    let kids = children(t, n, Class::Stmt);
    lemma_children_behind(t, n, Class::Stmt);
    let start = St { ret: Seq::empty(), ..st };
    let before = run_block(w, start, env, control, kids.take(m), 0, n);
    lemma_returning(w, start, env, control, kids, 0, m, n, None);
    assert(n < kids[m] < t.len());
    assert(n < kids[m + 1] < t.len());
    lemma_kid(w, before.0, before.1, control, kids[m], 0);
    let a = kid(w, before.0, before.1, control, kids[m], 0);
    lemma_kid(w, a.0, before.1, control, kids[m + 1], 0);
    let b = kid(w, a.0, before.1, control, kids[m + 1], 0);
    let both = joined(a.1, b.1);
    let last = run_returning(w, b.0, before.1, control, kids, m + 2, n, Some(both));
    assert(last == (b.0, Some(both)));
    assert(run_returning(w, a.0, before.1, control, kids, m + 1, n, Some(a.1)) == last);
    assert(run_returning(w, before.0, before.1, control, kids, m, n, None) == last);
    law_added_witnesses_are_there(both, b.0.ret, uid);
    if compatible(a.1, b.1) {
        law_join_unites(a.1, b.1, uid);
    }
}

/// A body without a `return` at its own level runs all of its statements, and
/// comes to nothing but the witnesses that were returned from inside control
/// flow.
pub proof fn law_body_without_return(
    w: Walk,
    st: St,
    env: EnvView,
    control: Seq<WitnessView>,
    n: int,
    uid: u32,
)
    requires
        well_formed(w.t()),
        0 <= n < w.t().len(),
        forall|j: int|
            0 <= j < children(w.t(), n, Class::Stmt).len() ==> w.t()[#[trigger] children(
                w.t(),
                n,
                Class::Stmt,
            )[j]].kind != RETURN_STMT,
    ensures
        ({
            let kids = children(w.t(), n, Class::Stmt);
            let start = St { ret: Seq::empty(), ..st };
            let all = run_block(w, start, env, control, kids, 0, n).0;
            let r = ev_body(w, st, env, control, n);
            &&& r.0.sink == all.sink
            &&& has_uid(all_witnesses(r.1), uid) <==> has_uid(all.ret, uid)
        }),
{
    let kids = children(w.t(), n, Class::Stmt);
    let m = kids.len() as int;
    lemma_children_behind(w.t(), n, Class::Stmt);
    let start = St { ret: Seq::empty(), ..st };
    assert(kids.take(m) =~= kids);
    let all = run_block(w, start, env, control, kids, 0, n);
    lemma_returning(w, start, env, control, kids, 0, m, n, None);
    assert(run_returning(w, all.0, all.1, control, kids, m, n, None) == (
        all.0,
        None::<AbsView>,
    ));
    law_added_witnesses_are_there(clean(), all.0.ret, uid);
}

/// Only expressions come to anything: every form that is evaluated belongs to
/// them.
pub proof fn law_only_expressions_are_evaluated(
    w: Walk,
    st: St,
    env: EnvView,
    control: Seq<WitnessView>,
    n: int,
)
    requires
        !in_class(Class::Expr, w.t()[n].kind),
    ensures
        ev(w, st, env, control, n) == (st, clean()),
{
}

} // verus!
