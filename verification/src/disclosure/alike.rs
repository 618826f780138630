//! Values that are tainted alike: of the same shape, and with witnesses at the
//! same places, whichever witnesses they are. All that the walk does with values
//! keeps them alike.

use vstd::prelude::*;

use crate::disclosure::abs::{
    all_witnesses, disclosed, joined, merged, tagged, with_point, with_witnesses, witnesses_upto,
    AbsView, PointView, WitnessView,
};
use crate::disclosure::abs_laws::{has_uid, law_merge_unites};
use crate::disclosure::leaks::SinkView;
use crate::disclosure::model::{
    all_bound, all_conduit_from, arg_point, arithmetic_exposure, bound, bound_names, built,
    callee_env, chosen, combined, conduit_from, element_at, element_of, element_patterns,
    elements_at, elements_of, indexed, init_for, joined_upto, merged_children, threaded, typed_abs,
    typed_elems, typed_fields, unroll_len_from, with_params, CircuitView, EnvView, St,
};
use crate::disclosure::tables::FlagsView;
use crate::kinds::{Class, IDENT, IDENT_PAT, STRUCT_PAT, TUPLE_PAT, TUPLE_PAT_ELT};
use crate::resolve::pattern_tokens;
use crate::syntax::{child_token, children, range_of, Tree};
use crate::text::TextRange;
use crate::ty::TyView;

verus! {

/// Whether both lists are empty or neither is.
pub open spec fn both_or_none(a: Seq<WitnessView>, b: Seq<WitnessView>) -> bool {
    (a.len() == 0) == (b.len() == 0)
}

/// Whether two values have the same shape and constants, and witnesses at the
/// same places.
pub open spec fn alike(a: AbsView, b: AbsView) -> bool
    decreases a,
{
    match (a, b) {
        (AbsView::Atomic(w1), AbsView::Atomic(w2)) => both_or_none(w1, w2),
        (
            AbsView::Boolean { value: t1, witnesses: w1 },
            AbsView::Boolean { value: t2, witnesses: w2 },
        ) => t1 == t2 && both_or_none(w1, w2),
        (AbsView::Multiple(a1), AbsView::Multiple(a2)) => a1.len() == a2.len() && forall|i: int|
            0 <= i < a1.len() ==> alike(#[trigger] a1[i], a2[i]),
        (AbsView::Single(a1), AbsView::Single(a2)) => alike(*a1, *a2),
        _ => false,
    }
}

/// Whether two lists hold values that are alike.
pub open spec fn all_alike(a: Seq<AbsView>, b: Seq<AbsView>) -> bool {
    a.len() == b.len() && forall|i: int| 0 <= i < a.len() ==> alike(#[trigger] a[i], b[i])
}

/// Whether two environments bind the same names to values that are alike.
#[verifier::opaque]
pub open spec fn envs_alike(a: EnvView, b: EnvView) -> bool {
    forall|name: Seq<char>|
        #![trigger a.contains_key(name)]
        #![trigger b.contains_key(name)]
        a.contains_key(name) == b.contains_key(name) && (a.contains_key(name) ==> alike(
            a[name],
            b[name],
        ))
}

pub(crate) proof fn lemma_merged_empty(a: Seq<WitnessView>, b: Seq<WitnessView>)
    ensures
        merged(a, b).len() == 0 <==> a.len() == 0 && b.len() == 0,
{
    let m = merged(a, b);
    if a.len() > 0 {
        law_merge_unites(a, b, a[0].uid);
        assert(has_uid(a, a[0].uid));
    }
    if b.len() > 0 {
        law_merge_unites(a, b, b[0].uid);
        assert(has_uid(b, b[0].uid));
    }
    if m.len() > 0 {
        law_merge_unites(a, b, m[0].uid);
        assert(has_uid(m, m[0].uid));
    }
}

proof fn lemma_upto_empty(items: Seq<AbsView>, n: int)
    requires
        0 <= n <= items.len(),
    ensures
        witnesses_upto(items, n).len() == 0 <==> forall|i: int|
            0 <= i < n ==> all_witnesses(#[trigger] items[i]).len() == 0,
    decreases n,
{
    if n > 0 {
        lemma_upto_empty(items, n - 1);
        lemma_merged_empty(witnesses_upto(items, n - 1), all_witnesses(items[n - 1]));
        if witnesses_upto(items, n).len() > 0 {
            if all_witnesses(items[n - 1]).len() == 0 {
                let i = choose|i: int|
                    0 <= i < n - 1 && all_witnesses(#[trigger] items[i]).len() != 0;
                assert(all_witnesses(items[i]).len() != 0);
            }
        }
    }
}

pub(crate) proof fn al_same(a: AbsView)
    ensures
        alike(a, a),
    decreases a,
{
    match a {
        AbsView::Multiple(items) => {
            assert forall|i: int| 0 <= i < items.len() implies alike(#[trigger] items[i], items[i]) by {
                al_same(items[i]);
            }
        },
        AbsView::Single(inner) => al_same(*inner),
        _ => {},
    }
}

pub(crate) proof fn al_sym(a: AbsView, b: AbsView)
    requires
        alike(a, b),
    ensures
        alike(b, a),
    decreases a,
{
    match (a, b) {
        (AbsView::Multiple(a1), AbsView::Multiple(a2)) => {
            assert forall|i: int| 0 <= i < a2.len() implies alike(#[trigger] a2[i], a1[i]) by {
                assert(alike(a1[i], a2[i]));
                al_sym(a1[i], a2[i]);
            }
        },
        (AbsView::Single(a1), AbsView::Single(a2)) => al_sym(*a1, *a2),
        _ => {},
    }
}

pub(crate) proof fn al_all(a: AbsView, b: AbsView)
    requires
        alike(a, b),
    ensures
        both_or_none(all_witnesses(a), all_witnesses(b)),
    decreases a,
{
    match (a, b) {
        (AbsView::Multiple(a1), AbsView::Multiple(a2)) => {
            lemma_upto_empty(a1, a1.len() as int);
            lemma_upto_empty(a2, a2.len() as int);
            assert forall|i: int| 0 <= i < a1.len() implies both_or_none(
                all_witnesses(#[trigger] a1[i]),
                all_witnesses(a2[i]),
            ) by {
                assert(alike(a1[i], a2[i]));
                al_all(a1[i], a2[i]);
            }
            if all_witnesses(a).len() > 0 {
                let i = choose|i: int|
                    0 <= i < a1.len() && all_witnesses(#[trigger] a1[i]).len() != 0;
                assert(all_witnesses(a2[i]).len() != 0);
            }
            if all_witnesses(b).len() > 0 {
                let i = choose|i: int|
                    0 <= i < a2.len() && all_witnesses(#[trigger] a2[i]).len() != 0;
                assert(all_witnesses(a1[i]).len() != 0);
            }
        },
        (AbsView::Single(a1), AbsView::Single(a2)) => al_all(*a1, *a2),
        _ => {},
    }
}

pub(crate) proof fn al_point(a: AbsView, b: AbsView, p: PointView, q: PointView)
    requires
        alike(a, b),
    ensures
        alike(with_point(a, p), with_point(b, q)),
    decreases a,
{
    match (a, b) {
        (AbsView::Multiple(a1), AbsView::Multiple(a2)) => {
            let x = with_point(a, p)->Multiple_0;
            let y = with_point(b, q)->Multiple_0;
            assert forall|i: int| 0 <= i < x.len() implies alike(#[trigger] x[i], y[i]) by {
                assert(alike(a1[i], a2[i]));
                al_point(a1[i], a2[i], p, q);
            }
        },
        (AbsView::Single(a1), AbsView::Single(a2)) => al_point(*a1, *a2, p, q),
        _ => {},
    }
}

pub(crate) proof fn al_witnesses(a: AbsView, b: AbsView, e: Seq<WitnessView>, f: Seq<WitnessView>)
    requires
        alike(a, b),
        both_or_none(e, f),
    ensures
        alike(with_witnesses(a, e), with_witnesses(b, f)),
    decreases a,
{
    match (a, b) {
        (AbsView::Atomic(w1), AbsView::Atomic(w2)) => {
            lemma_merged_empty(w1, e);
            lemma_merged_empty(w2, f);
        },
        (AbsView::Boolean { witnesses: w1, .. }, AbsView::Boolean { witnesses: w2, .. }) => {
            lemma_merged_empty(w1, e);
            lemma_merged_empty(w2, f);
        },
        (AbsView::Multiple(a1), AbsView::Multiple(a2)) => {
            let x = with_witnesses(a, e)->Multiple_0;
            let y = with_witnesses(b, f)->Multiple_0;
            assert forall|i: int| 0 <= i < x.len() implies alike(#[trigger] x[i], y[i]) by {
                assert(alike(a1[i], a2[i]));
                al_witnesses(a1[i], a2[i], e, f);
            }
        },
        (AbsView::Single(a1), AbsView::Single(a2)) => al_witnesses(*a1, *a2, e, f),
        _ => {},
    }
}

pub(crate) proof fn al_disclosed(a: AbsView, b: AbsView)
    requires
        alike(a, b),
    ensures
        alike(disclosed(a), disclosed(b)),
    decreases a,
{
    match (a, b) {
        (AbsView::Multiple(a1), AbsView::Multiple(a2)) => {
            let x = disclosed(a)->Multiple_0;
            let y = disclosed(b)->Multiple_0;
            assert forall|i: int| 0 <= i < x.len() implies alike(#[trigger] x[i], y[i]) by {
                assert(alike(a1[i], a2[i]));
                al_disclosed(a1[i], a2[i]);
            }
        },
        (AbsView::Single(a1), AbsView::Single(a2)) => al_disclosed(*a1, *a2),
        _ => {},
    }
}

pub(crate) proof fn al_joined(a: AbsView, b: AbsView, c: AbsView, d: AbsView)
    requires
        alike(a, c),
        alike(b, d),
    ensures
        alike(joined(a, b), joined(c, d)),
    decreases a, b,
{
    al_all(a, c);
    al_all(b, d);
    lemma_merged_empty(all_witnesses(a), all_witnesses(b));
    lemma_merged_empty(all_witnesses(c), all_witnesses(d));
    lemma_merged_empty(all_witnesses(b), all_witnesses(a));
    lemma_merged_empty(all_witnesses(d), all_witnesses(c));
    match (a, b) {
        (AbsView::Multiple(a1), AbsView::Multiple(b1)) => {
            let c1 = c->Multiple_0;
            let d1 = d->Multiple_0;
            let x = joined(a, b)->Multiple_0;
            let y = joined(c, d)->Multiple_0;
            assert forall|i: int| 0 <= i < x.len() implies alike(#[trigger] x[i], y[i]) by {
                assert(alike(a1[i], c1[i]));
                assert(alike(b1[i], d1[i]));
                al_joined(a1[i], b1[i], c1[i], d1[i]);
            }
        },
        (AbsView::Single(a1), AbsView::Single(b1)) => {
            al_joined(*a1, *b1, *(c->Single_0), *(d->Single_0));
        },
        (AbsView::Multiple(a1), AbsView::Single(b1)) => {
            let c1 = c->Multiple_0;
            let x = joined(a, b)->Multiple_0;
            let y = joined(c, d)->Multiple_0;
            assert forall|i: int| 0 <= i < x.len() implies alike(#[trigger] x[i], y[i]) by {
                assert(alike(a1[i], c1[i]));
                al_joined(a1[i], *b1, c1[i], *(d->Single_0));
            }
        },
        (AbsView::Single(a1), AbsView::Multiple(b1)) => {
            let d1 = d->Multiple_0;
            let x = joined(a, b)->Multiple_0;
            let y = joined(c, d)->Multiple_0;
            assert forall|i: int| 0 <= i < x.len() implies alike(#[trigger] x[i], y[i]) by {
                assert(alike(b1[i], d1[i]));
                al_joined(*a1, b1[i], *(c->Single_0), d1[i]);
            }
        },
        _ => {},
    }
}

pub(crate) proof fn al_joined_upto(a: Seq<AbsView>, b: Seq<AbsView>, n: int)
    requires
        all_alike(a, b),
        0 <= n <= a.len(),
    ensures
        alike(joined_upto(a, n), joined_upto(b, n)),
    decreases n,
{
    if n > 0 {
        al_joined_upto(a, b, n - 1);
        assert(alike(a[n - 1], b[n - 1]));
        al_joined(joined_upto(a, n - 1), a[n - 1], joined_upto(b, n - 1), b[n - 1]);
    }
}

pub(crate) proof fn al_element_of(a: AbsView, b: AbsView)
    requires
        alike(a, b),
    ensures
        alike(element_of(a), element_of(b)),
{
    match (a, b) {
        (AbsView::Multiple(a1), AbsView::Multiple(a2)) => {
            al_joined_upto(a1, a2, a1.len() as int);
        },
        _ => {},
    }
}

pub(crate) proof fn al_elements(a: Seq<AbsView>, b: Seq<AbsView>, i: int)
    requires
        all_alike(a, b),
    ensures
        all_alike(elements_of(a), elements_of(b)),
        all_alike(elements_at(a, i), elements_at(b, i)),
{
    let x = elements_of(a);
    let y = elements_of(b);
    assert forall|k: int| 0 <= k < x.len() implies alike(#[trigger] x[k], y[k]) by {
        assert(alike(a[k], b[k]));
        al_element_of(a[k], b[k]);
    }
    let u = elements_at(a, i);
    let v = elements_at(b, i);
    assert forall|k: int| 0 <= k < u.len() implies alike(#[trigger] u[k], v[k]) by {
        assert(alike(a[k], b[k]));
        assert(u[k] == element_at(a[k], i));
        assert(v[k] == element_at(b[k], i));
        match (a[k], b[k]) {
            (AbsView::Multiple(a1), AbsView::Multiple(a2)) => {
                if 0 <= i < a1.len() {
                    assert(alike(a1[i], a2[i]));
                }
            },
            _ => {},
        }
    }
}

pub(crate) proof fn al_unroll(a: Seq<AbsView>, b: Seq<AbsView>, k: int)
    requires
        all_alike(a, b),
        0 <= k,
    ensures
        unroll_len_from(a, k) == unroll_len_from(b, k),
    decreases a.len() - k,
{
    if k < a.len() {
        al_unroll(a, b, k + 1);
        assert(alike(a[k], b[k]));
    }
}

pub(crate) proof fn al_env_insert(e: EnvView, f: EnvView, name: Seq<char>, a: AbsView, b: AbsView)
    requires
        envs_alike(e, f),
        alike(a, b),
    ensures
        envs_alike(e.insert(name, a), f.insert(name, b)),
{
    reveal(envs_alike);
    let x = e.insert(name, a);
    let y = f.insert(name, b);
    assert forall|n: Seq<char>|
        #![trigger x.contains_key(n)]
        #![trigger y.contains_key(n)]
        x.contains_key(n) == y.contains_key(n) && (x.contains_key(n) ==> alike(x[n], y[n])) by {
        assert(e.contains_key(n) == f.contains_key(n));
    }
}

pub(crate) proof fn al_with_params(
    e: EnvView,
    f: EnvView,
    params: Seq<Option<Seq<char>>>,
    a: Seq<AbsView>,
    b: Seq<AbsView>,
    k: int,
)
    requires
        envs_alike(e, f),
        all_alike(a, b),
        0 <= k,
    ensures
        envs_alike(with_params(e, params, a, k), with_params(f, params, b, k)),
    decreases params.len() - k,
{
    if k < params.len() && k < a.len() {
        assert(alike(a[k], b[k]));
        match params[k] {
            Some(name) => {
                al_env_insert(e, f, name, a[k], b[k]);
                al_with_params(e.insert(name, a[k]), f.insert(name, b[k]), params, a, b, k + 1);
            },
            None => al_with_params(e, f, params, a, b, k + 1),
        }
    }
}

pub(crate) proof fn al_callee_env(
    e: EnvView,
    f: EnvView,
    callee: CircuitView,
    a: Seq<AbsView>,
    b: Seq<AbsView>,
    k: int,
    src1: TextRange,
    src2: TextRange,
)
    requires
        envs_alike(e, f),
        all_alike(a, b),
        0 <= k,
    ensures
        envs_alike(callee_env(e, callee, a, k, src1), callee_env(f, callee, b, k, src2)),
    decreases a.len() - k,
{
    if k < a.len() && k < callee.params.len() {
        assert(alike(a[k], b[k]));
        let p = arg_point(src1, callee.name, k, a.len(), Seq::empty());
        let q = arg_point(src2, callee.name, k, b.len(), Seq::empty());
        al_point(a[k], b[k], p, q);
        let x = with_point(a[k], p);
        let y = with_point(b[k], q);
        al_env_insert(e, f, callee.params[k], x, y);
        al_callee_env(
            e.insert(callee.params[k], x),
            f.insert(callee.params[k], y),
            callee,
            a,
            b,
            k + 1,
            src1,
            src2,
        );
    }
}

pub(crate) proof fn al_bound_names(
    t: Tree,
    e: EnvView,
    f: EnvView,
    toks: Seq<int>,
    k: int,
    a: Seq<WitnessView>,
    b: Seq<WitnessView>,
)
    requires
        envs_alike(e, f),
        both_or_none(a, b),
        0 <= k,
    ensures
        envs_alike(bound_names(t, e, toks, k, a), bound_names(t, f, toks, k, b)),
    decreases toks.len() - k,
{
    if k < toks.len() {
        let name = t[toks[k]].text;
        al_env_insert(e, f, name, AbsView::Atomic(a), AbsView::Atomic(b));
        al_bound_names(
            t,
            e.insert(name, AbsView::Atomic(a)),
            f.insert(name, AbsView::Atomic(b)),
            toks,
            k + 1,
            a,
            b,
        );
    }
}

pub(crate) proof fn al_bound(
    t: Tree,
    s1: SinkView,
    s2: SinkView,
    e: EnvView,
    f: EnvView,
    p: int,
    a: AbsView,
    b: AbsView,
)
    requires
        envs_alike(e, f),
        alike(a, b),
    ensures
        envs_alike(bound(t, s1, e, p, a).1, bound(t, s2, f, p, b).1),
        bound(t, s2, f, p, b).0.leaks == s2.leaks,
    decreases t.len() - p, 0int, 0int,
{
    if 0 <= p < t.len() {
        let kind = t[p].kind;
        al_all(a, b);
        if kind == IDENT_PAT {
            if let Some(x) = child_token(t, p, IDENT) {
                let point = PointView {
                    src: range_of(t, x),
                    description: "the binding of "@ + t[x].text,
                    exposure: Seq::empty(),
                };
                al_point(a, b, point, point);
                al_env_insert(e, f, t[x].text, with_point(a, point), with_point(b, point));
            }
        } else if kind == TUPLE_PAT {
            let pats = element_patterns(t, children(t, p, Class::Kind(TUPLE_PAT_ELT)), 0);
            if a is Multiple && a->Multiple_0.len() == pats.len() {
                al_all_bound(t, s1, s2, e, f, pats, 0, a->Multiple_0, b->Multiple_0, p);
            } else {
                al_bound_names(
                    t,
                    e,
                    f,
                    pattern_tokens(t, p),
                    0,
                    all_witnesses(a),
                    all_witnesses(b),
                );
            }
        } else if kind == STRUCT_PAT {
            al_bound_names(t, e, f, pattern_tokens(t, p), 0, all_witnesses(a), all_witnesses(b));
        }
    }
}

pub(crate) proof fn al_all_bound(
    t: Tree,
    s1: SinkView,
    s2: SinkView,
    e: EnvView,
    f: EnvView,
    pats: Seq<int>,
    k: int,
    a: Seq<AbsView>,
    b: Seq<AbsView>,
    after: int,
)
    requires
        envs_alike(e, f),
        all_alike(a, b),
        a.len() == pats.len(),
        0 <= k,
    ensures
        envs_alike(
            all_bound(t, s1, e, pats, k, a, after).1,
            all_bound(t, s2, f, pats, k, b, after).1,
        ),
        all_bound(t, s2, f, pats, k, b, after).0.leaks == s2.leaks,
    decreases t.len() - after - 1, 1int, pats.len() - k,
{
    if k < pats.len() && after < pats[k] < t.len() {
        assert(alike(a[k], b[k]));
        let x = bound(t, s1, e, pats[k], a[k]);
        let y = bound(t, s2, f, pats[k], b[k]);
        al_bound(t, s1, s2, e, f, pats[k], a[k], b[k]);
        al_all_bound(t, x.0, y.0, x.1, y.1, pats, k + 1, a, b, after);
    }
}

pub(crate) proof fn al_typed(
    s1: SinkView,
    s2: SinkView,
    ty: TyView,
    a: Seq<WitnessView>,
    b: Seq<WitnessView>,
)
    requires
        both_or_none(a, b),
    ensures
        alike(typed_abs(s1, ty, a).1, typed_abs(s2, ty, b).1),
        typed_abs(s2, ty, b).0.leaks == s2.leaks,
    decreases ty, 1int, 0int,
{
    match ty {
        TyView::Struct { fields, .. } => al_typed_fields(s1, s2, fields, 0, a, b),
        TyView::Tuple(elems) => al_typed_elems(s1, s2, elems, 0, a, b),
        TyView::Vector(_, elem) => al_typed(s1, s2, *elem, a, b),
        _ => {},
    }
}

pub(crate) proof fn al_typed_fields(
    s1: SinkView,
    s2: SinkView,
    fields: Seq<(Seq<char>, TyView)>,
    i: int,
    a: Seq<WitnessView>,
    b: Seq<WitnessView>,
)
    requires
        both_or_none(a, b),
    ensures
        all_alike(typed_fields(s1, fields, i, a).1, typed_fields(s2, fields, i, b).1),
        typed_fields(s2, fields, i, b).0.leaks == s2.leaks,
    decreases fields, 0int, fields.len() - i,
{
    if 0 <= i < fields.len() {
        let x = typed_abs(s1, fields[i].1, a);
        let y = typed_abs(s2, fields[i].1, b);
        al_typed(s1, s2, fields[i].1, a, b);
        al_typed_fields(x.0, y.0, fields, i + 1, a, b);
        al_cons(
            x.1,
            y.1,
            typed_fields(x.0, fields, i + 1, a).1,
            typed_fields(y.0, fields, i + 1, b).1,
        );
    }
}

pub(crate) proof fn al_typed_elems(
    s1: SinkView,
    s2: SinkView,
    elems: Seq<TyView>,
    i: int,
    a: Seq<WitnessView>,
    b: Seq<WitnessView>,
)
    requires
        both_or_none(a, b),
    ensures
        all_alike(typed_elems(s1, elems, i, a).1, typed_elems(s2, elems, i, b).1),
        typed_elems(s2, elems, i, b).0.leaks == s2.leaks,
    decreases elems, 0int, elems.len() - i,
{
    if 0 <= i < elems.len() {
        let x = typed_abs(s1, elems[i], a);
        let y = typed_abs(s2, elems[i], b);
        al_typed(s1, s2, elems[i], a, b);
        al_typed_elems(x.0, y.0, elems, i + 1, a, b);
        al_cons(
            x.1,
            y.1,
            typed_elems(x.0, elems, i + 1, a).1,
            typed_elems(y.0, elems, i + 1, b).1,
        );
    }
}

pub(crate) proof fn al_cons(a: AbsView, b: AbsView, r: Seq<AbsView>, s: Seq<AbsView>)
    requires
        alike(a, b),
        all_alike(r, s),
    ensures
        all_alike(seq![a] + r, seq![b] + s),
{
    let x = seq![a] + r;
    let y = seq![b] + s;
    assert forall|i: int| 0 <= i < x.len() implies alike(#[trigger] x[i], y[i]) by {
        if i > 0 {
            assert(alike(r[i - 1], s[i - 1]));
        }
    }
}

pub(crate) proof fn al_conduit(
    name: Seq<char>,
    flags: FlagsView,
    a: Seq<AbsView>,
    b: Seq<AbsView>,
    k: int,
    src: TextRange,
    f: Seq<WitnessView>,
    g: Seq<WitnessView>,
)
    requires
        all_alike(a, b),
        both_or_none(f, g),
        0 <= k,
    ensures
        both_or_none(
            conduit_from(name, flags, a, k, src, f),
            conduit_from(name, flags, b, k, src, g),
        ),
    decreases flags.len() - k,
{
    if k < flags.len() && k < a.len() {
        match flags[k] {
            Some(e) => {
                assert(alike(a[k], b[k]));
                let p = arg_point(src, name, k, flags.len(), e);
                al_point(a[k], b[k], p, p);
                al_all(with_point(a[k], p), with_point(b[k], p));
                let x = all_witnesses(with_point(a[k], p));
                let y = all_witnesses(with_point(b[k], p));
                lemma_merged_empty(f, x);
                lemma_merged_empty(g, y);
                al_conduit(name, flags, a, b, k + 1, src, merged(f, x), merged(g, y));
            },
            None => al_conduit(name, flags, a, b, k + 1, src, f, g),
        }
    }
}

pub(crate) proof fn al_all_conduit(
    name: Seq<char>,
    a: Seq<AbsView>,
    b: Seq<AbsView>,
    k: int,
    src: TextRange,
    f: Seq<WitnessView>,
    g: Seq<WitnessView>,
)
    requires
        all_alike(a, b),
        both_or_none(f, g),
        0 <= k,
    ensures
        both_or_none(
            all_conduit_from(name, a, k, src, f),
            all_conduit_from(name, b, k, src, g),
        ),
    decreases a.len() - k,
{
    if k < a.len() {
        assert(alike(a[k], b[k]));
        let p = arg_point(src, name, k, a.len(), Seq::empty());
        al_point(a[k], b[k], p, p);
        al_all(with_point(a[k], p), with_point(b[k], p));
        let x = all_witnesses(with_point(a[k], p));
        let y = all_witnesses(with_point(b[k], p));
        lemma_merged_empty(f, x);
        lemma_merged_empty(g, y);
        al_all_conduit(name, a, b, k + 1, src, merged(f, x), merged(g, y));
    }
}

pub(crate) proof fn al_threaded(
    a: AbsView,
    b: AbsView,
    c: Seq<WitnessView>,
    d: Seq<WitnessView>,
    src: TextRange,
)
    requires
        alike(a, b),
        both_or_none(c, d),
    ensures
        both_or_none(threaded(all_witnesses(a), c, src), threaded(all_witnesses(b), d, src)),
{
    al_all(a, b);
    let p = PointView {
        src,
        description: "the conditional branch"@,
        exposure: "the boolean value of"@,
    };
    lemma_merged_empty(tagged(all_witnesses(a), p), c);
    lemma_merged_empty(tagged(all_witnesses(b), p), d);
}

pub(crate) proof fn al_combined(
    s1: St,
    s2: St,
    op: Option<u16>,
    a: AbsView,
    b: AbsView,
    c: AbsView,
    d: AbsView,
    src: TextRange,
)
    requires
        alike(a, c),
        alike(b, d),
    ensures
        alike(combined(s1, op, a, b, src).1, combined(s2, op, c, d, src).1),
        combined(s2, op, c, d, src).0.sink.leaks == s2.sink.leaks,
        combined(s1, op, a, b, src).0.ret == s1.ret,
        combined(s2, op, c, d, src).0.ret == s2.ret,
{
    al_all(a, c);
    al_all(b, d);
    lemma_merged_empty(all_witnesses(a), all_witnesses(b));
    lemma_merged_empty(all_witnesses(c), all_witnesses(d));
    al_joined(a, b, c, d);
    let x = AbsView::Atomic(merged(all_witnesses(a), all_witnesses(b)));
    let y = AbsView::Atomic(merged(all_witnesses(c), all_witnesses(d)));
    let p = PointView {
        src,
        description: "the comparison"@,
        exposure: "the result of a comparison involving"@,
    };
    al_point(x, y, p, p);
    if let Some(k) = op {
        let q = PointView {
            src,
            description: "the computation"@,
            exposure: arithmetic_exposure(k),
        };
        al_point(joined(a, b), joined(c, d), q, q);
    }
}

pub(crate) proof fn al_chosen(
    a: AbsView,
    y1: AbsView,
    n1: AbsView,
    b: AbsView,
    y2: AbsView,
    n2: AbsView,
    src: TextRange,
)
    requires
        alike(a, b),
        alike(y1, y2),
        alike(n1, n2),
    ensures
        alike(chosen(a, y1, n1, src), chosen(b, y2, n2, src)),
{
    al_all(a, b);
    al_joined(y1, n1, y2, n2);
    let p = PointView {
        src,
        description: "the conditional expression"@,
        exposure: "the boolean value of"@,
    };
    let taken1 = match a {
        AbsView::Boolean { value, .. } => if value {
            y1
        } else {
            n1
        },
        _ => joined(y1, n1),
    };
    let taken2 = match b {
        AbsView::Boolean { value, .. } => if value {
            y2
        } else {
            n2
        },
        _ => joined(y2, n2),
    };
    assert(alike(taken1, taken2));
    al_witnesses(taken1, taken2, tagged(all_witnesses(a), p), tagged(all_witnesses(b), p));
}

pub(crate) proof fn al_merged_children(
    a: Seq<AbsView>,
    b: Seq<AbsView>,
    n: int,
    f: Seq<WitnessView>,
    g: Seq<WitnessView>,
)
    requires
        all_alike(a, b),
        both_or_none(f, g),
        0 <= n <= a.len(),
    ensures
        both_or_none(merged_children(a, n, f), merged_children(b, n, g)),
    decreases n,
{
    if n > 0 {
        al_merged_children(a, b, n - 1, f, g);
        assert(alike(a[n - 1], b[n - 1]));
        al_all(a[n - 1], b[n - 1]);
        lemma_merged_empty(merged_children(a, n - 1, f), all_witnesses(a[n - 1]));
        lemma_merged_empty(merged_children(b, n - 1, g), all_witnesses(b[n - 1]));
    }
}

pub(crate) proof fn al_indexed(
    s1: St,
    s2: St,
    a: AbsView,
    b: AbsView,
    f: Seq<WitnessView>,
    g: Seq<WitnessView>,
    src: TextRange,
)
    requires
        alike(a, b),
        both_or_none(f, g),
    ensures
        alike(indexed(s1, a, f, src).1, indexed(s2, b, g, src).1),
        indexed(s2, b, g, src).0.sink.leaks == s2.sink.leaks,
        indexed(s1, a, f, src).0.ret == s1.ret,
        indexed(s2, b, g, src).0.ret == s2.ret,
{
    match (a, b) {
        (AbsView::Single(x), AbsView::Single(y)) => {
            al_witnesses(*x, *y, f, g);
            let p = PointView {
                src,
                description: "the index"@,
                exposure: "the element selected by"@,
            };
            al_point(with_witnesses(*x, f), with_witnesses(*y, g), p, p);
        },
        (AbsView::Multiple(x), AbsView::Multiple(y)) => {
            al_merged_children(x, y, x.len() as int, f, g);
        },
        _ => {
            al_all(a, b);
            lemma_merged_empty(all_witnesses(a), f);
            lemma_merged_empty(all_witnesses(b), g);
        },
    }
}

/// Whether two lists of initializers name the same fields and give them values
/// that are alike.
pub open spec fn inits_alike(
    a: Seq<(Option<Seq<char>>, AbsView)>,
    b: Seq<(Option<Seq<char>>, AbsView)>,
) -> bool {
    a.len() == b.len() && forall|i: int|
        0 <= i < a.len() ==> (#[trigger] a[i]).0 == b[i].0 && alike(a[i].1, b[i].1)
}

pub(crate) proof fn al_init_for(
    a: Seq<(Option<Seq<char>>, AbsView)>,
    b: Seq<(Option<Seq<char>>, AbsView)>,
    k: int,
    name: Seq<char>,
)
    requires
        inits_alike(a, b),
        0 <= k,
    ensures
        alike(init_for(a, k, name), init_for(b, k, name)),
    decreases a.len() - k,
{
    if k < a.len() {
        assert(a[k].0 == b[k].0);
        al_init_for(a, b, k + 1, name);
    }
}

pub(crate) proof fn al_built(
    s1: St,
    s2: St,
    declared: TyView,
    a: Seq<(Option<Seq<char>>, AbsView)>,
    b: Seq<(Option<Seq<char>>, AbsView)>,
    src: TextRange,
)
    requires
        inits_alike(a, b),
    ensures
        alike(built(s1, declared, a, src).1, built(s2, declared, b, src).1),
        built(s2, declared, b, src).0.sink.leaks == s2.sink.leaks,
        built(s1, declared, a, src).0.ret == s1.ret,
        built(s2, declared, b, src).0.ret == s2.ret,
{
    let x = built(s1, declared, a, src).1->Multiple_0;
    let y = built(s2, declared, b, src).1->Multiple_0;
    assert(x.len() == y.len());
    assert forall|i: int| 0 <= i < x.len() implies alike(#[trigger] x[i], y[i]) by {
        match declared {
            TyView::Struct { fields, .. } => {
                al_init_for(a, b, 0, fields[i].0);
                assert(x[i] == init_for(a, 0, fields[i].0));
                assert(y[i] == init_for(b, 0, fields[i].0));
            },
            _ => {
                assert(a[i].0 == b[i].0);
                assert(x[i] == a[i].1 && y[i] == b[i].1);
            },
        }
    }
}

} // verus!
