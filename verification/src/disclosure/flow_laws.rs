//! Laws of how leaks and witnesses flow through statements and expressions.

use vstd::prelude::*;

use crate::disclosure::abs::{all_witnesses, merged, tagged, AbsView, PointView, WitnessView};
use crate::disclosure::abs_laws::{has_uid, law_merge_unites};
use crate::disclosure::leaks::{law_leaks_are_kept, law_recorded_leak_is_found, LeakView, SinkView};
use crate::disclosure::model::{
    ev, ev_list, ev_union, kid, returned, returned_only, run, run_block, run_if, solid_range,
    threaded, writes_ledger, EnvView, St, Walk,
};
use crate::disclosure::walk_laws::{
    kept_assigned, kept_block, kept_bound, kept_if, kept_list, kept_returned, kept_run,
    law_marking_keeps_witnesses, lemma_same, lemma_tagged, lemma_union_uids, sink_grown,
    some_has_uid, st_grown,
};
use crate::kinds::{
    in_class, Class, ASSERT_STMT, ASSIGN_STMT, BLOCK, CONST_STMT, EXPR_STMT, FOR_STMT, IDENT,
    IDENT_PAT, IF_STMT, MULTI_CONST_STMT, RETURN_STMT,
};
use crate::syntax::{
    child, child_token, children, lemma_node_from, lemma_nodes_from, range_of, well_formed, Tree,
};
use crate::text::TextRange;

verus! {

// ---------------------------------------------------------------------------
// Lists
// ---------------------------------------------------------------------------

/// Whether the elements `kids` all come after `after` in the tree.
pub open spec fn behind(t: Tree, kids: Seq<int>, after: int) -> bool {
    forall|i: int| 0 <= i < kids.len() ==> after < #[trigger] kids[i] < t.len()
}

pub(crate) proof fn lemma_children_behind(t: Tree, n: int, class: Class)
    requires
        well_formed(t),
        0 <= n < t.len(),
    ensures
        behind(t, children(t, n, class), n),
{
    lemma_nodes_from(t, n + 1, t[n].next, class);
}

pub(crate) proof fn lemma_kid(w: Walk, st: St, env: EnvView, control: Seq<WitnessView>, n: int, i: int)
    requires
        well_formed(w.t()),
        0 <= n < w.t().len(),
        0 <= i < children(w.t(), n, Class::Expr).len(),
    ensures
        kid(w, st, env, control, n, i) == ev(
            w,
            st,
            env,
            control,
            children(w.t(), n, Class::Expr)[i],
        ),
{
    lemma_children_behind(w.t(), n, Class::Expr);
    assert(n < children(w.t(), n, Class::Expr)[i] < w.t().len());
}

proof fn lemma_list_split(
    w: Walk,
    st: St,
    env: EnvView,
    control: Seq<WitnessView>,
    kids: Seq<int>,
    k: int,
    i: int,
    after: int,
)
    requires
        0 <= k <= i <= kids.len(),
        behind(w.t(), kids, after),
    ensures
        ({
            let u = ev_list(w, st, env, control, kids.take(i), k, after);
            let r = ev_list(w, u.0, env, control, kids, i, after);
            ev_list(w, st, env, control, kids, k, after) == (r.0, u.1 + r.1)
        }),
    decreases i - k,
{
    let all = ev_list(w, st, env, control, kids, k, after);
    if k < i {
        assert(kids.take(i)[k] == kids[k]);
        assert(after < kids[k] < w.t().len());
        let a = ev(w, st, env, control, kids[k]);
        lemma_list_split(w, a.0, env, control, kids, k + 1, i, after);
        let u = ev_list(w, a.0, env, control, kids.take(i), k + 1, after);
        let r = ev_list(w, u.0, env, control, kids, i, after);
        assert(seq![a.1] + (u.1 + r.1) =~= (seq![a.1] + u.1) + r.1);
    } else {
        assert(Seq::<AbsView>::empty() + all.1 =~= all.1);
    }
}

/// Expressions are walked in order: each from the state behind those before it,
/// each adds its value, and what it leaks is still there at the end.
pub proof fn law_expressions_are_walked_in_order(
    w: Walk,
    st: St,
    env: EnvView,
    control: Seq<WitnessView>,
    kids: Seq<int>,
    i: int,
    after: int,
)
    requires
        0 <= i < kids.len(),
        behind(w.t(), kids, after),
    ensures
        ({
            let before = ev_list(w, st, env, control, kids.take(i), 0, after);
            let all = ev_list(w, st, env, control, kids, 0, after);
            let x = ev(w, before.0, env, control, kids[i]);
            &&& i == 0 ==> before.0 == st
            &&& before.1.len() == i
            &&& ev_list(w, st, env, control, kids.take(i + 1), 0, after) == (
                x.0,
                before.1.push(x.1),
            )
            &&& all.1.len() == kids.len()
            &&& all.1[i] == x.1
            &&& sink_grown(x.0.sink, all.0.sink)
        }),
{
    let before = ev_list(w, st, env, control, kids.take(i), 0, after);
    let x = ev(w, before.0, env, control, kids[i]);
    let more = kids.take(i + 1);
    assert(more.take(i) =~= kids.take(i));
    assert(more[i] == kids[i]);
    assert forall|j: int| 0 <= j < more.len() implies after < #[trigger] more[j] < w.t().len() by {
        assert(more[j] == kids[j]);
    }
    lemma_list_split(w, st, env, control, more, 0, i, after);
    let r = ev_list(w, before.0, env, control, more, i, after);
    let rest = ev_list(w, x.0, env, control, more, i + 1, after);
    assert(rest == (x.0, Seq::<AbsView>::empty()));
    assert(r.1 =~= seq![x.1]);
    assert(before.1 + r.1 =~= before.1.push(x.1));
    lemma_list_split(w, st, env, control, kids, 0, i + 1, after);
    let tail = ev_list(w, x.0, env, control, kids, i + 1, after);
    lemma_list_len(w, st, env, control, kids.take(i), 0, after);
    lemma_list_len(w, x.0, env, control, kids, i + 1, after);
    kept_list(w, x.0, env, control, kids, i + 1, after);
    reveal(st_grown);
}

proof fn lemma_list_len(
    w: Walk,
    st: St,
    env: EnvView,
    control: Seq<WitnessView>,
    kids: Seq<int>,
    k: int,
    after: int,
)
    requires
        0 <= k <= kids.len(),
        behind(w.t(), kids, after),
    ensures
        ev_list(w, st, env, control, kids, k, after).1.len() == kids.len() - k,
    decreases kids.len() - k,
{
    if k < kids.len() {
        assert(after < kids[k] < w.t().len());
        let a = ev(w, st, env, control, kids[k]);
        lemma_list_len(w, a.0, env, control, kids, k + 1, after);
    }
}

proof fn lemma_block_split(
    w: Walk,
    st: St,
    env: EnvView,
    control: Seq<WitnessView>,
    kids: Seq<int>,
    k: int,
    i: int,
    after: int,
)
    requires
        0 <= k <= i <= kids.len(),
        behind(w.t(), kids, after),
    ensures
        ({
            let u = run_block(w, st, env, control, kids.take(i), k, after);
            run_block(w, st, env, control, kids, k, after) == run_block(
                w,
                u.0,
                u.1,
                control,
                kids,
                i,
                after,
            )
        }),
    decreases i - k,
{
    if k < i {
        assert(kids.take(i)[k] == kids[k]);
        assert(after < kids[k] < w.t().len());
        let a = run(w, st, env, control, kids[k]);
        lemma_block_split(w, a.0, a.1, control, kids, k + 1, i, after);
    }
}

/// The statements of a block run in order: each from the state and the names
/// behind those before it, and what it leaks is still there behind the block.
pub proof fn law_block_runs_its_statements(
    w: Walk,
    st: St,
    env: EnvView,
    control: Seq<WitnessView>,
    n: int,
    i: int,
)
    requires
        well_formed(w.t()),
        0 <= n < w.t().len(),
        w.t()[n].kind == BLOCK,
        0 <= i < children(w.t(), n, Class::Stmt).len(),
    ensures
        ({
            let kids = children(w.t(), n, Class::Stmt);
            let before = run_block(w, st, env, control, kids.take(i), 0, n);
            let x = run(w, before.0, before.1, control, kids[i]);
            &&& i == 0 ==> before == (st, env)
            &&& run_block(w, st, env, control, kids.take(i + 1), 0, n) == x
            &&& sink_grown(x.0.sink, run(w, st, env, control, n).0.sink)
            &&& i + 1 == kids.len() ==> run(w, st, env, control, n) == x
        }),
{
    let kids = children(w.t(), n, Class::Stmt);
    lemma_children_behind(w.t(), n, Class::Stmt);
    let before = run_block(w, st, env, control, kids.take(i), 0, n);
    let x = run(w, before.0, before.1, control, kids[i]);
    let more = kids.take(i + 1);
    assert(more.take(i) =~= kids.take(i));
    assert(more[i] == kids[i]);
    assert forall|j: int| 0 <= j < more.len() implies n < #[trigger] more[j] < w.t().len() by {
        assert(more[j] == kids[j]);
    }
    lemma_block_split(w, st, env, control, more, 0, i, n);
    assert(run_block(w, x.0, x.1, control, more, i + 1, n) == x);
    lemma_block_split(w, st, env, control, kids, 0, i + 1, n);
    kept_block(w, x.0, x.1, control, kids, i + 1, n);
    reveal(st_grown);
    if i + 1 == kids.len() {
        assert(run_block(w, x.0, x.1, control, kids, i + 1, n) == x);
    }
}

// ---------------------------------------------------------------------------
// Statements
// ---------------------------------------------------------------------------

/// An expression statement, an assertion and a statement of several constants
/// walk each of their expressions, in order; the names stay as they are.
pub proof fn law_expressions_of_a_statement_are_walked(
    w: Walk,
    st: St,
    env: EnvView,
    control: Seq<WitnessView>,
    n: int,
    i: int,
)
    requires
        well_formed(w.t()),
        0 <= n < w.t().len(),
        w.t()[n].kind == EXPR_STMT || w.t()[n].kind == ASSERT_STMT || w.t()[n].kind
            == MULTI_CONST_STMT || (w.t()[n].kind == ASSIGN_STMT && children(
            w.t(),
            n,
            Class::Expr,
        ).len() != 2),
        0 <= i < children(w.t(), n, Class::Expr).len(),
    ensures
        ({
            let kids = children(w.t(), n, Class::Expr);
            let start = if w.t()[n].kind == MULTI_CONST_STMT {
                st.advised(range_of(w.t(), n), "multi-const statement not modeled"@)
            } else {
                st
            };
            let before = ev_list(w, start, env, control, kids.take(i), 0, n).0;
            let r = run(w, st, env, control, n);
            &&& sink_grown(ev(w, before, env, control, kids[i]).0.sink, r.0.sink)
            &&& r.1 == env
        }),
{
    let kids = children(w.t(), n, Class::Expr);
    let start = if w.t()[n].kind == MULTI_CONST_STMT {
        st.advised(range_of(w.t(), n), "multi-const statement not modeled"@)
    } else {
        st
    };
    lemma_children_behind(w.t(), n, Class::Expr);
    law_expressions_are_walked_in_order(w, start, env, control, kids, i, n);
}

/// A constant is walked once, and its name is bound to its value: the witnesses
/// of the name are exactly those of the value. Other names keep what they had.
pub proof fn law_constant_is_bound(
    w: Walk,
    st: St,
    env: EnvView,
    control: Seq<WitnessView>,
    n: int,
    p: int,
    x: int,
    other: Seq<char>,
    uid: u32,
)
    requires
        well_formed(w.t()),
        0 <= n < w.t().len(),
        w.t()[n].kind == CONST_STMT,
        children(w.t(), n, Class::Expr).len() > 0,
        child(w.t(), n, Class::Pat) == Some(p),
        w.t()[p].kind == IDENT_PAT,
        child_token(w.t(), p, IDENT) == Some(x),
    ensures
        ({
            let value = ev(w, st, env, control, children(w.t(), n, Class::Expr)[0]);
            let r = run(w, st, env, control, n);
            let name = w.t()[x].text;
            &&& r.0 == value.0
            &&& r.1.contains_key(name)
            &&& has_uid(all_witnesses(r.1[name]), uid) <==> has_uid(all_witnesses(value.1), uid)
            &&& other != name ==> r.1.contains_key(other) == env.contains_key(other)
                && r.1[other] == env[other]
        }),
{
    lemma_children_behind(w.t(), n, Class::Expr);
    lemma_children_behind(w.t(), n, Class::Pat);
    lemma_node_from(w.t(), n + 1, w.t()[n].next, Class::Pat);
    let value = ev(w, st, env, control, children(w.t(), n, Class::Expr)[0]);
    lemma_kid(w, st, env, control, n, 0);
    let point = PointView {
        src: range_of(w.t(), x),
        description: "the binding of "@ + w.t()[x].text,
        exposure: Seq::empty(),
    };
    law_marking_keeps_witnesses(value.1, point, uid);
}

/// Whatever a constant is bound by, what its value leaks stays.
pub proof fn law_constant_is_walked(
    w: Walk,
    st: St,
    env: EnvView,
    control: Seq<WitnessView>,
    n: int,
)
    requires
        well_formed(w.t()),
        0 <= n < w.t().len(),
        w.t()[n].kind == CONST_STMT,
        children(w.t(), n, Class::Expr).len() > 0,
    ensures
        sink_grown(
            ev(w, st, env, control, children(w.t(), n, Class::Expr)[0]).0.sink,
            run(w, st, env, control, n).0.sink,
        ),
{
    lemma_children_behind(w.t(), n, Class::Expr);
    let value = ev(w, st, env, control, children(w.t(), n, Class::Expr)[0]);
    lemma_kid(w, st, env, control, n, 0);
    lemma_same(w.c, value.0);
    if let Some(p) = child(w.t(), n, Class::Pat) {
        kept_bound(w.t(), value.0.sink, env, p, value.1);
    }
    reveal(st_grown);
}

/// Whether the table has an entry for this place and nature with a witness of
/// this uid.
pub open spec fn leaks_at(leaks: Seq<LeakView>, src: TextRange, nature: Seq<char>, uid: u32) -> bool {
    exists|i: int|
        0 <= i < leaks.len() && (#[trigger] leaks[i]).src == src && leaks[i].nature == nature
            && has_uid(leaks[i].witnesses, uid)
}

/// A recorded leak is found at its place under its nature, with each of its
/// witnesses, and what was found before is still found.
pub proof fn law_recorded_leaks_are_found(
    st: St,
    src: TextRange,
    nature: Seq<char>,
    ws: Seq<WitnessView>,
    at: TextRange,
    kind: Seq<char>,
    uid: u32,
)
    ensures
        has_uid(ws, uid) ==> leaks_at(st.leaked(src, nature, ws).sink.leaks, src, nature, uid),
        leaks_at(st.sink.leaks, at, kind, uid) ==> leaks_at(
            st.leaked(src, nature, ws).sink.leaks,
            at,
            kind,
            uid,
        ),
{
    let out = st.leaked(src, nature, ws).sink.leaks;
    if has_uid(ws, uid) {
        law_recorded_leak_is_found(st.sink.leaks, src, nature, ws, uid);
        let i = choose|i: int|
            0 <= i < out.len() && (#[trigger] out[i]).src == src && out[i].nature == nature
                && has_uid(out[i].witnesses, uid);
        assert(out[i].src == src);
    }
    if leaks_at(st.sink.leaks, at, kind, uid) {
        let i = choose|i: int|
            0 <= i < st.sink.leaks.len() && (#[trigger] st.sink.leaks[i]).src == at
                && st.sink.leaks[i].nature == kind && has_uid(st.sink.leaks[i].witnesses, uid);
        law_leaks_are_kept(st.sink.leaks, src, nature, ws, i, uid);
        assert(out[i].src == at);
    }
}

/// What was found is still found in a sink that has grown.
pub proof fn law_found_leaks_stay(
    a: SinkView,
    b: SinkView,
    src: TextRange,
    nature: Seq<char>,
    uid: u32,
)
    requires
        sink_grown(a, b),
        leaks_at(a.leaks, src, nature, uid),
    ensures
        leaks_at(b.leaks, src, nature, uid),
{
    let i = choose|i: int|
        0 <= i < a.leaks.len() && (#[trigger] a.leaks[i]).src == src && a.leaks[i].nature == nature
            && has_uid(a.leaks[i].witnesses, uid);
    assert(b.leaks[i].src == src && b.leaks[i].nature == nature);
    assert(has_uid(b.leaks[i].witnesses, uid));
}

/// An assignment walks the assigned value. One to the ledger leaks each witness
/// of the value at the value, and each witness that controls the assignment at
/// the statement; one to anything else leaks no more than the value does.
pub proof fn law_assignment_leaks(
    w: Walk,
    st: St,
    env: EnvView,
    control: Seq<WitnessView>,
    n: int,
    uid: u32,
)
    requires
        well_formed(w.t()),
        0 <= n < w.t().len(),
        w.t()[n].kind == ASSIGN_STMT,
        children(w.t(), n, Class::Expr).len() == 2,
    ensures
        ({
            let kids = children(w.t(), n, Class::Expr);
            let value = ev(w, st, env, control, kids[1]);
            let r = run(w, st, env, control, n);
            &&& r.1 == env
            &&& sink_grown(value.0.sink, r.0.sink)
            &&& !writes_ledger(w.c, kids[0]) ==> r.0 == value.0
            &&& writes_ledger(w.c, kids[0]) && has_uid(all_witnesses(value.1), uid) ==> leaks_at(
                r.0.sink.leaks,
                solid_range(w.t(), kids[1]),
                "ledger operation"@,
                uid,
            )
            &&& writes_ledger(w.c, kids[0]) && has_uid(control, uid) ==> leaks_at(
                r.0.sink.leaks,
                range_of(w.t(), n),
                "performing this ledger operation"@,
                uid,
            )
        }),
{
    let t = w.t();
    let kids = children(t, n, Class::Expr);
    lemma_children_behind(t, n, Class::Expr);
    lemma_kid(w, st, env, control, n, 1);
    let value = ev(w, st, env, control, kids[1]);
    kept_assigned(w, value.0, control, n, kids[0], kids[1], value.1);
    reveal(st_grown);
    let src = solid_range(t, kids[1]);
    let done = "performing this ledger operation"@;
    let ws = all_witnesses(value.1);
    law_recorded_leaks_are_found(value.0, src, "ledger operation"@, ws, src, done, uid);
    let first = value.0.leaked(src, "ledger operation"@, ws);
    law_recorded_leaks_are_found(
        first,
        range_of(t, n),
        done,
        control,
        src,
        "ledger operation"@,
        uid,
    );
}

/// A witness that a witness function returned is kept when the others are left
/// out, and only such a witness is.
pub proof fn law_only_returned_witnesses_count(ws: Seq<WitnessView>, k: int, v: WitnessView)
    requires
        0 <= k <= ws.len(),
    ensures
        returned_only(ws, k).contains(v) <==> ws.skip(k).contains(v) && v.info is WitnessReturn,
    decreases ws.len() - k,
{
    if k < ws.len() {
        law_only_returned_witnesses_count(ws, k + 1, v);
        let rest = returned_only(ws, k + 1);
        let all = returned_only(ws, k);
        assert(ws.skip(k) =~= seq![ws[k]] + ws.skip(k + 1));
        let whole = ws.skip(k);
        if ws.skip(k + 1).contains(v) {
            let i = ws.skip(k + 1).index_of(v);
            assert(whole[i + 1] == v);
        }
        assert(whole[0] == ws[k]);
        if whole.contains(v) && v != ws[k] {
            let i = whole.index_of(v);
            assert(ws.skip(k + 1)[i - 1] == v);
        }
        if ws[k].info is WitnessReturn {
            assert(all == seq![ws[k]] + rest);
            assert(all[0] == ws[k]);
            if rest.contains(v) {
                let i = rest.index_of(v);
                assert(all[i + 1] == v);
            }
            if all.contains(v) && v != ws[k] {
                let i = all.index_of(v);
                assert(rest[i - 1] == v);
            }
        }
    }
}

/// A return statement walks its value. The witnesses of the value come back to
/// the caller, with those that came back before. Where an exported circuit is
/// walked, each result of a witness function in the value leaks at the value,
/// and each that controls the statement leaks at the statement.
pub proof fn law_return_leaks(
    w: Walk,
    st: St,
    env: EnvView,
    control: Seq<WitnessView>,
    n: int,
    v: WitnessView,
)
    requires
        well_formed(w.t()),
        0 <= n < w.t().len(),
        w.t()[n].kind == RETURN_STMT,
        children(w.t(), n, Class::Expr).len() > 0,
    ensures
        ({
            let kids = children(w.t(), n, Class::Expr);
            let value = ev(w, st, env, control, kids[0]);
            let r = run(w, st, env, control, n);
            &&& r.1 == env
            &&& sink_grown(value.0.sink, r.0.sink)
            &&& has_uid(r.0.ret, v.uid) <==> has_uid(value.0.ret, v.uid) || has_uid(
                all_witnesses(value.1),
                v.uid,
            )
            &&& w.f is None ==> r.0.sink == value.0.sink
            &&& w.f matches Some(f) ==> ({
                &&& all_witnesses(value.1).contains(v) && v.info is WitnessReturn ==> leaks_at(
                    r.0.sink.leaks,
                    solid_range(w.t(), kids[0]),
                    "the value returned from exported circuit "@ + f,
                    v.uid,
                )
                &&& control.contains(v) && v.info is WitnessReturn ==> leaks_at(
                    r.0.sink.leaks,
                    range_of(w.t(), n),
                    "returning this value from exported circuit "@ + f,
                    v.uid,
                )
            })
        }),
{
    let t = w.t();
    let kids = children(t, n, Class::Expr);
    lemma_children_behind(t, n, Class::Expr);
    lemma_kid(w, st, env, control, n, 0);
    let value = ev(w, st, env, control, kids[0]);
    kept_returned(w, value.0, control, n, kids[0], value.1);
    reveal(st_grown);
    let ws = all_witnesses(value.1);
    law_merge_unites(value.0.ret, ws, v.uid);
    if let Some(f) = w.f {
        let st1 = St { ret: merged(value.0.ret, ws), ..value.0 };
        let src = solid_range(t, kids[0]);
        let what = "the value returned from exported circuit "@ + f;
        let doing = "returning this value from exported circuit "@ + f;
        law_only_returned_witnesses_count(ws, 0, v);
        law_only_returned_witnesses_count(control, 0, v);
        assert(ws.skip(0) =~= ws);
        assert(control.skip(0) =~= control);
        let mine = returned_only(ws, 0);
        let ctl = returned_only(control, 0);
        if mine.contains(v) {
            assert(mine[mine.index_of(v)].uid == v.uid);
        }
        if ctl.contains(v) {
            assert(ctl[ctl.index_of(v)].uid == v.uid);
        }
        law_recorded_leaks_are_found(st1, src, what, mine, src, what, v.uid);
        law_recorded_leaks_are_found(
            st1.leaked(src, what, mine),
            range_of(t, n),
            doing,
            ctl,
            src,
            what,
            v.uid,
        );
    }
}

/// A branch is controlled by exactly the witnesses of its condition and by
/// those that control the place where it stands.
pub proof fn law_conditions_control(
    cond: Seq<WitnessView>,
    control: Seq<WitnessView>,
    src: TextRange,
    uid: u32,
)
    ensures
        has_uid(threaded(cond, control, src), uid) <==> has_uid(cond, uid) || has_uid(control, uid),
{
    let point = PointView {
        src,
        description: "the conditional branch"@,
        exposure: "the boolean value of"@,
    };
    lemma_tagged(cond, point, uid);
    law_merge_unites(tagged(cond, point), control, uid);
}

proof fn lemma_if_split(
    w: Walk,
    st: St,
    env: EnvView,
    control: Seq<WitnessView>,
    kids: Seq<int>,
    k: int,
    i: int,
    after: int,
    inner: Seq<WitnessView>,
)
    requires
        0 <= k <= i <= kids.len(),
        behind(w.t(), kids, after),
        forall|j: int|
            k <= j < kids.len() ==> !in_class(Class::Expr, w.t()[#[trigger] kids[j]].kind),
    ensures
        run_if(w, st, env, control, kids, k, after, inner) == run_if(
            w,
            run_if(w, st, env, control, kids.take(i), k, after, inner),
            env,
            control,
            kids,
            i,
            after,
            inner,
        ),
    decreases i - k,
{
    if k < i {
        assert(kids.take(i)[k] == kids[k]);
        assert(after < kids[k] < w.t().len());
        if in_class(Class::Stmt, w.t()[kids[k]].kind) {
            let a = run(w, st, env, inner, kids[k]);
            lemma_if_split(w, a.0, env, control, kids, k + 1, i, after, inner);
        } else {
            lemma_if_split(w, st, env, control, kids, k + 1, i, after, inner);
        }
    }
}

/// An `if` walks its condition and behind it each of its branches, whatever the
/// condition is, under the control of the condition. What a branch leaks is
/// still there behind the `if`; what it binds is not.
pub proof fn law_branches_are_walked(
    w: Walk,
    st: St,
    env: EnvView,
    control: Seq<WitnessView>,
    n: int,
    i: int,
)
    requires
        well_formed(w.t()),
        0 <= n < w.t().len(),
        w.t()[n].kind == IF_STMT,
        0 < i < children(w.t(), n, Class::Any).len(),
        in_class(Class::Expr, w.t()[children(w.t(), n, Class::Any)[0]].kind),
        forall|j: int|
            0 < j < children(w.t(), n, Class::Any).len() ==> !in_class(
                Class::Expr,
                w.t()[#[trigger] children(w.t(), n, Class::Any)[j]].kind,
            ),
        in_class(Class::Stmt, w.t()[children(w.t(), n, Class::Any)[i]].kind),
    ensures
        ({
            let kids = children(w.t(), n, Class::Any);
            let cond = ev(w, st, env, control, kids[0]);
            let inner = threaded(all_witnesses(cond.1), control, range_of(w.t(), n));
            let before = run_if(w, st, env, control, kids.take(i), 0, n, control);
            let x = run(w, before, env, inner, kids[i]);
            let r = run(w, st, env, control, n);
            &&& i == 1 ==> before == cond.0
            &&& run_if(w, st, env, control, kids.take(i + 1), 0, n, control) == x.0
            &&& sink_grown(cond.0.sink, r.0.sink)
            &&& sink_grown(x.0.sink, r.0.sink)
            &&& i + 1 == kids.len() ==> r.0 == x.0
            &&& r.1 == env
        }),
{
    let t = w.t();
    let kids = children(t, n, Class::Any);
    lemma_children_behind(t, n, Class::Any);
    assert(n < kids[0] < t.len());
    let cond = ev(w, st, env, control, kids[0]);
    let inner = threaded(all_witnesses(cond.1), control, range_of(t, n));
    let before = run_if(w, st, env, control, kids.take(i), 0, n, control);
    let some = kids.take(i);
    assert(some[0] == kids[0]);
    assert(before == run_if(w, cond.0, env, control, some, 1, n, inner));
    let whole = run_if(w, st, env, control, kids, 0, n, control);
    assert(whole == run_if(w, cond.0, env, control, kids, 1, n, inner));
    assert(run(w, st, env, control, n) == (whole, env));
    let x = run(w, before, env, inner, kids[i]);
    let more = kids.take(i + 1);
    assert(more.take(i) =~= some);
    assert(more[0] == kids[0] && more[i] == kids[i]);
    assert forall|j: int| 0 <= j < more.len() implies n < #[trigger] more[j] < t.len() by {
        assert(more[j] == kids[j]);
    }
    assert forall|j: int| 1 <= j < more.len() implies !in_class(
        Class::Expr,
        t[#[trigger] more[j]].kind,
    ) by {
        assert(more[j] == kids[j]);
    }
    lemma_if_split(w, cond.0, env, control, more, 1, i, n, inner);
    assert(run_if(w, x.0, env, control, more, i + 1, n, inner) == x.0);
    lemma_if_split(w, cond.0, env, control, kids, 1, i + 1, n, inner);
    kept_if(w, x.0, env, control, kids, i + 1, n, inner);
    kept_if(w, cond.0, env, control, kids, 1, n, inner);
    reveal(st_grown);
}

/// A loop walks the expressions of its range, and behind them its body, in
/// which the name of the loop has exactly the witnesses of the range. What they
/// leak is still there behind the loop; the name is not.
pub proof fn law_loop_body_is_walked(
    w: Walk,
    st: St,
    env: EnvView,
    control: Seq<WitnessView>,
    n: int,
    x: int,
    b: int,
) -> (ws: Seq<WitnessView>)
    requires
        well_formed(w.t()),
        0 <= n < w.t().len(),
        w.t()[n].kind == FOR_STMT,
        child_token(w.t(), n, IDENT) == Some(x),
        child(w.t(), n, Class::Kind(BLOCK)) == Some(b),
    ensures
        ({
            let start = st.advised(
                range_of(w.t(), n),
                "for loop not modeled (fixpoint deferred to A7)"@,
            );
            let range = ev_list(w, start, env, control, children(w.t(), n, Class::Expr), 0, n);
            let scope = env.insert(w.t()[x].text, AbsView::Atomic(ws));
            let body = run(w, range.0, scope, control, b);
            let r = run(w, st, env, control, n);
            &&& forall|uid: u32| #[trigger] has_uid(ws, uid) <==> some_has_uid(range.1, uid)
            &&& sink_grown(start.sink, range.0.sink)
            &&& sink_grown(range.0.sink, r.0.sink)
            &&& sink_grown(body.0.sink, r.0.sink)
            &&& r == (body.0, env)
        }),
{
    let t = w.t();
    let kids = children(t, n, Class::Expr);
    let start = st.advised(range_of(t, n), "for loop not modeled (fixpoint deferred to A7)"@);
    let r = ev_union(w, start, env, control, kids, 0, n, Seq::empty());
    let range = ev_list(w, start, env, control, kids, 0, n);
    assert forall|uid: u32| #[trigger] has_uid(r.1, uid) <==> some_has_uid(range.1, uid) by {
        lemma_union_uids(w, start, env, control, kids, 0, n, Seq::empty(), uid);
    }
    lemma_union_uids(w, start, env, control, kids, 0, n, Seq::empty(), 0);
    lemma_node_from(t, n + 1, t[n].next, Class::Kind(BLOCK));
    let scope = env.insert(t[x].text, AbsView::Atomic(r.1));
    let body = run(w, range.0, scope, control, b);
    kept_list(w, start, env, control, kids, 0, n);
    kept_run(w, range.0, scope, control, b);
    lemma_same(w.c, body.0);
    reveal(st_grown);
    r.1
}

/// Only a block and a constant change which names are bound.
pub proof fn law_other_statements_bind_nothing(
    w: Walk,
    st: St,
    env: EnvView,
    control: Seq<WitnessView>,
    n: int,
)
    requires
        0 <= n < w.t().len(),
        w.t()[n].kind != BLOCK,
        w.t()[n].kind != CONST_STMT,
    ensures
        run(w, st, env, control, n).1 == env,
        !in_class(Class::Stmt, w.t()[n].kind) ==> run(w, st, env, control, n).0 == st,
{
}

} // verus!
