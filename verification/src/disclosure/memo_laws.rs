//! What a second walk of a remembered call would find.
//!
//! Two walks of one body are compared: one that lies in the past, and one that
//! starts where all that the first has found is in the sink and all calls that it
//! walked are remembered. From arguments that are tainted alike the second comes
//! to a value that is tainted alike, and finds no leak at a new place.

use vstd::prelude::*;

use crate::calls::call_args;
use crate::db::CtxView;
use crate::disclosure::abs::{
    all_witnesses, joined, merged, with_point, AbsView, InfoView, WitnessView,
};
use crate::disclosure::abs_laws::has_uid;
use crate::disclosure::alike::{
    al_all, al_all_conduit, al_bound, al_built, al_callee_env, al_chosen, al_combined, al_conduit,
    al_cons, al_disclosed, al_elements, al_env_insert, al_indexed, al_joined, al_point, al_same,
    al_sym, al_threaded, al_typed, al_unroll, al_with_params, al_witnesses, alike, all_alike,
    both_or_none, envs_alike, inits_alike, lemma_merged_empty,
};
use crate::disclosure::leaks::{
    leak_index, law_recorded_leak_is_found, with_leak, LeakView, SinkView,
};
use crate::disclosure::model::{
    all_args_leaked, arg_leaked, arg_point, assigned, built, cached_from, callee_env, callee_of,
    circuit_def, combined, elements_at, elements_of, ev, ev_binary, ev_body, ev_call,
    ev_circuit_call, ev_index, ev_inits, ev_join, ev_list, ev_map, ev_member, ev_struct, ev_ternary,
    ev_union, ev_unmodelled, flagged_args_leaked, indexed, kid, lambda_of, lambda_params,
    ledger_op_done, map_unrolled, operator_from, projected, returned, run, run_block, run_if,
    run_returning, solid_range, threaded, unroll_len_from, with_params, writes_ledger, CallView,
    CalleeView, EnvView, St, Walk, MAX_CALL_DEPTH,
};
use crate::disclosure::tables::{ledger_flags, native_flags, FlagsView, LedgerOpView};
use crate::disclosure::walk_laws::{
    kept_all_args, kept_arg, kept_assigned, kept_block, kept_body, kept_bound, kept_built,
    kept_call, kept_combined, kept_ev, kept_flagged_args, kept_if, kept_indexed, kept_inits,
    kept_join, kept_kid, kept_ledger_op, kept_list, kept_map_unrolled, kept_returned,
    kept_returning, kept_run, kept_union, lemma_advised, lemma_cached, lemma_call_added,
    lemma_leaked, lemma_same, lemma_sink_grown_trans, lemma_sink_only, lemma_sink_same, lemma_trans,
    sink_grown, st_grown, walked_from,
};
use crate::kinds::{
    in_class, Class, AMP_AMP, ARRAY_EXPR, ASSERT_STMT, ASSIGN_STMT, BINARY_EXPR, BLOCK, BYTES_EXPR,
    CALL_EXPR, CAST_EXPR, CONST_STMT, DEFAULT_EXPR, DISCLOSE_EXPR, DOT, EXPR_STMT, FOLD_EXPR,
    FOR_STMT, IDENT, IF_STMT, INDEX_EXPR, LAMBDA_EXPR, LITERAL_EXPR, MAP_EXPR, MEMBER_EXPR,
    MULTI_CONST_STMT, NAME_EXPR, PAD_EXPR, PAREN_EXPR, PIPE_PIPE, RETURN_STMT, SLICE_EXPR,
    SPREAD_EXPR, STRUCT_EXPR, STRUCT_FIELD_INIT, STRUCT_UPDATE, TERNARY_EXPR, UNARY_EXPR,
};
use crate::syntax::{child, child_token, children, range_of, Tree};
use crate::text::TextRange;
use crate::ty::TyView;
use crate::typing::{named_type, resolved_type};
use crate::vfs::FileId;

verus! {

// ---------------------------------------------------------------------------
// Sinks and states
// ---------------------------------------------------------------------------

/// Whether the table has an entry for this place and nature.
pub open spec fn found(leaks: Seq<LeakView>, src: TextRange, nature: Seq<char>) -> bool {
    exists|i: int|
        0 <= i < leaks.len() && (#[trigger] leaks[i]).src == src && leaks[i].nature == nature
}

/// Whether sink `b` has a leak only where sink `a` has one of the same nature.
#[verifier::opaque]
spec fn no_new_leak(a: SinkView, b: SinkView) -> bool {
    forall|src: TextRange, nature: Seq<char>| #[trigger]
        found(b.leaks, src, nature) ==> found(a.leaks, src, nature)
}

/// The reason given where a call is not followed.
pub open spec fn cut_reason() -> Seq<char> {
    "recursive or deeply-nested circuit call not analyzed"@
}

/// Whether no call was cut for being recursive or too deep.
#[verifier::opaque]
pub open spec fn uncut(sink: SinkView) -> bool {
    forall|i: int|
        0 <= i < sink.advisories.len() ==> (#[trigger] sink.advisories[i]).reason != cut_reason()
}

/// Whether the tree has no fold. How often the body of a fold over an array is
/// walked depends on how many witnesses there are.
pub open spec fn without_folds(t: Tree) -> bool {
    forall|i: int| 0 <= i < t.len() ==> (#[trigger] t[i]).kind != FOLD_EXPR
}

/// The walk of the body for call `e` from state `st` in walk `w`.
pub open spec fn call_walk(c: CtxView, e: CallView, w: Walk, st: St, src: TextRange) -> (
    St,
    AbsView,
) {
    let callee = circuit_def(c, e.file, e.symbol)->0;
    ev_body(w, st, callee_env(Map::empty(), callee, e.args, 0, src), e.control, callee.body)
}

/// Whether remembered call `i` was walked from state `st` in walk `w`, before
/// any call behind it was remembered.
pub open spec fn logged_from(
    c: CtxView,
    sink: SinkView,
    cache: Seq<CallView>,
    i: int,
    w: Walk,
    st: St,
    src: TextRange,
) -> bool {
    walked_from(c, cache[i], sink, w, st, src) && call_walk(c, cache[i], w, st, src).0.cache
        == cache.take(i)
}

/// Whether remembered call `i` was walked when the calls before it were
/// remembered, and all that its walk found is in `sink`.
pub open spec fn was_logged(c: CtxView, sink: SinkView, cache: Seq<CallView>, i: int) -> bool {
    exists|w: Walk, st: St, src: TextRange| #[trigger]
        logged_from(c, sink, cache, i, w, st, src)
}

/// Whether every remembered call was.
pub open spec fn all_logged(c: CtxView, sink: SinkView, cache: Seq<CallView>) -> bool {
    forall|i: int| 0 <= i < cache.len() ==> #[trigger] was_logged(c, sink, cache, i)
}

/// Whether two calls go to one circuit with arguments that are tainted alike,
/// under control that is.
pub open spec fn calls_alike(a: CallView, b: CallView) -> bool {
    a.file == b.file && a.symbol == b.symbol && all_alike(a.args, b.args) && both_or_none(
        a.control,
        b.control,
    )
}

/// Whether calls that are alike are remembered with results that are.
pub open spec fn consistent(cache: Seq<CallView>) -> bool {
    forall|i: int, j: int|
        #![trigger cache[i], cache[j]]
        0 <= i < cache.len() && 0 <= j < cache.len() && calls_alike(cache[i], cache[j]) ==> alike(
            cache[i].result,
            cache[j].result,
        )
}

/// Whether the remembered calls are sound: every one was walked, and calls that
/// are alike came to results that are.
#[verifier::opaque]
pub open spec fn sound_memory(c: CtxView, sink: SinkView, cache: Seq<CallView>) -> bool {
    all_logged(c, sink, cache) && consistent(cache)
}

/// Whether all that one state holds is in another.
#[verifier::opaque]
spec fn held(a: SinkView, a_calls: Seq<CallView>, b: SinkView, b_calls: Seq<CallView>) -> bool {
    sink_grown(a, b) && a_calls.is_prefix_of(b_calls)
}

spec fn past(a: St, b: St) -> bool {
    held(a.sink, a.cache, b.sink, b.cache)
}

spec fn good(c: CtxView, st: St) -> bool {
    sound_memory(c, st.sink, st.cache)
}

/// Whether no call behind position `k` is to a circuit on the path of calls.
#[verifier::opaque]
spec fn fresh(active: Seq<(FileId, u32)>, k: int, cache: Seq<CallView>) -> bool {
    forall|i: int|
        #![trigger cache[i]]
        k <= i < cache.len() ==> !active.contains((cache[i].file, cache[i].symbol))
}

spec fn steady(w: Walk, a: St, b: St) -> bool {
    st_grown(w.c, a, b) && good(w.c, b) && fresh(w.active, a.cache.len() as int, b.cache)
}

/// What two walks have in common where they start.
spec fn both_start(
    w1: Walk,
    st1: St,
    env1: EnvView,
    ct1: Seq<WitnessView>,
    w2: Walk,
    st2: St,
    env2: EnvView,
    ct2: Seq<WitnessView>,
) -> bool {
    &&& w1.c == w2.c
    &&& w1.f is None
    &&& w2.f is None
    &&& envs_alike(env1, env2)
    &&& both_or_none(ct1, ct2)
    &&& both_or_none(st1.ret, st2.ret)
    &&& good(w2.c, st2)
    &&& without_folds(w2.t())
}

/// What the later walk, from `s` to `b`, leaves where the earlier ended in `a`.
spec fn quiet(a: St, s: St, b: St) -> bool {
    no_new_leak(s.sink, b.sink) && both_or_none(a.ret, b.ret)
}

spec fn opt_alike(a: Option<AbsView>, b: Option<AbsView>) -> bool {
    match (a, b) {
        (Some(x), Some(y)) => alike(x, y),
        (None, None) => true,
        _ => false,
    }
}

proof fn nn_same(a: SinkView, b: SinkView)
    requires
        a.leaks == b.leaks,
    ensures
        no_new_leak(a, b),
{
    reveal(no_new_leak);
}

proof fn nn_trans(a: SinkView, b: SinkView, c: SinkView)
    requires
        no_new_leak(a, b),
        no_new_leak(b, c),
    ensures
        no_new_leak(a, c),
{
    reveal(no_new_leak);
}

proof fn lemma_uncut_before(a: SinkView, b: SinkView)
    requires
        sink_grown(a, b),
        uncut(b),
    ensures
        uncut(a),
{
    reveal(uncut);
    assert forall|i: int|
        #![trigger a.advisories[i]]
        0 <= i < a.advisories.len() implies a.advisories[i].reason != cut_reason() by {
        assert(b.advisories[i] == a.advisories[i]);
    }
}

proof fn st_back(c: CtxView, a: St, b: St)
    requires
        st_grown(c, a, b),
        uncut(b.sink),
    ensures
        uncut(a.sink),
{
    reveal(st_grown);
    lemma_uncut_before(a.sink, b.sink);
}

proof fn past_uncut(a: St, b: St)
    requires
        past(a, b),
        uncut(b.sink),
    ensures
        uncut(a.sink),
{
    reveal(held);
    lemma_uncut_before(a.sink, b.sink);
}

proof fn lemma_cut_shows(st: St, src: TextRange)
    ensures
        !uncut(st.advised(src, cut_reason()).sink),
{
    reveal(uncut);
    let r = st.advised(src, cut_reason()).sink;
    assert(r.advisories[st.sink.advisories.len() as int].reason == cut_reason());
}

proof fn past_trans(c: CtxView, a: St, b: St, s: St, t: St)
    requires
        st_grown(c, a, b),
        past(b, s),
        st_grown(c, s, t),
    ensures
        past(a, t),
{
    reveal(st_grown);
    reveal(held);
    lemma_sink_grown_trans(a.sink, b.sink, s.sink);
    lemma_sink_grown_trans(a.sink, s.sink, t.sink);
    assert(a.cache =~= t.cache.take(a.cache.len() as int));
}

/// Two steps of two walks: what holds between the walks after both steps holds
/// after the first, and where the second starts.
proof fn link(c: CtxView, a1: St, a2: St, s: St, b1: St, b2: St)
    requires
        st_grown(c, a1, a2),
        st_grown(c, s, b1),
        st_grown(c, b1, b2),
        past(a2, s),
        uncut(b2.sink),
    ensures
        past(a1, s),
        past(a2, b1),
        uncut(b1.sink),
{
    lemma_same(c, s);
    lemma_same(c, a2);
    past_trans(c, a1, a2, s, s);
    past_trans(c, a2, a2, s, b1);
    st_back(c, b1, b2);
}

proof fn steady_same(w: Walk, a: St)
    requires
        good(w.c, a),
    ensures
        steady(w, a, a),
{
    lemma_same(w.c, a);
    reveal(fresh);
}

proof fn steady_trans(w: Walk, a: St, b: St, d: St)
    requires
        steady(w, a, b),
        steady(w, b, d),
    ensures
        steady(w, a, d),
{
    lemma_trans(w.c, a, b, d);
    reveal(fresh);
    reveal(st_grown);
    assert forall|i: int|
        #![trigger d.cache[i]]
        a.cache.len() <= i < d.cache.len() implies !w.active.contains(
        (d.cache[i].file, d.cache[i].symbol),
    ) by {
        if i < b.cache.len() {
            assert(d.cache[i] == b.cache[i]);
        }
    }
}

proof fn lemma_sound_later(c: CtxView, cache: Seq<CallView>, a: SinkView, b: SinkView)
    requires
        sound_memory(c, a, cache),
        sink_grown(a, b),
    ensures
        sound_memory(c, b, cache),
{
    reveal(sound_memory);
    assert forall|i: int| 0 <= i < cache.len() implies #[trigger] was_logged(c, b, cache, i) by {
        assert(was_logged(c, a, cache, i));
        let (w, st, src) = choose|w: Walk, st: St, src: TextRange| #[trigger]
            logged_from(c, a, cache, i, w, st, src);
        lemma_sink_grown_trans(call_walk(c, cache[i], w, st, src).0.sink, a, b);
        assert(logged_from(c, b, cache, i, w, st, src));
    }
}

proof fn steady_on(w: Walk, a: St, b: St, d: St)
    requires
        steady(w, a, b),
        st_grown(w.c, b, d),
        b.cache == d.cache,
    ensures
        steady(w, a, d),
{
    lemma_trans(w.c, a, b, d);
    reveal(st_grown);
    lemma_sound_later(w.c, b.cache, b.sink, d.sink);
}

proof fn lemma_leak_keys(
    leaks: Seq<LeakView>,
    src: TextRange,
    nature: Seq<char>,
    ws: Seq<WitnessView>,
    s: TextRange,
    n: Seq<char>,
)
    requires
        found(with_leak(leaks, src, nature, ws), s, n),
    ensures
        found(leaks, s, n) || (s == src && n == nature && ws.len() > 0),
{
    let r = with_leak(leaks, src, nature, ws);
    let i = choose|i: int| 0 <= i < r.len() && (#[trigger] r[i]).src == s && r[i].nature == n;
    let k = leak_index(leaks, 0, src, nature);
    if ws.len() > 0 {
        if k < leaks.len() {
            lemma_leak_index_at_least(leaks, 0, src, nature);
            assert(leaks[i].src == s && leaks[i].nature == n);
        } else if i < leaks.len() {
            assert(leaks[i].src == s && leaks[i].nature == n);
        }
    } else {
        assert(leaks[i].src == s && leaks[i].nature == n);
    }
}

proof fn lemma_leak_index_at_least(
    leaks: Seq<LeakView>,
    i: int,
    src: TextRange,
    nature: Seq<char>,
)
    requires
        0 <= i,
    ensures
        leak_index(leaks, i, src, nature) >= 0,
    decreases leaks.len() - i,
{
    if i < leaks.len() {
        lemma_leak_index_at_least(leaks, i + 1, src, nature);
    }
}

/// A leak that the earlier walk recorded as well is none at a new place.
proof fn pr_leaked(
    a: St,
    b: St,
    src: TextRange,
    nature: Seq<char>,
    ws1: Seq<WitnessView>,
    ws2: Seq<WitnessView>,
)
    requires
        both_or_none(ws1, ws2),
        past(a.leaked(src, nature, ws1), b),
    ensures
        no_new_leak(b.sink, b.leaked(src, nature, ws2).sink),
{
    reveal(no_new_leak);
    reveal(held);
    let r = b.leaked(src, nature, ws2).sink;
    assert forall|s: TextRange, n: Seq<char>| #[trigger] found(r.leaks, s, n) implies found(
        b.sink.leaks,
        s,
        n,
    ) by {
        lemma_leak_keys(b.sink.leaks, src, nature, ws2, s, n);
        if !found(b.sink.leaks, s, n) {
            let first = a.leaked(src, nature, ws1).sink.leaks;
            assert(has_uid(ws1, ws1[0].uid));
            law_recorded_leak_is_found(a.sink.leaks, src, nature, ws1, ws1[0].uid);
            let i = choose|i: int|
                0 <= i < first.len() && (#[trigger] first[i]).src == src && first[i].nature
                    == nature;
            assert(b.sink.leaks[i].src == src && b.sink.leaks[i].nature == nature);
        }
    }
}

proof fn pr_all_args(
    c: CtxView,
    a: St,
    b: St,
    op: Seq<char>,
    x: Seq<AbsView>,
    y: Seq<AbsView>,
    k: int,
    src: TextRange,
)
    requires
        all_alike(x, y),
        0 <= k,
        past(all_args_leaked(a, op, x, k, src), b),
    ensures
        no_new_leak(b.sink, all_args_leaked(b, op, y, k, src).sink),
        all_args_leaked(a, op, x, k, src).ret == a.ret,
        all_args_leaked(b, op, y, k, src).ret == b.ret,
    decreases x.len() - k,
{
    if k < x.len() {
        let a1 = arg_leaked(a, op, k, x.len(), Seq::empty(), x[k], src);
        let b1 = arg_leaked(b, op, k, y.len(), Seq::empty(), y[k], src);
        let last = all_args_leaked(a1, op, x, k + 1, src);
        kept_all_args(c, a1, op, x, k + 1, src);
        kept_arg(c, b, op, k, y.len(), Seq::empty(), y[k], src);
        pr_arg(c, a, a1, last, b, op, k, x.len(), Seq::empty(), x[k], y[k], src);
        pr_all_args(c, a1, b1, op, x, y, k + 1, src);
        nn_trans(b.sink, b1.sink, all_args_leaked(b1, op, y, k + 1, src).sink);
    } else {
        nn_same(b.sink, b.sink);
    }
}

proof fn pr_arg(
    c: CtxView,
    a: St,
    a1: St,
    last: St,
    b: St,
    op: Seq<char>,
    k: int,
    count: nat,
    exposure: Seq<char>,
    x: AbsView,
    y: AbsView,
    src: TextRange,
)
    requires
        alike(x, y),
        a1 == arg_leaked(a, op, k, count, exposure, x, src),
        st_grown(c, a1, last),
        past(last, b),
    ensures
        no_new_leak(b.sink, arg_leaked(b, op, k, count, exposure, y, src).sink),
        past(last, arg_leaked(b, op, k, count, exposure, y, src)),
{
    lemma_same(c, b);
    lemma_same(c, last);
    past_trans(c, a1, last, b, b);
    kept_arg(c, b, op, k, count, exposure, y, src);
    past_trans(c, last, last, b, arg_leaked(b, op, k, count, exposure, y, src));
    let p = arg_point(src, op, k, count, exposure);
    al_point(x, y, p, p);
    al_all(with_point(x, p), with_point(y, p));
    pr_leaked(
        a,
        b,
        src,
        "ledger operation"@,
        all_witnesses(with_point(x, p)),
        all_witnesses(with_point(y, p)),
    );
}

proof fn pr_flagged_args(
    c: CtxView,
    a: St,
    b: St,
    op: Seq<char>,
    flags: FlagsView,
    x: Seq<AbsView>,
    y: Seq<AbsView>,
    k: int,
    src: TextRange,
)
    requires
        all_alike(x, y),
        0 <= k,
        past(flagged_args_leaked(a, op, flags, x, k, src), b),
    ensures
        no_new_leak(b.sink, flagged_args_leaked(b, op, flags, y, k, src).sink),
        flagged_args_leaked(a, op, flags, x, k, src).ret == a.ret,
        flagged_args_leaked(b, op, flags, y, k, src).ret == b.ret,
    decreases flags.len() - k,
{
    if k < flags.len() && k < x.len() {
        match flags[k] {
            Some(e) => {
                let a1 = arg_leaked(a, op, k, flags.len(), e, x[k], src);
                let b1 = arg_leaked(b, op, k, flags.len(), e, y[k], src);
                let last = flagged_args_leaked(a1, op, flags, x, k + 1, src);
                kept_flagged_args(c, a1, op, flags, x, k + 1, src);
                assert(alike(x[k], y[k]));
                pr_arg(c, a, a1, last, b, op, k, flags.len(), e, x[k], y[k], src);
                pr_flagged_args(c, a1, b1, op, flags, x, y, k + 1, src);
                nn_trans(
                    b.sink,
                    b1.sink,
                    flagged_args_leaked(b1, op, flags, y, k + 1, src).sink,
                );
            },
            None => pr_flagged_args(c, a, b, op, flags, x, y, k + 1, src),
        }
    } else {
        nn_same(b.sink, b.sink);
    }
}

proof fn pr_ledger_op(
    w1: Walk,
    a: St,
    ct1: Seq<WitnessView>,
    w2: Walk,
    b: St,
    ct2: Seq<WitnessView>,
    n: int,
    name: Seq<char>,
    x: Seq<AbsView>,
    y: Seq<AbsView>,
    src: TextRange,
)
    requires
        w1.c == w2.c,
        both_or_none(ct1, ct2),
        all_alike(x, y),
        past(ledger_op_done(w1, a, ct1, n, name, x, src), b),
    ensures
        no_new_leak(b.sink, ledger_op_done(w2, b, ct2, n, name, y, src).sink),
        ledger_op_done(w1, a, ct1, n, name, x, src).ret == a.ret,
        ledger_op_done(w2, b, ct2, n, name, y, src).ret == b.ret,
{
    let c = w2.c;
    let done = "performing this ledger operation"@;
    let a1 = a.leaked(src, done, ct1);
    let b1 = b.leaked(src, done, ct2);
    let on_ledger = match crate::calls::call_receiver(w2.t(), n) {
        Some(r) => writes_ledger(w2.c, r),
        None => false,
    };
    lemma_same(c, b);
    lemma_leaked(c, b, src, done, ct2);
    if !on_ledger && ledger_flags(name) is None {
        nn_same(b.sink, ledger_op_done(w2, b, ct2, n, name, y, src).sink);
    } else {
        match ledger_flags(name) {
            Some(LedgerOpView::PerArg(flags)) => {
                let last = flagged_args_leaked(a1, name, flags, x, 0, src);
                kept_flagged_args(c, a1, name, flags, x, 0, src);
                lemma_same(c, last);
                past_trans(c, a1, last, b, b);
                past_trans(c, last, last, b, b1);
                pr_leaked(a, b, src, done, ct1, ct2);
                pr_flagged_args(c, a1, b1, name, flags, x, y, 0, src);
                nn_trans(
                    b.sink,
                    b1.sink,
                    flagged_args_leaked(b1, name, flags, y, 0, src).sink,
                );
            },
            _ => {
                let last = all_args_leaked(a1, name, x, 0, src);
                let reason = "unknown ledger op `"@ + name
                    + "`; leaking all witness args (fail-closed, may be stale)"@;
                kept_all_args(c, a1, name, x, 0, src);
                lemma_same(c, last);
                lemma_advised(c, last, src, reason);
                if ledger_flags(name) is None {
                    past_trans(c, last, last.advised(src, reason), b, b);
                }
                past_trans(c, a1, last, b, b);
                past_trans(c, last, last, b, b1);
                pr_leaked(a, b, src, done, ct1, ct2);
                pr_all_args(c, a1, b1, name, x, y, 0, src);
                let all = all_args_leaked(b1, name, y, 0, src);
                nn_trans(b.sink, b1.sink, all.sink);
                nn_same(all.sink, all.advised(src, reason).sink);
                nn_trans(b.sink, all.sink, all.advised(src, reason).sink);
            },
        }
    }
}

proof fn lemma_all_args_calls(st: St, op: Seq<char>, args: Seq<AbsView>, k: int, src: TextRange)
    ensures
        all_args_leaked(st, op, args, k, src).cache == st.cache,
    decreases args.len() - k,
{
    if 0 <= k < args.len() {
        lemma_all_args_calls(
            arg_leaked(st, op, k, args.len(), Seq::empty(), args[k], src),
            op,
            args,
            k + 1,
            src,
        );
    }
}

proof fn lemma_flagged_args_calls(
    st: St,
    op: Seq<char>,
    flags: FlagsView,
    args: Seq<AbsView>,
    k: int,
    src: TextRange,
)
    ensures
        flagged_args_leaked(st, op, flags, args, k, src).cache == st.cache,
    decreases flags.len() - k,
{
    if 0 <= k < flags.len() && k < args.len() {
        let next = match flags[k] {
            Some(e) => arg_leaked(st, op, k, flags.len(), e, args[k], src),
            None => st,
        };
        lemma_flagged_args_calls(next, op, flags, args, k + 1, src);
    }
}

proof fn lemma_ledger_op_calls(
    w: Walk,
    st: St,
    control: Seq<WitnessView>,
    n: int,
    name: Seq<char>,
    args: Seq<AbsView>,
    src: TextRange,
)
    ensures
        ledger_op_done(w, st, control, n, name, args, src).cache == st.cache,
{
    let st1 = st.leaked(src, "performing this ledger operation"@, control);
    lemma_all_args_calls(st1, name, args, 0, src);
    if let Some(LedgerOpView::PerArg(flags)) = ledger_flags(name) {
        lemma_flagged_args_calls(st1, name, flags, args, 0, src);
    }
}

// ---------------------------------------------------------------------------
// Two walks
// ---------------------------------------------------------------------------

// The lemmas `pr_*` compare an earlier walk of a form with a later one. The
// lemmas `cn_*` show of one walk of it that the memory stays sound, and that no
// call to a circuit on the path of calls is remembered.

proof fn pr_kid(
    w1: Walk,
    st1: St,
    env1: EnvView,
    ct1: Seq<WitnessView>,
    w2: Walk,
    st2: St,
    env2: EnvView,
    ct2: Seq<WitnessView>,
    n: int,
    i: int,
)
    requires
        both_start(w1, st1, env1, ct1, w2, st2, env2, ct2),
        past(kid(w1, st1, env1, ct1, n, i).0, st2),
        uncut(kid(w2, st2, env2, ct2, n, i).0.sink),
    ensures
        quiet(kid(w1, st1, env1, ct1, n, i).0, st2, kid(w2, st2, env2, ct2, n, i).0),
        alike(kid(w1, st1, env1, ct1, n, i).1, kid(w2, st2, env2, ct2, n, i).1),
    decreases MAX_CALL_DEPTH - w2.depth, w2.t().len() - n, 4int, 0int,
{
    let kids = children(w2.t(), n, Class::Expr);
    nn_same(st2.sink, st2.sink);
    if 0 <= i < kids.len() && n < kids[i] < w2.t().len() {
        pr_ev(w1, st1, env1, ct1, w2, st2, env2, ct2, kids[i]);
    }
}

proof fn cn_kid(
    w: Walk,
    st: St,
    env: EnvView,
    control: Seq<WitnessView>,
    n: int,
    i: int,
)
    requires
        good(w.c, st),
        without_folds(w.t()),
        uncut(kid(w, st, env, control, n, i).0.sink),
    ensures
        steady(w, st, kid(w, st, env, control, n, i).0),
    decreases MAX_CALL_DEPTH - w.depth, w.t().len() - n, 4int, 0int,
{
    let kids = children(w.t(), n, Class::Expr);
    steady_same(w, st);
    if 0 <= i < kids.len() && n < kids[i] < w.t().len() {
        cn_ev(w, st, env, control, kids[i]);
    }
}

proof fn pr_list(
    w1: Walk,
    st1: St,
    env1: EnvView,
    ct1: Seq<WitnessView>,
    w2: Walk,
    st2: St,
    env2: EnvView,
    ct2: Seq<WitnessView>,
    kids: Seq<int>,
    k: int,
    after: int,
)
    requires
        both_start(w1, st1, env1, ct1, w2, st2, env2, ct2),
        past(ev_list(w1, st1, env1, ct1, kids, k, after).0, st2),
        uncut(ev_list(w2, st2, env2, ct2, kids, k, after).0.sink),
    ensures
        quiet(
            ev_list(w1, st1, env1, ct1, kids, k, after).0,
            st2,
            ev_list(w2, st2, env2, ct2, kids, k, after).0,
        ),
        all_alike(
            ev_list(w1, st1, env1, ct1, kids, k, after).1,
            ev_list(w2, st2, env2, ct2, kids, k, after).1,
        ),
    decreases MAX_CALL_DEPTH - w2.depth, w2.t().len() - after, 3int, kids.len() - k,
{
    nn_same(st2.sink, st2.sink);
    if 0 <= k < kids.len() && after < kids[k] < w2.t().len() {
        let a = ev(w1, st1, env1, ct1, kids[k]);
        let b = ev(w2, st2, env2, ct2, kids[k]);
        let ar = ev_list(w1, a.0, env1, ct1, kids, k + 1, after);
        let br = ev_list(w2, b.0, env2, ct2, kids, k + 1, after);
        kept_list(w1, a.0, env1, ct1, kids, k + 1, after);
        kept_ev(w2, st2, env2, ct2, kids[k]);
        kept_list(w2, b.0, env2, ct2, kids, k + 1, after);
        link(w2.c, a.0, ar.0, st2, b.0, br.0);
        pr_ev(w1, st1, env1, ct1, w2, st2, env2, ct2, kids[k]);
        cn_ev(w2, st2, env2, ct2, kids[k]);
        pr_list(w1, a.0, env1, ct1, w2, b.0, env2, ct2, kids, k + 1, after);
        nn_trans(st2.sink, b.0.sink, br.0.sink);
        al_cons(a.1, b.1, ar.1, br.1);
    }
}

proof fn cn_list(
    w: Walk,
    st: St,
    env: EnvView,
    control: Seq<WitnessView>,
    kids: Seq<int>,
    k: int,
    after: int,
)
    requires
        good(w.c, st),
        without_folds(w.t()),
        uncut(ev_list(w, st, env, control, kids, k, after).0.sink),
    ensures
        steady(w, st, ev_list(w, st, env, control, kids, k, after).0),
    decreases MAX_CALL_DEPTH - w.depth, w.t().len() - after, 3int, kids.len() - k,
{
    steady_same(w, st);
    if 0 <= k < kids.len() && after < kids[k] < w.t().len() {
        let a = ev(w, st, env, control, kids[k]);
        let r = ev_list(w, a.0, env, control, kids, k + 1, after);
        kept_list(w, a.0, env, control, kids, k + 1, after);
        st_back(w.c, a.0, r.0);
        cn_ev(w, st, env, control, kids[k]);
        cn_list(w, a.0, env, control, kids, k + 1, after);
        steady_trans(w, st, a.0, r.0);
    }
}

proof fn pr_union(
    w1: Walk,
    st1: St,
    env1: EnvView,
    ct1: Seq<WitnessView>,
    w2: Walk,
    st2: St,
    env2: EnvView,
    ct2: Seq<WitnessView>,
    kids: Seq<int>,
    k: int,
    after: int,
    ws1: Seq<WitnessView>,
    ws2: Seq<WitnessView>,
)
    requires
        both_start(w1, st1, env1, ct1, w2, st2, env2, ct2),
        both_or_none(ws1, ws2),
        past(ev_union(w1, st1, env1, ct1, kids, k, after, ws1).0, st2),
        uncut(ev_union(w2, st2, env2, ct2, kids, k, after, ws2).0.sink),
    ensures
        quiet(
            ev_union(w1, st1, env1, ct1, kids, k, after, ws1).0,
            st2,
            ev_union(w2, st2, env2, ct2, kids, k, after, ws2).0,
        ),
        both_or_none(
            ev_union(w1, st1, env1, ct1, kids, k, after, ws1).1,
            ev_union(w2, st2, env2, ct2, kids, k, after, ws2).1,
        ),
    decreases MAX_CALL_DEPTH - w2.depth, w2.t().len() - after, 3int, kids.len() - k,
{
    nn_same(st2.sink, st2.sink);
    if 0 <= k < kids.len() && after < kids[k] < w2.t().len() {
        let a = ev(w1, st1, env1, ct1, kids[k]);
        let b = ev(w2, st2, env2, ct2, kids[k]);
        let more1 = merged(ws1, all_witnesses(a.1));
        let more2 = merged(ws2, all_witnesses(b.1));
        let ar = ev_union(w1, a.0, env1, ct1, kids, k + 1, after, more1);
        let br = ev_union(w2, b.0, env2, ct2, kids, k + 1, after, more2);
        kept_union(w1, a.0, env1, ct1, kids, k + 1, after, more1);
        kept_ev(w2, st2, env2, ct2, kids[k]);
        kept_union(w2, b.0, env2, ct2, kids, k + 1, after, more2);
        link(w2.c, a.0, ar.0, st2, b.0, br.0);
        pr_ev(w1, st1, env1, ct1, w2, st2, env2, ct2, kids[k]);
        cn_ev(w2, st2, env2, ct2, kids[k]);
        al_all(a.1, b.1);
        lemma_merged_empty(ws1, all_witnesses(a.1));
        lemma_merged_empty(ws2, all_witnesses(b.1));
        pr_union(w1, a.0, env1, ct1, w2, b.0, env2, ct2, kids, k + 1, after, more1, more2);
        nn_trans(st2.sink, b.0.sink, br.0.sink);
    }
}

proof fn cn_union(
    w: Walk,
    st: St,
    env: EnvView,
    control: Seq<WitnessView>,
    kids: Seq<int>,
    k: int,
    after: int,
    ws: Seq<WitnessView>,
)
    requires
        good(w.c, st),
        without_folds(w.t()),
        uncut(ev_union(w, st, env, control, kids, k, after, ws).0.sink),
    ensures
        steady(w, st, ev_union(w, st, env, control, kids, k, after, ws).0),
    decreases MAX_CALL_DEPTH - w.depth, w.t().len() - after, 3int, kids.len() - k,
{
    steady_same(w, st);
    if 0 <= k < kids.len() && after < kids[k] < w.t().len() {
        let a = ev(w, st, env, control, kids[k]);
        let more = merged(ws, all_witnesses(a.1));
        let r = ev_union(w, a.0, env, control, kids, k + 1, after, more);
        kept_union(w, a.0, env, control, kids, k + 1, after, more);
        st_back(w.c, a.0, r.0);
        cn_ev(w, st, env, control, kids[k]);
        cn_union(w, a.0, env, control, kids, k + 1, after, more);
        steady_trans(w, st, a.0, r.0);
    }
}

proof fn pr_join(
    w1: Walk,
    st1: St,
    env1: EnvView,
    ct1: Seq<WitnessView>,
    w2: Walk,
    st2: St,
    env2: EnvView,
    ct2: Seq<WitnessView>,
    kids: Seq<int>,
    k: int,
    after: int,
    acc1: Option<AbsView>,
    acc2: Option<AbsView>,
)
    requires
        both_start(w1, st1, env1, ct1, w2, st2, env2, ct2),
        opt_alike(acc1, acc2),
        past(ev_join(w1, st1, env1, ct1, kids, k, after, acc1).0, st2),
        uncut(ev_join(w2, st2, env2, ct2, kids, k, after, acc2).0.sink),
    ensures
        quiet(
            ev_join(w1, st1, env1, ct1, kids, k, after, acc1).0,
            st2,
            ev_join(w2, st2, env2, ct2, kids, k, after, acc2).0,
        ),
        opt_alike(
            ev_join(w1, st1, env1, ct1, kids, k, after, acc1).1,
            ev_join(w2, st2, env2, ct2, kids, k, after, acc2).1,
        ),
    decreases MAX_CALL_DEPTH - w2.depth, w2.t().len() - after, 3int, kids.len() - k,
{
    nn_same(st2.sink, st2.sink);
    if 0 <= k < kids.len() && after < kids[k] < w2.t().len() {
        let a = ev(w1, st1, env1, ct1, kids[k]);
        let b = ev(w2, st2, env2, ct2, kids[k]);
        let next1 = match acc1 {
            Some(prev) => joined(prev, a.1),
            None => a.1,
        };
        let next2 = match acc2 {
            Some(prev) => joined(prev, b.1),
            None => b.1,
        };
        let ar = ev_join(w1, a.0, env1, ct1, kids, k + 1, after, Some(next1));
        let br = ev_join(w2, b.0, env2, ct2, kids, k + 1, after, Some(next2));
        kept_join(w1, a.0, env1, ct1, kids, k + 1, after, Some(next1));
        kept_ev(w2, st2, env2, ct2, kids[k]);
        kept_join(w2, b.0, env2, ct2, kids, k + 1, after, Some(next2));
        link(w2.c, a.0, ar.0, st2, b.0, br.0);
        pr_ev(w1, st1, env1, ct1, w2, st2, env2, ct2, kids[k]);
        cn_ev(w2, st2, env2, ct2, kids[k]);
        if let (Some(x), Some(y)) = (acc1, acc2) {
            al_joined(x, a.1, y, b.1);
        }
        pr_join(
            w1,
            a.0,
            env1,
            ct1,
            w2,
            b.0,
            env2,
            ct2,
            kids,
            k + 1,
            after,
            Some(next1),
            Some(next2),
        );
        nn_trans(st2.sink, b.0.sink, br.0.sink);
    }
}

proof fn cn_join(
    w: Walk,
    st: St,
    env: EnvView,
    control: Seq<WitnessView>,
    kids: Seq<int>,
    k: int,
    after: int,
    acc: Option<AbsView>,
)
    requires
        good(w.c, st),
        without_folds(w.t()),
        uncut(ev_join(w, st, env, control, kids, k, after, acc).0.sink),
    ensures
        steady(w, st, ev_join(w, st, env, control, kids, k, after, acc).0),
    decreases MAX_CALL_DEPTH - w.depth, w.t().len() - after, 3int, kids.len() - k,
{
    steady_same(w, st);
    if 0 <= k < kids.len() && after < kids[k] < w.t().len() {
        let a = ev(w, st, env, control, kids[k]);
        let next = match acc {
            Some(prev) => joined(prev, a.1),
            None => a.1,
        };
        let r = ev_join(w, a.0, env, control, kids, k + 1, after, Some(next));
        kept_join(w, a.0, env, control, kids, k + 1, after, Some(next));
        st_back(w.c, a.0, r.0);
        cn_ev(w, st, env, control, kids[k]);
        cn_join(w, a.0, env, control, kids, k + 1, after, Some(next));
        steady_trans(w, st, a.0, r.0);
    }
}

proof fn pr_inits(
    w1: Walk,
    st1: St,
    env1: EnvView,
    ct1: Seq<WitnessView>,
    w2: Walk,
    st2: St,
    env2: EnvView,
    ct2: Seq<WitnessView>,
    kids: Seq<int>,
    k: int,
    after: int,
)
    requires
        both_start(w1, st1, env1, ct1, w2, st2, env2, ct2),
        past(ev_inits(w1, st1, env1, ct1, kids, k, after).0, st2),
        uncut(ev_inits(w2, st2, env2, ct2, kids, k, after).0.sink),
    ensures
        quiet(
            ev_inits(w1, st1, env1, ct1, kids, k, after).0,
            st2,
            ev_inits(w2, st2, env2, ct2, kids, k, after).0,
        ),
        inits_alike(
            ev_inits(w1, st1, env1, ct1, kids, k, after).1,
            ev_inits(w2, st2, env2, ct2, kids, k, after).1,
        ),
    decreases MAX_CALL_DEPTH - w2.depth, w2.t().len() - after, 3int, kids.len() - k,
{
    nn_same(st2.sink, st2.sink);
    if 0 <= k < kids.len() && after < kids[k] < w2.t().len() {
        let a = kid(w1, st1, env1, ct1, kids[k], 0);
        let b = kid(w2, st2, env2, ct2, kids[k], 0);
        let ar = ev_inits(w1, a.0, env1, ct1, kids, k + 1, after);
        let br = ev_inits(w2, b.0, env2, ct2, kids, k + 1, after);
        kept_inits(w1, a.0, env1, ct1, kids, k + 1, after);
        kept_kid(w2, st2, env2, ct2, kids[k], 0);
        kept_inits(w2, b.0, env2, ct2, kids, k + 1, after);
        link(w2.c, a.0, ar.0, st2, b.0, br.0);
        pr_kid(w1, st1, env1, ct1, w2, st2, env2, ct2, kids[k], 0);
        cn_kid(w2, st2, env2, ct2, kids[k], 0);
        pr_inits(w1, a.0, env1, ct1, w2, b.0, env2, ct2, kids, k + 1, after);
        nn_trans(st2.sink, b.0.sink, br.0.sink);
        let name = match child_token(w2.t(), kids[k], IDENT) {
            Some(x) => Some(w2.t()[x].text),
            None => None,
        };
        let x = seq![(name, a.1)] + ar.1;
        let y = seq![(name, b.1)] + br.1;
        assert forall|i: int| 0 <= i < x.len() implies (#[trigger] x[i]).0 == y[i].0 && alike(
            x[i].1,
            y[i].1,
        ) by {
            if i > 0 {
                assert(ar.1[i - 1].0 == br.1[i - 1].0);
            }
        }
    }
}

proof fn cn_inits(
    w: Walk,
    st: St,
    env: EnvView,
    control: Seq<WitnessView>,
    kids: Seq<int>,
    k: int,
    after: int,
)
    requires
        good(w.c, st),
        without_folds(w.t()),
        uncut(ev_inits(w, st, env, control, kids, k, after).0.sink),
    ensures
        steady(w, st, ev_inits(w, st, env, control, kids, k, after).0),
    decreases MAX_CALL_DEPTH - w.depth, w.t().len() - after, 3int, kids.len() - k,
{
    steady_same(w, st);
    if 0 <= k < kids.len() && after < kids[k] < w.t().len() {
        let a = kid(w, st, env, control, kids[k], 0);
        let r = ev_inits(w, a.0, env, control, kids, k + 1, after);
        kept_inits(w, a.0, env, control, kids, k + 1, after);
        st_back(w.c, a.0, r.0);
        cn_kid(w, st, env, control, kids[k], 0);
        cn_inits(w, a.0, env, control, kids, k + 1, after);
        steady_trans(w, st, a.0, r.0);
    }
}

proof fn pr_unmodelled(
    w1: Walk,
    st1: St,
    env1: EnvView,
    ct1: Seq<WitnessView>,
    w2: Walk,
    st2: St,
    env2: EnvView,
    ct2: Seq<WitnessView>,
    n: int,
    reason: Seq<char>,
)
    requires
        both_start(w1, st1, env1, ct1, w2, st2, env2, ct2),
        past(ev_unmodelled(w1, st1, env1, ct1, n, reason).0, st2),
        uncut(ev_unmodelled(w2, st2, env2, ct2, n, reason).0.sink),
    ensures
        quiet(
            ev_unmodelled(w1, st1, env1, ct1, n, reason).0,
            st2,
            ev_unmodelled(w2, st2, env2, ct2, n, reason).0,
        ),
        alike(
            ev_unmodelled(w1, st1, env1, ct1, n, reason).1,
            ev_unmodelled(w2, st2, env2, ct2, n, reason).1,
        ),
    decreases MAX_CALL_DEPTH - w2.depth, w2.t().len() - n, 4int, 0int,
{
    let kids = children(w2.t(), n, Class::Expr);
    let src = range_of(w2.t(), n);
    let none = Seq::<WitnessView>::empty();
    let a = ev_union(w1, st1, env1, ct1, kids, 0, n, none);
    let b = ev_union(w2, st2, env2, ct2, kids, 0, n, none);
    lemma_advised(w2.c, a.0, src, reason);
    kept_union(w2, st2, env2, ct2, kids, 0, n, none);
    lemma_advised(w2.c, b.0, src, reason);
    link(w2.c, a.0, a.0.advised(src, reason), st2, b.0, b.0.advised(src, reason));
    pr_union(w1, st1, env1, ct1, w2, st2, env2, ct2, kids, 0, n, none, none);
    nn_same(b.0.sink, b.0.advised(src, reason).sink);
    nn_trans(st2.sink, b.0.sink, b.0.advised(src, reason).sink);
}

proof fn cn_unmodelled(
    w: Walk,
    st: St,
    env: EnvView,
    control: Seq<WitnessView>,
    n: int,
    reason: Seq<char>,
)
    requires
        good(w.c, st),
        without_folds(w.t()),
        uncut(ev_unmodelled(w, st, env, control, n, reason).0.sink),
    ensures
        steady(w, st, ev_unmodelled(w, st, env, control, n, reason).0),
    decreases MAX_CALL_DEPTH - w.depth, w.t().len() - n, 4int, 0int,
{
    let kids = children(w.t(), n, Class::Expr);
    let src = range_of(w.t(), n);
    let a = ev_union(w, st, env, control, kids, 0, n, Seq::empty());
    lemma_advised(w.c, a.0, src, reason);
    st_back(w.c, a.0, a.0.advised(src, reason));
    cn_union(w, st, env, control, kids, 0, n, Seq::empty());
    steady_on(w, st, a.0, a.0.advised(src, reason));
}

proof fn pr_binary(
    w1: Walk,
    st1: St,
    env1: EnvView,
    ct1: Seq<WitnessView>,
    w2: Walk,
    st2: St,
    env2: EnvView,
    ct2: Seq<WitnessView>,
    n: int,
)
    requires
        both_start(w1, st1, env1, ct1, w2, st2, env2, ct2),
        past(ev_binary(w1, st1, env1, ct1, n).0, st2),
        uncut(ev_binary(w2, st2, env2, ct2, n).0.sink),
    ensures
        quiet(ev_binary(w1, st1, env1, ct1, n).0, st2, ev_binary(w2, st2, env2, ct2, n).0),
        alike(ev_binary(w1, st1, env1, ct1, n).1, ev_binary(w2, st2, env2, ct2, n).1),
    decreases MAX_CALL_DEPTH - w2.depth, w2.t().len() - n, 5int, 0int,
{
    let src = range_of(w2.t(), n);
    let op = operator_from(w2.t(), n + 1, w2.t()[n].next);
    let two = op == Some(AMP_AMP) || op == Some(PIPE_PIPE);
    let a = kid(w1, st1, env1, ct1, n, 0);
    let b = kid(w2, st2, env2, ct2, n, 0);
    let in1 = if two {
        threaded(all_witnesses(a.1), ct1, src)
    } else {
        ct1
    };
    let in2 = if two {
        threaded(all_witnesses(b.1), ct2, src)
    } else {
        ct2
    };
    let ar = kid(w1, a.0, env1, in1, n, 1);
    let br = kid(w2, b.0, env2, in2, n, 1);
    let az = combined(ar.0, op, a.1, ar.1, src);
    let bz = combined(br.0, op, b.1, br.1, src);
    kept_kid(w1, a.0, env1, in1, n, 1);
    kept_combined(w1.c, ar.0, op, a.1, ar.1, src);
    kept_kid(w2, st2, env2, ct2, n, 0);
    kept_kid(w2, b.0, env2, in2, n, 1);
    kept_combined(w2.c, br.0, op, b.1, br.1, src);
    lemma_trans(w2.c, a.0, ar.0, az.0);
    lemma_trans(w2.c, b.0, br.0, bz.0);
    link(w2.c, a.0, az.0, st2, b.0, bz.0);
    pr_kid(w1, st1, env1, ct1, w2, st2, env2, ct2, n, 0);
    cn_kid(w2, st2, env2, ct2, n, 0);
    al_threaded(a.1, b.1, ct1, ct2, src);
    link(w2.c, ar.0, az.0, b.0, br.0, bz.0);
    pr_kid(w1, a.0, env1, in1, w2, b.0, env2, in2, n, 1);
    nn_trans(st2.sink, b.0.sink, br.0.sink);
    al_combined(ar.0, br.0, op, a.1, ar.1, b.1, br.1, src);
    nn_same(br.0.sink, bz.0.sink);
    nn_trans(st2.sink, br.0.sink, bz.0.sink);
}

proof fn cn_binary(
    w: Walk,
    st: St,
    env: EnvView,
    control: Seq<WitnessView>,
    n: int,
)
    requires
        good(w.c, st),
        without_folds(w.t()),
        uncut(ev_binary(w, st, env, control, n).0.sink),
    ensures
        steady(w, st, ev_binary(w, st, env, control, n).0),
    decreases MAX_CALL_DEPTH - w.depth, w.t().len() - n, 5int, 0int,
{
    let src = range_of(w.t(), n);
    let op = operator_from(w.t(), n + 1, w.t()[n].next);
    let a = kid(w, st, env, control, n, 0);
    let inner = if op == Some(AMP_AMP) || op == Some(PIPE_PIPE) {
        threaded(all_witnesses(a.1), control, src)
    } else {
        control
    };
    let r = kid(w, a.0, env, inner, n, 1);
    let z = combined(r.0, op, a.1, r.1, src);
    kept_kid(w, a.0, env, inner, n, 1);
    kept_combined(w.c, r.0, op, a.1, r.1, src);
    st_back(w.c, r.0, z.0);
    st_back(w.c, a.0, r.0);
    cn_kid(w, st, env, control, n, 0);
    cn_kid(w, a.0, env, inner, n, 1);
    steady_trans(w, st, a.0, r.0);
    steady_on(w, st, r.0, z.0);
}

proof fn pr_ternary(
    w1: Walk,
    st1: St,
    env1: EnvView,
    ct1: Seq<WitnessView>,
    w2: Walk,
    st2: St,
    env2: EnvView,
    ct2: Seq<WitnessView>,
    n: int,
)
    requires
        both_start(w1, st1, env1, ct1, w2, st2, env2, ct2),
        past(ev_ternary(w1, st1, env1, ct1, n).0, st2),
        uncut(ev_ternary(w2, st2, env2, ct2, n).0.sink),
    ensures
        quiet(ev_ternary(w1, st1, env1, ct1, n).0, st2, ev_ternary(w2, st2, env2, ct2, n).0),
        alike(ev_ternary(w1, st1, env1, ct1, n).1, ev_ternary(w2, st2, env2, ct2, n).1),
    decreases MAX_CALL_DEPTH - w2.depth, w2.t().len() - n, 5int, 0int,
{
    let src = range_of(w2.t(), n);
    let a = kid(w1, st1, env1, ct1, n, 0);
    let b = kid(w2, st2, env2, ct2, n, 0);
    let in1 = threaded(all_witnesses(a.1), ct1, src);
    let in2 = threaded(all_witnesses(b.1), ct2, src);
    let ay = kid(w1, a.0, env1, in1, n, 1);
    let by = kid(w2, b.0, env2, in2, n, 1);
    let az = kid(w1, ay.0, env1, in1, n, 2);
    let bz = kid(w2, by.0, env2, in2, n, 2);
    kept_kid(w1, a.0, env1, in1, n, 1);
    kept_kid(w1, ay.0, env1, in1, n, 2);
    kept_kid(w2, st2, env2, ct2, n, 0);
    kept_kid(w2, b.0, env2, in2, n, 1);
    kept_kid(w2, by.0, env2, in2, n, 2);
    lemma_trans(w2.c, a.0, ay.0, az.0);
    lemma_trans(w2.c, b.0, by.0, bz.0);
    link(w2.c, a.0, az.0, st2, b.0, bz.0);
    pr_kid(w1, st1, env1, ct1, w2, st2, env2, ct2, n, 0);
    cn_kid(w2, st2, env2, ct2, n, 0);
    al_threaded(a.1, b.1, ct1, ct2, src);
    link(w2.c, ay.0, az.0, b.0, by.0, bz.0);
    pr_kid(w1, a.0, env1, in1, w2, b.0, env2, in2, n, 1);
    cn_kid(w2, b.0, env2, in2, n, 1);
    nn_trans(st2.sink, b.0.sink, by.0.sink);
    pr_kid(w1, ay.0, env1, in1, w2, by.0, env2, in2, n, 2);
    nn_trans(st2.sink, by.0.sink, bz.0.sink);
    al_chosen(a.1, ay.1, az.1, b.1, by.1, bz.1, src);
}

proof fn cn_ternary(
    w: Walk,
    st: St,
    env: EnvView,
    control: Seq<WitnessView>,
    n: int,
)
    requires
        good(w.c, st),
        without_folds(w.t()),
        uncut(ev_ternary(w, st, env, control, n).0.sink),
    ensures
        steady(w, st, ev_ternary(w, st, env, control, n).0),
    decreases MAX_CALL_DEPTH - w.depth, w.t().len() - n, 5int, 0int,
{
    let src = range_of(w.t(), n);
    let a = kid(w, st, env, control, n, 0);
    let inner = threaded(all_witnesses(a.1), control, src);
    let y = kid(w, a.0, env, inner, n, 1);
    let z = kid(w, y.0, env, inner, n, 2);
    kept_kid(w, a.0, env, inner, n, 1);
    kept_kid(w, y.0, env, inner, n, 2);
    st_back(w.c, y.0, z.0);
    st_back(w.c, a.0, y.0);
    cn_kid(w, st, env, control, n, 0);
    cn_kid(w, a.0, env, inner, n, 1);
    cn_kid(w, y.0, env, inner, n, 2);
    steady_trans(w, st, a.0, y.0);
    steady_trans(w, st, y.0, z.0);
}

proof fn pr_member(
    w1: Walk,
    st1: St,
    env1: EnvView,
    ct1: Seq<WitnessView>,
    w2: Walk,
    st2: St,
    env2: EnvView,
    ct2: Seq<WitnessView>,
    n: int,
)
    requires
        both_start(w1, st1, env1, ct1, w2, st2, env2, ct2),
        past(ev_member(w1, st1, env1, ct1, n).0, st2),
        uncut(ev_member(w2, st2, env2, ct2, n).0.sink),
    ensures
        quiet(ev_member(w1, st1, env1, ct1, n).0, st2, ev_member(w2, st2, env2, ct2, n).0),
        alike(ev_member(w1, st1, env1, ct1, n).1, ev_member(w2, st2, env2, ct2, n).1),
    decreases MAX_CALL_DEPTH - w2.depth, w2.t().len() - n, 5int, 0int,
{
    let t = w2.t();
    let kids = children(t, n, Class::Expr);
    nn_same(st2.sink, st2.sink);
    if kids.len() > 0 {
        let a = kid(w1, st1, env1, ct1, n, 0);
        let b = kid(w2, st2, env2, ct2, n, 0);
        let az = ev_member(w1, st1, env1, ct1, n);
        let bz = ev_member(w2, st2, env2, ct2, n);
        let src = range_of(t, n);
        let reason = "struct/tuple member projection could not be resolved; conservatively unioned"@;
        lemma_same(w2.c, a.0);
        lemma_advised(w2.c, a.0, src, reason);
        kept_kid(w2, st2, env2, ct2, n, 0);
        lemma_same(w2.c, b.0);
        lemma_advised(w2.c, b.0, src, reason);
        link(w2.c, a.0, az.0, st2, b.0, bz.0);
        pr_kid(w1, st1, env1, ct1, w2, st2, env2, ct2, n, 0);
        al_all(a.1, b.1);
        nn_same(b.0.sink, bz.0.sink);
        nn_trans(st2.sink, b.0.sink, bz.0.sink);
        let index = match child_token(t, n, IDENT) {
            Some(x) => projected(w2.c, kids[0], t[x].text),
            None => None,
        };
        if let (AbsView::Multiple(x), Some(i)) = (a.1, index) {
            if 0 <= i < x.len() {
                assert(alike(x[i], b.1->Multiple_0[i]));
            }
        }
    }
}

proof fn cn_member(
    w: Walk,
    st: St,
    env: EnvView,
    control: Seq<WitnessView>,
    n: int,
)
    requires
        good(w.c, st),
        without_folds(w.t()),
        uncut(ev_member(w, st, env, control, n).0.sink),
    ensures
        steady(w, st, ev_member(w, st, env, control, n).0),
    decreases MAX_CALL_DEPTH - w.depth, w.t().len() - n, 5int, 0int,
{
    let t = w.t();
    steady_same(w, st);
    if children(t, n, Class::Expr).len() > 0 {
        let a = kid(w, st, env, control, n, 0);
        let z = ev_member(w, st, env, control, n);
        lemma_same(w.c, a.0);
        lemma_advised(
            w.c,
            a.0,
            range_of(t, n),
            "struct/tuple member projection could not be resolved; conservatively unioned"@,
        );
        st_back(w.c, a.0, z.0);
        cn_kid(w, st, env, control, n, 0);
        steady_on(w, st, a.0, z.0);
    }
}

proof fn pr_index(
    w1: Walk,
    st1: St,
    env1: EnvView,
    ct1: Seq<WitnessView>,
    w2: Walk,
    st2: St,
    env2: EnvView,
    ct2: Seq<WitnessView>,
    n: int,
)
    requires
        both_start(w1, st1, env1, ct1, w2, st2, env2, ct2),
        past(ev_index(w1, st1, env1, ct1, n).0, st2),
        uncut(ev_index(w2, st2, env2, ct2, n).0.sink),
    ensures
        quiet(ev_index(w1, st1, env1, ct1, n).0, st2, ev_index(w2, st2, env2, ct2, n).0),
        alike(ev_index(w1, st1, env1, ct1, n).1, ev_index(w2, st2, env2, ct2, n).1),
    decreases MAX_CALL_DEPTH - w2.depth, w2.t().len() - n, 5int, 0int,
{
    let src = range_of(w2.t(), n);
    let a = kid(w1, st1, env1, ct1, n, 0);
    let b = kid(w2, st2, env2, ct2, n, 0);
    let ar = kid(w1, a.0, env1, ct1, n, 1);
    let br = kid(w2, b.0, env2, ct2, n, 1);
    let az = indexed(ar.0, a.1, all_witnesses(ar.1), src);
    let bz = indexed(br.0, b.1, all_witnesses(br.1), src);
    kept_kid(w1, a.0, env1, ct1, n, 1);
    kept_indexed(w1.c, ar.0, a.1, all_witnesses(ar.1), src);
    kept_kid(w2, st2, env2, ct2, n, 0);
    kept_kid(w2, b.0, env2, ct2, n, 1);
    kept_indexed(w2.c, br.0, b.1, all_witnesses(br.1), src);
    lemma_trans(w2.c, a.0, ar.0, az.0);
    lemma_trans(w2.c, b.0, br.0, bz.0);
    link(w2.c, a.0, az.0, st2, b.0, bz.0);
    pr_kid(w1, st1, env1, ct1, w2, st2, env2, ct2, n, 0);
    cn_kid(w2, st2, env2, ct2, n, 0);
    link(w2.c, ar.0, az.0, b.0, br.0, bz.0);
    pr_kid(w1, a.0, env1, ct1, w2, b.0, env2, ct2, n, 1);
    nn_trans(st2.sink, b.0.sink, br.0.sink);
    al_all(ar.1, br.1);
    al_indexed(ar.0, br.0, a.1, b.1, all_witnesses(ar.1), all_witnesses(br.1), src);
    nn_same(br.0.sink, bz.0.sink);
    nn_trans(st2.sink, br.0.sink, bz.0.sink);
}

proof fn cn_index(
    w: Walk,
    st: St,
    env: EnvView,
    control: Seq<WitnessView>,
    n: int,
)
    requires
        good(w.c, st),
        without_folds(w.t()),
        uncut(ev_index(w, st, env, control, n).0.sink),
    ensures
        steady(w, st, ev_index(w, st, env, control, n).0),
    decreases MAX_CALL_DEPTH - w.depth, w.t().len() - n, 5int, 0int,
{
    let src = range_of(w.t(), n);
    let a = kid(w, st, env, control, n, 0);
    let r = kid(w, a.0, env, control, n, 1);
    let z = indexed(r.0, a.1, all_witnesses(r.1), src);
    kept_kid(w, a.0, env, control, n, 1);
    kept_indexed(w.c, r.0, a.1, all_witnesses(r.1), src);
    st_back(w.c, r.0, z.0);
    st_back(w.c, a.0, r.0);
    cn_kid(w, st, env, control, n, 0);
    cn_kid(w, a.0, env, control, n, 1);
    steady_trans(w, st, a.0, r.0);
    steady_on(w, st, r.0, z.0);
}

proof fn pr_struct(
    w1: Walk,
    st1: St,
    env1: EnvView,
    ct1: Seq<WitnessView>,
    w2: Walk,
    st2: St,
    env2: EnvView,
    ct2: Seq<WitnessView>,
    n: int,
)
    requires
        both_start(w1, st1, env1, ct1, w2, st2, env2, ct2),
        past(ev_struct(w1, st1, env1, ct1, n).0, st2),
        uncut(ev_struct(w2, st2, env2, ct2, n).0.sink),
    ensures
        quiet(ev_struct(w1, st1, env1, ct1, n).0, st2, ev_struct(w2, st2, env2, ct2, n).0),
        alike(ev_struct(w1, st1, env1, ct1, n).1, ev_struct(w2, st2, env2, ct2, n).1),
    decreases MAX_CALL_DEPTH - w2.depth, w2.t().len() - n, 5int, 0int,
{
    let t = w2.t();
    if child(t, n, Class::Kind(STRUCT_UPDATE)) is Some {
        let reason = "struct-update (spread) construction not modeled"@;
        pr_unmodelled(w1, st1, env1, ct1, w2, st2, env2, ct2, n, reason);
    } else {
        let kids = children(t, n, Class::Kind(STRUCT_FIELD_INIT));
        let declared = match child_token(t, n, IDENT) {
            Some(x) => named_type(w2.c, t[x].start, Seq::empty()),
            None => TyView::Unknown,
        };
        let src = range_of(t, n);
        let a = ev_inits(w1, st1, env1, ct1, kids, 0, n);
        let b = ev_inits(w2, st2, env2, ct2, kids, 0, n);
        let az = built(a.0, declared, a.1, src);
        let bz = built(b.0, declared, b.1, src);
        kept_built(w2.c, a.0, declared, a.1, src);
        kept_inits(w2, st2, env2, ct2, kids, 0, n);
        kept_built(w2.c, b.0, declared, b.1, src);
        link(w2.c, a.0, az.0, st2, b.0, bz.0);
        pr_inits(w1, st1, env1, ct1, w2, st2, env2, ct2, kids, 0, n);
        al_built(a.0, b.0, declared, a.1, b.1, src);
        nn_same(b.0.sink, bz.0.sink);
        nn_trans(st2.sink, b.0.sink, bz.0.sink);
    }
}

proof fn cn_struct(
    w: Walk,
    st: St,
    env: EnvView,
    control: Seq<WitnessView>,
    n: int,
)
    requires
        good(w.c, st),
        without_folds(w.t()),
        uncut(ev_struct(w, st, env, control, n).0.sink),
    ensures
        steady(w, st, ev_struct(w, st, env, control, n).0),
    decreases MAX_CALL_DEPTH - w.depth, w.t().len() - n, 5int, 0int,
{
    let t = w.t();
    if child(t, n, Class::Kind(STRUCT_UPDATE)) is Some {
        cn_unmodelled(w, st, env, control, n, "struct-update (spread) construction not modeled"@);
    } else {
        let kids = children(t, n, Class::Kind(STRUCT_FIELD_INIT));
        let declared = match child_token(t, n, IDENT) {
            Some(x) => named_type(w.c, t[x].start, Seq::empty()),
            None => TyView::Unknown,
        };
        let a = ev_inits(w, st, env, control, kids, 0, n);
        let z = built(a.0, declared, a.1, range_of(t, n));
        kept_built(w.c, a.0, declared, a.1, range_of(t, n));
        st_back(w.c, a.0, z.0);
        cn_inits(w, st, env, control, kids, 0, n);
        steady_on(w, st, a.0, z.0);
    }
}

proof fn pr_map_unrolled(
    w1: Walk,
    st1: St,
    env1: EnvView,
    ct1: Seq<WitnessView>,
    w2: Walk,
    st2: St,
    env2: EnvView,
    ct2: Seq<WitnessView>,
    body: int,
    params: Seq<Option<Seq<char>>>,
    seqs1: Seq<AbsView>,
    seqs2: Seq<AbsView>,
    i: int,
    len: int,
)
    requires
        both_start(w1, st1, env1, ct1, w2, st2, env2, ct2),
        all_alike(seqs1, seqs2),
        past(map_unrolled(w1, st1, env1, ct1, body, params, seqs1, i, len).0, st2),
        uncut(map_unrolled(w2, st2, env2, ct2, body, params, seqs2, i, len).0.sink),
    ensures
        quiet(
            map_unrolled(w1, st1, env1, ct1, body, params, seqs1, i, len).0,
            st2,
            map_unrolled(w2, st2, env2, ct2, body, params, seqs2, i, len).0,
        ),
        all_alike(
            map_unrolled(w1, st1, env1, ct1, body, params, seqs1, i, len).1,
            map_unrolled(w2, st2, env2, ct2, body, params, seqs2, i, len).1,
        ),
    decreases MAX_CALL_DEPTH - w2.depth, w2.t().len() - body, 50int, len - i,
{
    nn_same(st2.sink, st2.sink);
    if 0 <= i < len {
        let in1 = with_params(env1, params, elements_at(seqs1, i), 0);
        let in2 = with_params(env2, params, elements_at(seqs2, i), 0);
        al_elements(seqs1, seqs2, i);
        al_with_params(env1, env2, params, elements_at(seqs1, i), elements_at(seqs2, i), 0);
        let a = ev(w1, st1, in1, ct1, body);
        let b = ev(w2, st2, in2, ct2, body);
        let ar = map_unrolled(w1, a.0, env1, ct1, body, params, seqs1, i + 1, len);
        let br = map_unrolled(w2, b.0, env2, ct2, body, params, seqs2, i + 1, len);
        kept_map_unrolled(w1, a.0, env1, ct1, body, params, seqs1, i + 1, len);
        kept_ev(w2, st2, in2, ct2, body);
        kept_map_unrolled(w2, b.0, env2, ct2, body, params, seqs2, i + 1, len);
        link(w2.c, a.0, ar.0, st2, b.0, br.0);
        pr_ev(w1, st1, in1, ct1, w2, st2, in2, ct2, body);
        cn_ev(w2, st2, in2, ct2, body);
        pr_map_unrolled(
            w1,
            a.0,
            env1,
            ct1,
            w2,
            b.0,
            env2,
            ct2,
            body,
            params,
            seqs1,
            seqs2,
            i + 1,
            len,
        );
        nn_trans(st2.sink, b.0.sink, br.0.sink);
        al_cons(a.1, b.1, ar.1, br.1);
    }
}

proof fn cn_map_unrolled(
    w: Walk,
    st: St,
    env: EnvView,
    control: Seq<WitnessView>,
    body: int,
    params: Seq<Option<Seq<char>>>,
    seqs: Seq<AbsView>,
    i: int,
    len: int,
)
    requires
        good(w.c, st),
        without_folds(w.t()),
        uncut(map_unrolled(w, st, env, control, body, params, seqs, i, len).0.sink),
    ensures
        steady(w, st, map_unrolled(w, st, env, control, body, params, seqs, i, len).0),
    decreases MAX_CALL_DEPTH - w.depth, w.t().len() - body, 50int, len - i,
{
    steady_same(w, st);
    if 0 <= i < len {
        let inner = with_params(env, params, elements_at(seqs, i), 0);
        let a = ev(w, st, inner, control, body);
        let r = map_unrolled(w, a.0, env, control, body, params, seqs, i + 1, len);
        kept_map_unrolled(w, a.0, env, control, body, params, seqs, i + 1, len);
        st_back(w.c, a.0, r.0);
        cn_ev(w, st, inner, control, body);
        cn_map_unrolled(w, a.0, env, control, body, params, seqs, i + 1, len);
        steady_trans(w, st, a.0, r.0);
    }
}

proof fn pr_map(
    w1: Walk,
    st1: St,
    env1: EnvView,
    ct1: Seq<WitnessView>,
    w2: Walk,
    st2: St,
    env2: EnvView,
    ct2: Seq<WitnessView>,
    n: int,
)
    requires
        both_start(w1, st1, env1, ct1, w2, st2, env2, ct2),
        past(ev_map(w1, st1, env1, ct1, n).0, st2),
        uncut(ev_map(w2, st2, env2, ct2, n).0.sink),
    ensures
        quiet(ev_map(w1, st1, env1, ct1, n).0, st2, ev_map(w2, st2, env2, ct2, n).0),
        alike(ev_map(w1, st1, env1, ct1, n).1, ev_map(w2, st2, env2, ct2, n).1),
    decreases MAX_CALL_DEPTH - w2.depth, w2.t().len() - n, 5int, 0int,
{
    let t = w2.t();
    let kids = children(t, n, Class::Expr);
    nn_same(st2.sink, st2.sink);
    if kids.len() == 0 {
        pr_unmodelled(w1, st1, env1, ct1, w2, st2, env2, ct2, n, "malformed map"@);
    } else {
        match lambda_of(t, kids[0]) {
            None => {
                pr_unmodelled(
                    w1,
                    st1,
                    env1,
                    ct1,
                    w2,
                    st2,
                    env2,
                    ct2,
                    n,
                    "map with a non-lambda function reference not modeled"@,
                );
            },
            Some((lambda, body)) => if kids.len() > 1 {
                pr_map_over(w1, st1, env1, ct1, w2, st2, env2, ct2, n, lambda, body);
            },
        }
    }
}

proof fn pr_map_over(
    w1: Walk,
    st1: St,
    env1: EnvView,
    ct1: Seq<WitnessView>,
    w2: Walk,
    st2: St,
    env2: EnvView,
    ct2: Seq<WitnessView>,
    n: int,
    lambda: int,
    body: int,
)
    requires
        both_start(w1, st1, env1, ct1, w2, st2, env2, ct2),
        children(w2.t(), n, Class::Expr).len() > 1,
        lambda_of(w2.t(), children(w2.t(), n, Class::Expr)[0]) == Some((lambda, body)),
        past(ev_map(w1, st1, env1, ct1, n).0, st2),
        uncut(ev_map(w2, st2, env2, ct2, n).0.sink),
    ensures
        quiet(ev_map(w1, st1, env1, ct1, n).0, st2, ev_map(w2, st2, env2, ct2, n).0),
        alike(ev_map(w1, st1, env1, ct1, n).1, ev_map(w2, st2, env2, ct2, n).1),
    decreases MAX_CALL_DEPTH - w2.depth, w2.t().len() - n, 4int, 0int,
{
    let t = w2.t();
    let kids = children(t, n, Class::Expr);
    let params = lambda_params(t, lambda);
    let a = ev_list(w1, st1, env1, ct1, kids, 1, n);
    let b = ev_list(w2, st2, env2, ct2, kids, 1, n);
    kept_list(w2, st2, env2, ct2, kids, 1, n);
    if !(n < body < t.len()) {
        pr_list(w1, st1, env1, ct1, w2, st2, env2, ct2, kids, 1, n);
    } else {
        let in1 = with_params(env1, params, elements_of(a.1), 0);
        let in2 = with_params(env2, params, elements_of(b.1), 0);
        let az = ev_map(w1, st1, env1, ct1, n);
        let bz = ev_map(w2, st2, env2, ct2, n);
        match unroll_len_from(a.1, 0) {
            Some(len) => kept_map_unrolled(
                w1,
                a.0,
                env1,
                ct1,
                body,
                params,
                a.1,
                0,
                len as int,
            ),
            None => kept_ev(w1, a.0, in1, ct1, body),
        }
        match unroll_len_from(b.1, 0) {
            Some(len) => kept_map_unrolled(
                w2,
                b.0,
                env2,
                ct2,
                body,
                params,
                b.1,
                0,
                len as int,
            ),
            None => kept_ev(w2, b.0, in2, ct2, body),
        }
        link(w2.c, a.0, az.0, st2, b.0, bz.0);
        pr_list(w1, st1, env1, ct1, w2, st2, env2, ct2, kids, 1, n);
        cn_list(w2, st2, env2, ct2, kids, 1, n);
        al_unroll(a.1, b.1, 0);
        match unroll_len_from(b.1, 0) {
            Some(len) => {
                pr_map_unrolled(
                    w1,
                    a.0,
                    env1,
                    ct1,
                    w2,
                    b.0,
                    env2,
                    ct2,
                    body,
                    params,
                    a.1,
                    b.1,
                    0,
                    len as int,
                );
            },
            None => {
                al_elements(a.1, b.1, 0);
                al_with_params(env1, env2, params, elements_of(a.1), elements_of(b.1), 0);
                pr_ev(w1, a.0, in1, ct1, w2, b.0, in2, ct2, body);
            },
        }
        nn_trans(st2.sink, b.0.sink, bz.0.sink);
    }
}

proof fn cn_map(
    w: Walk,
    st: St,
    env: EnvView,
    control: Seq<WitnessView>,
    n: int,
)
    requires
        good(w.c, st),
        without_folds(w.t()),
        uncut(ev_map(w, st, env, control, n).0.sink),
    ensures
        steady(w, st, ev_map(w, st, env, control, n).0),
    decreases MAX_CALL_DEPTH - w.depth, w.t().len() - n, 5int, 0int,
{
    let t = w.t();
    let kids = children(t, n, Class::Expr);
    steady_same(w, st);
    if kids.len() == 0 {
        cn_unmodelled(w, st, env, control, n, "malformed map"@);
    } else {
        match lambda_of(t, kids[0]) {
            None => {
                cn_unmodelled(
                    w,
                    st,
                    env,
                    control,
                    n,
                    "map with a non-lambda function reference not modeled"@,
                );
            },
            Some((lambda, body)) => if kids.len() > 1 {
                let params = lambda_params(t, lambda);
                let a = ev_list(w, st, env, control, kids, 1, n);
                let z = ev_map(w, st, env, control, n);
                if !(n < body < t.len()) {
                    cn_list(w, st, env, control, kids, 1, n);
                } else {
                    match unroll_len_from(a.1, 0) {
                        Some(len) => {
                            kept_map_unrolled(
                                w,
                                a.0,
                                env,
                                control,
                                body,
                                params,
                                a.1,
                                0,
                                len as int,
                            );
                            st_back(w.c, a.0, z.0);
                            cn_list(w, st, env, control, kids, 1, n);
                            cn_map_unrolled(
                                w,
                                a.0,
                                env,
                                control,
                                body,
                                params,
                                a.1,
                                0,
                                len as int,
                            );
                        },
                        None => {
                            let inner = with_params(env, params, elements_of(a.1), 0);
                            kept_ev(w, a.0, inner, control, body);
                            st_back(w.c, a.0, z.0);
                            cn_list(w, st, env, control, kids, 1, n);
                            cn_ev(w, a.0, inner, control, body);
                        },
                    }
                    steady_trans(w, st, a.0, z.0);
                }
            },
        }
    }
}

/// The state after the arguments of a call is part of the state after the call.
proof fn kept_after_args(
    w: Walk,
    st: St,
    env: EnvView,
    control: Seq<WitnessView>,
    n: int,
    file: FileId,
    symbol: u32,
)
    ensures
        st_grown(
            w.c,
            ev_list(w, st, env, control, call_args(w.t(), n), 0, n).0,
            ev_circuit_call(w, st, env, control, n, file, symbol).0,
        ),
{
    let t = w.t();
    let src = range_of(t, n);
    let args = ev_list(w, st, env, control, call_args(t, n), 0, n);
    lemma_same(w.c, args.0);
    lemma_advised(w.c, args.0, src, cut_reason());
    lemma_advised(
        w.c,
        args.0,
        src,
        "cross-circuit call target could not be resolved (cross-module deferred to v3b)"@,
    );
    lemma_advised(w.c, args.0, src, "circuit call arity mismatch not analyzed"@);
    if !(w.depth >= MAX_CALL_DEPTH || w.active.contains((file, symbol))) {
        if let Some(callee) = circuit_def(w.c, file, symbol) {
            let inner = entered(w, file, symbol);
            let scope = callee_env(Map::empty(), callee, args.1, 0, src);
            let r = ev_body(inner, args.0, scope, control, callee.body);
            assert(inner.c == w.c);
            kept_body(inner, args.0, scope, control, callee.body);
            let call = CallView { file, symbol, args: args.1, control, result: r.1 };
            lemma_sink_same(r.0.sink);
            assert(walked_from(w.c, call, r.0.sink, inner, args.0, src));
            lemma_call_added(w.c, r.0, call);
            lemma_trans(w.c, args.0, r.0, St { cache: r.0.cache.push(call), ..r.0 });
        }
    }
}

/// The walk of a callee's body.
pub open spec fn entered(w: Walk, file: FileId, symbol: u32) -> Walk {
    Walk {
        c: CtxView { file, ..w.c },
        f: None,
        active: w.active.push((file, symbol)),
        depth: w.depth + 1,
    }
}

/// A call like remembered call `i`, walked again.
proof fn pr_again(
    w: Walk,
    st: St,
    i: int,
    args: Seq<AbsView>,
    control: Seq<WitnessView>,
    src: TextRange,
)
    requires
        w.f is None,
        good(w.c, st),
        without_folds(w.t()),
        0 <= i < st.cache.len(),
        all_alike(st.cache[i].args, args),
        both_or_none(st.cache[i].control, control),
        uncut(
            call_walk(
                w.c,
                CallView { args, control, ..st.cache[i] },
                w,
                st,
                src,
            ).0.sink,
        ),
    ensures
        ({
            let r = call_walk(w.c, CallView { args, control, ..st.cache[i] }, w, st, src);
            &&& alike(st.cache[i].result, r.1)
            &&& no_new_leak(st.sink, r.0.sink)
        }),
    decreases
            MAX_CALL_DEPTH - w.depth,
            w.t().len() - circuit_def(w.c, st.cache[i].file, st.cache[i].symbol)->0.body,
            8int,
            1int,
{
    let e = st.cache[i];
    reveal(sound_memory);
    assert(was_logged(w.c, st.sink, st.cache, i));
    let (w0, s0, src0) = choose|w0: Walk, s0: St, src0: TextRange| #[trigger]
        logged_from(w.c, st.sink, st.cache, i, w0, s0, src0);
    let callee = circuit_def(w.c, e.file, e.symbol)->0;
    let env0 = callee_env(Map::empty(), callee, e.args, 0, src0);
    let env = callee_env(Map::empty(), callee, args, 0, src);
    let r0 = ev_body(w0, s0, env0, e.control, callee.body);
    reveal(held);
    assert(r0.0.cache.is_prefix_of(st.cache)) by {
        assert(r0.0.cache =~= st.cache.take(r0.0.cache.len() as int));
    }
    assert(past(r0.0, st));
    reveal(envs_alike);
    assert(envs_alike(Map::empty(), Map::empty()));
    al_callee_env(Map::empty(), Map::empty(), callee, e.args, args, 0, src0, src);
    pr_body(w0, s0, env0, e.control, w, st, env, control, callee.body);
}

proof fn pr_circuit_call(
    w1: Walk,
    st1: St,
    env1: EnvView,
    ct1: Seq<WitnessView>,
    w2: Walk,
    st2: St,
    env2: EnvView,
    ct2: Seq<WitnessView>,
    n: int,
    file: FileId,
    symbol: u32,
)
    requires
        both_start(w1, st1, env1, ct1, w2, st2, env2, ct2),
        past(ev_circuit_call(w1, st1, env1, ct1, n, file, symbol).0, st2),
        uncut(ev_circuit_call(w2, st2, env2, ct2, n, file, symbol).0.sink),
    ensures
        quiet(
            ev_circuit_call(w1, st1, env1, ct1, n, file, symbol).0,
            st2,
            ev_circuit_call(w2, st2, env2, ct2, n, file, symbol).0,
        ),
        alike(
            ev_circuit_call(w1, st1, env1, ct1, n, file, symbol).1,
            ev_circuit_call(w2, st2, env2, ct2, n, file, symbol).1,
        ),
    decreases MAX_CALL_DEPTH - w2.depth, w2.t().len() - n, 4int, 0int,
{
    let t = w2.t();
    let src = range_of(t, n);
    let kids = call_args(t, n);
    let a = ev_list(w1, st1, env1, ct1, kids, 0, n);
    let b = ev_list(w2, st2, env2, ct2, kids, 0, n);
    let az = ev_circuit_call(w1, st1, env1, ct1, n, file, symbol);
    let bz = ev_circuit_call(w2, st2, env2, ct2, n, file, symbol);
    kept_after_args(w1, st1, env1, ct1, n, file, symbol);
    kept_after_args(w2, st2, env2, ct2, n, file, symbol);
    kept_list(w2, st2, env2, ct2, kids, 0, n);
    link(w2.c, a.0, az.0, st2, b.0, bz.0);
    pr_list(w1, st1, env1, ct1, w2, st2, env2, ct2, kids, 0, n);
    cn_list(w2, st2, env2, ct2, kids, 0, n);
    lemma_cut_shows(a.0, src);
    lemma_cut_shows(b.0, src);
    past_uncut(az.0, b.0);
    match circuit_def(w2.c, file, symbol) {
        None => {
            nn_same(b.0.sink, bz.0.sink);
        },
        Some(callee) => if b.1.len() != callee.params.len() {
            nn_same(b.0.sink, bz.0.sink);
        } else {
            let i = lemma_call_kept(w1, st1, env1, ct1, n, file, symbol, b.0);
            if cached_from(b.0.cache, 0, file, symbol, b.1, ct2) is Some {
                let j = lemma_cached(b.0.cache, 0, file, symbol, b.1, ct2);
                reveal(sound_memory);
                assert(calls_alike(b.0.cache[i], b.0.cache[j]));
                nn_same(b.0.sink, bz.0.sink);
            } else {
                pr_again(entered(w2, file, symbol), b.0, i, b.1, ct2, src);
            }
        },
    }
    nn_trans(st2.sink, b.0.sink, bz.0.sink);
}

/// A call that was followed is remembered by all that comes after it.
proof fn lemma_call_kept(
    w: Walk,
    st: St,
    env: EnvView,
    control: Seq<WitnessView>,
    n: int,
    file: FileId,
    symbol: u32,
    later: St,
) -> (i: int)
    requires
        w.depth < MAX_CALL_DEPTH,
        !w.active.contains((file, symbol)),
        circuit_def(w.c, file, symbol) matches Some(callee) && callee.params.len() == ev_list(
            w,
            st,
            env,
            control,
            call_args(w.t(), n),
            0,
            n,
        ).1.len(),
        past(ev_circuit_call(w, st, env, control, n, file, symbol).0, later),
    ensures
        0 <= i < later.cache.len(),
        later.cache[i] == (CallView {
            file,
            symbol,
            args: ev_list(w, st, env, control, call_args(w.t(), n), 0, n).1,
            control,
            result: ev_circuit_call(w, st, env, control, n, file, symbol).1,
        }),
{
    reveal(held);
    let args = ev_list(w, st, env, control, call_args(w.t(), n), 0, n);
    let z = ev_circuit_call(w, st, env, control, n, file, symbol);
    if cached_from(args.0.cache, 0, file, symbol, args.1, control) is Some {
        let i = lemma_cached(args.0.cache, 0, file, symbol, args.1, control);
        assert(later.cache[i] == z.0.cache[i]);
        i
    } else {
        let i = z.0.cache.len() - 1;
        assert(later.cache[i] == z.0.cache[i]);
        i
    }
}

proof fn lemma_entered(active: Seq<(FileId, u32)>, p: (FileId, u32), q: (FileId, u32))
    ensures
        active.push(p).contains(q) <==> active.contains(q) || q == p,
{
    let more = active.push(p);
    if active.contains(q) {
        let i = active.index_of(q);
        assert(more[i] == q);
    }
    if q == p {
        assert(more[active.len() as int] == q);
    }
    if more.contains(q) {
        let i = more.index_of(q);
        if i < active.len() {
            assert(active[i] == q);
        }
    }
}

proof fn cn_circuit_call(
    w: Walk,
    st: St,
    env: EnvView,
    control: Seq<WitnessView>,
    n: int,
    file: FileId,
    symbol: u32,
)
    requires
        good(w.c, st),
        without_folds(w.t()),
        uncut(ev_circuit_call(w, st, env, control, n, file, symbol).0.sink),
    ensures
        steady(w, st, ev_circuit_call(w, st, env, control, n, file, symbol).0),
    decreases MAX_CALL_DEPTH - w.depth, w.t().len() - n, 4int, 0int,
{
    let t = w.t();
    let src = range_of(t, n);
    let kids = call_args(t, n);
    let args = ev_list(w, st, env, control, kids, 0, n);
    let z = ev_circuit_call(w, st, env, control, n, file, symbol);
    kept_after_args(w, st, env, control, n, file, symbol);
    st_back(w.c, args.0, z.0);
    cn_list(w, st, env, control, kids, 0, n);
    lemma_cut_shows(args.0, src);
    match circuit_def(w.c, file, symbol) {
        None => {
            steady_on(w, st, args.0, z.0);
        },
        Some(callee) => if args.1.len() != callee.params.len() {
            steady_on(w, st, args.0, z.0);
        } else if cached_from(args.0.cache, 0, file, symbol, args.1, control) is None {
            let inner = entered(w, file, symbol);
            let scope = callee_env(Map::empty(), callee, args.1, 0, src);
            let r = ev_body(inner, args.0, scope, control, callee.body);
            let call = CallView { file, symbol, args: args.1, control, result: r.1 };
            assert(inner.c == w.c);
            cn_body(inner, args.0, scope, control, callee.body);
            assert forall|i: int|
                #![trigger r.0.cache[i]]
                0 <= i < r.0.cache.len() && calls_alike(r.0.cache[i], call) implies alike(
                r.0.cache[i].result,
                call.result,
            ) by {
                reveal(st_grown);
                reveal(fresh);
                lemma_entered(w.active, (file, symbol), (file, symbol));
                if i < args.0.cache.len() {
                    assert(r.0.cache[i] == args.0.cache[i]);
                    pr_again(inner, args.0, i, args.1, control, src);
                }
            }
            lemma_sink_same(r.0.sink);
            assert(call_walk(w.c, call, inner, args.0, src) == r);
            assert(walked_from(w.c, call, r.0.sink, inner, args.0, src));
            lemma_call_sound(w.c, r.0, call, inner, args.0, src);
            lemma_call_fresh(w, args.0, r.0, call);
            steady_trans(w, st, args.0, z.0);
        },
    }
}

proof fn lemma_call_sound(
    c: CtxView,
    st: St,
    call: CallView,
    w0: Walk,
    s0: St,
    src0: TextRange,
)
    requires
        good(c, st),
        walked_from(c, call, st.sink, w0, s0, src0),
        call_walk(c, call, w0, s0, src0).0.cache == st.cache,
        forall|i: int|
            #![trigger st.cache[i]]
            0 <= i < st.cache.len() && calls_alike(st.cache[i], call) ==> alike(
                st.cache[i].result,
                call.result,
            ),
    ensures
        good(c, St { cache: st.cache.push(call), ..st }),
{
    reveal(sound_memory);
    let cache = st.cache.push(call);
    let last = st.cache.len() as int;
    assert forall|i: int| 0 <= i < cache.len() implies #[trigger] was_logged(
        c,
        st.sink,
        cache,
        i,
    ) by {
        if i < last {
            assert(was_logged(c, st.sink, st.cache, i));
            let (w, s, src) = choose|w: Walk, s: St, src: TextRange| #[trigger]
                logged_from(c, st.sink, st.cache, i, w, s, src);
            assert(cache[i] == st.cache[i]);
            assert(cache.take(i) =~= st.cache.take(i));
            assert(logged_from(c, st.sink, cache, i, w, s, src));
        } else {
            assert(cache[i] == call);
            assert(cache.take(i) =~= st.cache);
            assert(logged_from(c, st.sink, cache, i, w0, s0, src0));
        }
    }
    assert forall|i: int, j: int|
        #![trigger cache[i], cache[j]]
        0 <= i < cache.len() && 0 <= j < cache.len() && calls_alike(cache[i], cache[j]) implies alike(
        cache[i].result,
        cache[j].result,
    ) by {
        if i < last && j < last {
            assert(cache[i] == st.cache[i] && cache[j] == st.cache[j]);
        } else if i < last {
            assert(cache[i] == st.cache[i] && cache[j] == call);
        } else if j < last {
            assert(cache[j] == st.cache[j] && cache[i] == call);
            lemma_calls_alike_sym(call, st.cache[j]);
            al_sym(st.cache[j].result, call.result);
        } else {
            al_same(call.result);
        }
    }
}

proof fn lemma_calls_alike_sym(a: CallView, b: CallView)
    requires
        calls_alike(a, b),
    ensures
        calls_alike(b, a),
{
    assert forall|i: int| 0 <= i < b.args.len() implies alike(#[trigger] b.args[i], a.args[i]) by {
        assert(alike(a.args[i], b.args[i]));
        al_sym(a.args[i], b.args[i]);
    }
}

proof fn lemma_call_fresh(w: Walk, a: St, b: St, call: CallView)
    requires
        steady(entered(w, call.file, call.symbol), a, b),
        !w.active.contains((call.file, call.symbol)),
        st_grown(w.c, a, St { cache: b.cache.push(call), ..b }),
        good(w.c, St { cache: b.cache.push(call), ..b }),
    ensures
        steady(w, a, St { cache: b.cache.push(call), ..b }),
{
    reveal(fresh);
    let cache = b.cache.push(call);
    let p = (call.file, call.symbol);
    assert forall|i: int|
        #![trigger cache[i]]
        a.cache.len() <= i < cache.len() implies !w.active.contains(
        (cache[i].file, cache[i].symbol),
    ) by {
        if i < b.cache.len() {
            assert(cache[i] == b.cache[i]);
            lemma_entered(w.active, p, (b.cache[i].file, b.cache[i].symbol));
        }
    }
}

proof fn pr_call(
    w1: Walk,
    st1: St,
    env1: EnvView,
    ct1: Seq<WitnessView>,
    w2: Walk,
    st2: St,
    env2: EnvView,
    ct2: Seq<WitnessView>,
    n: int,
)
    requires
        both_start(w1, st1, env1, ct1, w2, st2, env2, ct2),
        past(ev_call(w1, st1, env1, ct1, n).0, st2),
        uncut(ev_call(w2, st2, env2, ct2, n).0.sink),
    ensures
        quiet(ev_call(w1, st1, env1, ct1, n).0, st2, ev_call(w2, st2, env2, ct2, n).0),
        alike(ev_call(w1, st1, env1, ct1, n).1, ev_call(w2, st2, env2, ct2, n).1),
    decreases MAX_CALL_DEPTH - w2.depth, w2.t().len() - n, 5int, 0int,
{
    let t = w2.t();
    let src = range_of(t, n);
    let kids = call_args(t, n);
    let name = match child_token(t, n, IDENT) {
        Some(x) => t[x].text,
        None => Seq::empty(),
    };
    let a = ev_list(w1, st1, env1, ct1, kids, 0, n);
    let b = ev_list(w2, st2, env2, ct2, kids, 0, n);
    let az = ev_call(w1, st1, env1, ct1, n);
    let bz = ev_call(w2, st2, env2, ct2, n);
    match callee_of(w2.c, n) {
        CalleeView::Witness { name: function, ret } => {
            let witness1 = WitnessView {
                uid: st1.sink.next_uid,
                src: match child_token(t, n, IDENT) {
                    Some(x) => range_of(t, x),
                    None => src,
                },
                info: InfoView::WitnessReturn { function },
                path: Seq::empty(),
            };
            let witness2 = WitnessView {
                uid: st2.sink.next_uid,
                src: match child_token(t, n, IDENT) {
                    Some(x) => range_of(t, x),
                    None => src,
                },
                info: InfoView::WitnessReturn { function },
                path: Seq::empty(),
            };
            al_typed(
                st1.sink.counted(),
                st2.sink.counted(),
                ret,
                seq![witness1],
                seq![witness2],
            );
            nn_same(st2.sink, bz.0.sink);
        },
        CalleeView::Circuit { file, symbol } => {
            pr_circuit_call(w1, st1, env1, ct1, w2, st2, env2, ct2, n, file, symbol);
        },
        CalleeView::Deferred => {
            kept_list(w2, st2, env2, ct2, kids, 0, n);
            lemma_advised(w2.c, a.0, src, "cross-circuit call not interpreted (v3b)"@);
            lemma_advised(w2.c, b.0, src, "cross-circuit call not interpreted (v3b)"@);
            link(w2.c, a.0, az.0, st2, b.0, bz.0);
            pr_list(w1, st1, env1, ct1, w2, st2, env2, ct2, kids, 0, n);
            nn_same(b.0.sink, bz.0.sink);
            nn_trans(st2.sink, b.0.sink, bz.0.sink);
        },
        CalleeView::Native => {
            let reason = "unknown native `"@ + name
                + "` not in the conduit table; conduit-tainting all args (fail-closed, may be stale)"@;
            kept_list(w2, st2, env2, ct2, kids, 0, n);
            lemma_same(w2.c, a.0);
            lemma_same(w2.c, b.0);
            lemma_advised(w2.c, a.0, src, reason);
            lemma_advised(w2.c, b.0, src, reason);
            kept_ledger_op(w1, a.0, ct1, n, name, a.1, src);
            kept_ledger_op(w2, b.0, ct2, n, name, b.1, src);
            link(w2.c, a.0, az.0, st2, b.0, bz.0);
            pr_list(w1, st1, env1, ct1, w2, st2, env2, ct2, kids, 0, n);
            if child_token(t, n, DOT) is Some {
                pr_ledger_op(w1, a.0, ct1, w2, b.0, ct2, n, name, a.1, b.1, src);
            } else {
                let none = Seq::<WitnessView>::empty();
                if let Some(flags) = native_flags(name) {
                    al_conduit(name, flags, a.1, b.1, 0, src, none, none);
                }
                al_all_conduit(name, a.1, b.1, 0, src, none, none);
                nn_same(b.0.sink, bz.0.sink);
            }
            nn_trans(st2.sink, b.0.sink, bz.0.sink);
        },
    }
}

proof fn cn_call(
    w: Walk,
    st: St,
    env: EnvView,
    control: Seq<WitnessView>,
    n: int,
)
    requires
        good(w.c, st),
        without_folds(w.t()),
        uncut(ev_call(w, st, env, control, n).0.sink),
    ensures
        steady(w, st, ev_call(w, st, env, control, n).0),
    decreases MAX_CALL_DEPTH - w.depth, w.t().len() - n, 5int, 0int,
{
    let t = w.t();
    let src = range_of(t, n);
    let kids = call_args(t, n);
    let name = match child_token(t, n, IDENT) {
        Some(x) => t[x].text,
        None => Seq::empty(),
    };
    let a = ev_list(w, st, env, control, kids, 0, n);
    let z = ev_call(w, st, env, control, n);
    steady_same(w, st);
    match callee_of(w.c, n) {
        CalleeView::Witness { .. } => {
            kept_call(w, st, env, control, n);
            steady_on(w, st, st, z.0);
        },
        CalleeView::Circuit { file, symbol } => {
            cn_circuit_call(w, st, env, control, n, file, symbol);
        },
        CalleeView::Deferred => {
            lemma_advised(w.c, a.0, src, "cross-circuit call not interpreted (v3b)"@);
            st_back(w.c, a.0, z.0);
            cn_list(w, st, env, control, kids, 0, n);
            steady_on(w, st, a.0, z.0);
        },
        CalleeView::Native => {
            let reason = "unknown native `"@ + name
                + "` not in the conduit table; conduit-tainting all args (fail-closed, may be stale)"@;
            lemma_same(w.c, a.0);
            lemma_advised(w.c, a.0, src, reason);
            kept_ledger_op(w, a.0, control, n, name, a.1, src);
            lemma_ledger_op_calls(w, a.0, control, n, name, a.1, src);
            st_back(w.c, a.0, z.0);
            cn_list(w, st, env, control, kids, 0, n);
            steady_on(w, st, a.0, z.0);
        },
    }
}

proof fn pr_ev(
    w1: Walk,
    st1: St,
    env1: EnvView,
    ct1: Seq<WitnessView>,
    w2: Walk,
    st2: St,
    env2: EnvView,
    ct2: Seq<WitnessView>,
    n: int,
)
    requires
        both_start(w1, st1, env1, ct1, w2, st2, env2, ct2),
        past(ev(w1, st1, env1, ct1, n).0, st2),
        uncut(ev(w2, st2, env2, ct2, n).0.sink),
    ensures
        quiet(ev(w1, st1, env1, ct1, n).0, st2, ev(w2, st2, env2, ct2, n).0),
        alike(ev(w1, st1, env1, ct1, n).1, ev(w2, st2, env2, ct2, n).1),
    decreases MAX_CALL_DEPTH - w2.depth, w2.t().len() - n, 9int, 0int,
{
    let t = w2.t();
    let kind = t[n].kind;
    let kids = children(t, n, Class::Expr);
    let none = Seq::<WitnessView>::empty();
    nn_same(st2.sink, st2.sink);
    if 0 <= n < t.len() {
        if kind == LITERAL_EXPR {
        } else if kind == NAME_EXPR {
            reveal(envs_alike);
            if let Some(x) = child_token(t, n, IDENT) {
                assert(env1.contains_key(t[x].text) == env2.contains_key(t[x].text));
            }
        } else if kind == PAREN_EXPR || kind == CAST_EXPR {
            pr_kid(w1, st1, env1, ct1, w2, st2, env2, ct2, n, 0);
        } else if kind == DISCLOSE_EXPR {
            pr_kid(w1, st1, env1, ct1, w2, st2, env2, ct2, n, 0);
            al_disclosed(kid(w1, st1, env1, ct1, n, 0).1, kid(w2, st2, env2, ct2, n, 0).1);
        } else if kind == DEFAULT_EXPR {
            if let Some(ty) = child(t, n, Class::Type) {
                al_typed(st1.sink, st2.sink, resolved_type(w2.c, ty), none, none);
                nn_same(st2.sink, ev(w2, st2, env2, ct2, n).0.sink);
            }
        } else if kind == BINARY_EXPR {
            pr_binary(w1, st1, env1, ct1, w2, st2, env2, ct2, n);
        } else if kind == TERNARY_EXPR {
            pr_ternary(w1, st1, env1, ct1, w2, st2, env2, ct2, n);
        } else if kind == CALL_EXPR {
            pr_call(w1, st1, env1, ct1, w2, st2, env2, ct2, n);
        } else if kind == MEMBER_EXPR {
            pr_member(w1, st1, env1, ct1, w2, st2, env2, ct2, n);
        } else if kind == INDEX_EXPR {
            pr_index(w1, st1, env1, ct1, w2, st2, env2, ct2, n);
        } else if kind == STRUCT_EXPR {
            pr_struct(w1, st1, env1, ct1, w2, st2, env2, ct2, n);
        } else if kind == ARRAY_EXPR {
            pr_join(w1, st1, env1, ct1, w2, st2, env2, ct2, kids, 0, n, None, None);
            assert(alike(AbsView::Atomic(none), AbsView::Atomic(none)));
        } else if kind == BYTES_EXPR {
            pr_union(w1, st1, env1, ct1, w2, st2, env2, ct2, kids, 0, n, none, none);
        } else if kind == MAP_EXPR {
            pr_map(w1, st1, env1, ct1, w2, st2, env2, ct2, n);
        } else if kind == SLICE_EXPR {
            let reason = "slice projection not modeled"@;
            pr_unmodelled(w1, st1, env1, ct1, w2, st2, env2, ct2, n, reason);
        } else if kind == PAD_EXPR {
            pr_unmodelled(w1, st1, env1, ct1, w2, st2, env2, ct2, n, "pad not modeled"@);
        } else if kind == SPREAD_EXPR {
            pr_unmodelled(w1, st1, env1, ct1, w2, st2, env2, ct2, n, "spread not modeled"@);
        } else if kind == UNARY_EXPR {
            pr_unmodelled(w1, st1, env1, ct1, w2, st2, env2, ct2, n, "unary operator not modeled"@);
        } else if kind == LAMBDA_EXPR {
            pr_unmodelled(w1, st1, env1, ct1, w2, st2, env2, ct2, n, "lambda not modeled"@);
        }
    }
}

proof fn cn_ev(
    w: Walk,
    st: St,
    env: EnvView,
    control: Seq<WitnessView>,
    n: int,
)
    requires
        good(w.c, st),
        without_folds(w.t()),
        uncut(ev(w, st, env, control, n).0.sink),
    ensures
        steady(w, st, ev(w, st, env, control, n).0),
    decreases MAX_CALL_DEPTH - w.depth, w.t().len() - n, 9int, 0int,
{
    let t = w.t();
    let kind = t[n].kind;
    let kids = children(t, n, Class::Expr);
    steady_same(w, st);
    if 0 <= n < t.len() {
        if kind == PAREN_EXPR || kind == CAST_EXPR || kind == DISCLOSE_EXPR {
            cn_kid(w, st, env, control, n, 0);
        } else if kind == DEFAULT_EXPR {
            kept_ev(w, st, env, control, n);
            steady_on(w, st, st, ev(w, st, env, control, n).0);
        } else if kind == BINARY_EXPR {
            cn_binary(w, st, env, control, n);
        } else if kind == TERNARY_EXPR {
            cn_ternary(w, st, env, control, n);
        } else if kind == CALL_EXPR {
            cn_call(w, st, env, control, n);
        } else if kind == MEMBER_EXPR {
            cn_member(w, st, env, control, n);
        } else if kind == INDEX_EXPR {
            cn_index(w, st, env, control, n);
        } else if kind == STRUCT_EXPR {
            cn_struct(w, st, env, control, n);
        } else if kind == ARRAY_EXPR {
            cn_join(w, st, env, control, kids, 0, n, None);
        } else if kind == BYTES_EXPR {
            cn_union(w, st, env, control, kids, 0, n, Seq::empty());
        } else if kind == MAP_EXPR {
            cn_map(w, st, env, control, n);
        } else if kind == SLICE_EXPR {
            cn_unmodelled(w, st, env, control, n, "slice projection not modeled"@);
        } else if kind == PAD_EXPR {
            cn_unmodelled(w, st, env, control, n, "pad not modeled"@);
        } else if kind == SPREAD_EXPR {
            cn_unmodelled(w, st, env, control, n, "spread not modeled"@);
        } else if kind == UNARY_EXPR {
            cn_unmodelled(w, st, env, control, n, "unary operator not modeled"@);
        } else if kind == LAMBDA_EXPR {
            cn_unmodelled(w, st, env, control, n, "lambda not modeled"@);
        }
    }
}

proof fn pr_block(
    w1: Walk,
    st1: St,
    env1: EnvView,
    ct1: Seq<WitnessView>,
    w2: Walk,
    st2: St,
    env2: EnvView,
    ct2: Seq<WitnessView>,
    kids: Seq<int>,
    k: int,
    after: int,
)
    requires
        both_start(w1, st1, env1, ct1, w2, st2, env2, ct2),
        past(run_block(w1, st1, env1, ct1, kids, k, after).0, st2),
        uncut(run_block(w2, st2, env2, ct2, kids, k, after).0.sink),
    ensures
        quiet(
            run_block(w1, st1, env1, ct1, kids, k, after).0,
            st2,
            run_block(w2, st2, env2, ct2, kids, k, after).0,
        ),
        envs_alike(
            run_block(w1, st1, env1, ct1, kids, k, after).1,
            run_block(w2, st2, env2, ct2, kids, k, after).1,
        ),
    decreases MAX_CALL_DEPTH - w2.depth, w2.t().len() - after, 3int, kids.len() - k,
{
    nn_same(st2.sink, st2.sink);
    if 0 <= k < kids.len() && after < kids[k] < w2.t().len() {
        let a = run(w1, st1, env1, ct1, kids[k]);
        let b = run(w2, st2, env2, ct2, kids[k]);
        let ar = run_block(w1, a.0, a.1, ct1, kids, k + 1, after);
        let br = run_block(w2, b.0, b.1, ct2, kids, k + 1, after);
        kept_block(w1, a.0, a.1, ct1, kids, k + 1, after);
        kept_run(w2, st2, env2, ct2, kids[k]);
        kept_block(w2, b.0, b.1, ct2, kids, k + 1, after);
        link(w2.c, a.0, ar.0, st2, b.0, br.0);
        pr_run(w1, st1, env1, ct1, w2, st2, env2, ct2, kids[k]);
        cn_run(w2, st2, env2, ct2, kids[k]);
        pr_block(w1, a.0, a.1, ct1, w2, b.0, b.1, ct2, kids, k + 1, after);
        nn_trans(st2.sink, b.0.sink, br.0.sink);
    }
}

proof fn cn_block(
    w: Walk,
    st: St,
    env: EnvView,
    control: Seq<WitnessView>,
    kids: Seq<int>,
    k: int,
    after: int,
)
    requires
        good(w.c, st),
        without_folds(w.t()),
        uncut(run_block(w, st, env, control, kids, k, after).0.sink),
    ensures
        steady(w, st, run_block(w, st, env, control, kids, k, after).0),
    decreases MAX_CALL_DEPTH - w.depth, w.t().len() - after, 3int, kids.len() - k,
{
    steady_same(w, st);
    if 0 <= k < kids.len() && after < kids[k] < w.t().len() {
        let a = run(w, st, env, control, kids[k]);
        let r = run_block(w, a.0, a.1, control, kids, k + 1, after);
        kept_block(w, a.0, a.1, control, kids, k + 1, after);
        st_back(w.c, a.0, r.0);
        cn_run(w, st, env, control, kids[k]);
        cn_block(w, a.0, a.1, control, kids, k + 1, after);
        steady_trans(w, st, a.0, r.0);
    }
}

proof fn pr_if(
    w1: Walk,
    st1: St,
    env1: EnvView,
    ct1: Seq<WitnessView>,
    w2: Walk,
    st2: St,
    env2: EnvView,
    ct2: Seq<WitnessView>,
    kids: Seq<int>,
    k: int,
    after: int,
    inner1: Seq<WitnessView>,
    inner2: Seq<WitnessView>,
)
    requires
        both_start(w1, st1, env1, ct1, w2, st2, env2, ct2),
        both_or_none(inner1, inner2),
        past(run_if(w1, st1, env1, ct1, kids, k, after, inner1), st2),
        uncut(run_if(w2, st2, env2, ct2, kids, k, after, inner2).sink),
    ensures
        quiet(
            run_if(w1, st1, env1, ct1, kids, k, after, inner1),
            st2,
            run_if(w2, st2, env2, ct2, kids, k, after, inner2),
        ),
    decreases MAX_CALL_DEPTH - w2.depth, w2.t().len() - after, 3int, kids.len() - k,
{
    let t = w2.t();
    nn_same(st2.sink, st2.sink);
    if 0 <= k < kids.len() && after < kids[k] < w2.t().len() {
        if in_class(Class::Expr, t[kids[k]].kind) {
            let src = range_of(t, after);
            let a = ev(w1, st1, env1, ct1, kids[k]);
            let b = ev(w2, st2, env2, ct2, kids[k]);
            let in1 = threaded(all_witnesses(a.1), ct1, src);
            let in2 = threaded(all_witnesses(b.1), ct2, src);
            let ar = run_if(w1, a.0, env1, ct1, kids, k + 1, after, in1);
            let br = run_if(w2, b.0, env2, ct2, kids, k + 1, after, in2);
            kept_if(w1, a.0, env1, ct1, kids, k + 1, after, in1);
            kept_ev(w2, st2, env2, ct2, kids[k]);
            kept_if(w2, b.0, env2, ct2, kids, k + 1, after, in2);
            link(w2.c, a.0, ar, st2, b.0, br);
            pr_ev(w1, st1, env1, ct1, w2, st2, env2, ct2, kids[k]);
            cn_ev(w2, st2, env2, ct2, kids[k]);
            al_threaded(a.1, b.1, ct1, ct2, src);
            pr_if(w1, a.0, env1, ct1, w2, b.0, env2, ct2, kids, k + 1, after, in1, in2);
            nn_trans(st2.sink, b.0.sink, br.sink);
        } else if in_class(Class::Stmt, t[kids[k]].kind) {
            let a = run(w1, st1, env1, inner1, kids[k]);
            let b = run(w2, st2, env2, inner2, kids[k]);
            let ar = run_if(w1, a.0, env1, ct1, kids, k + 1, after, inner1);
            let br = run_if(w2, b.0, env2, ct2, kids, k + 1, after, inner2);
            kept_if(w1, a.0, env1, ct1, kids, k + 1, after, inner1);
            kept_run(w2, st2, env2, inner2, kids[k]);
            kept_if(w2, b.0, env2, ct2, kids, k + 1, after, inner2);
            link(w2.c, a.0, ar, st2, b.0, br);
            pr_run(w1, st1, env1, inner1, w2, st2, env2, inner2, kids[k]);
            cn_run(w2, st2, env2, inner2, kids[k]);
            pr_if(w1, a.0, env1, ct1, w2, b.0, env2, ct2, kids, k + 1, after, inner1, inner2);
            nn_trans(st2.sink, b.0.sink, br.sink);
        } else {
            pr_if(w1, st1, env1, ct1, w2, st2, env2, ct2, kids, k + 1, after, inner1, inner2);
        }
    }
}

proof fn cn_if(
    w: Walk,
    st: St,
    env: EnvView,
    control: Seq<WitnessView>,
    kids: Seq<int>,
    k: int,
    after: int,
    inner: Seq<WitnessView>,
)
    requires
        good(w.c, st),
        without_folds(w.t()),
        uncut(run_if(w, st, env, control, kids, k, after, inner).sink),
    ensures
        steady(w, st, run_if(w, st, env, control, kids, k, after, inner)),
    decreases MAX_CALL_DEPTH - w.depth, w.t().len() - after, 3int, kids.len() - k,
{
    let t = w.t();
    steady_same(w, st);
    if 0 <= k < kids.len() && after < kids[k] < w.t().len() {
        if in_class(Class::Expr, t[kids[k]].kind) {
            let a = ev(w, st, env, control, kids[k]);
            let next = threaded(all_witnesses(a.1), control, range_of(t, after));
            let r = run_if(w, a.0, env, control, kids, k + 1, after, next);
            kept_if(w, a.0, env, control, kids, k + 1, after, next);
            st_back(w.c, a.0, r);
            cn_ev(w, st, env, control, kids[k]);
            cn_if(w, a.0, env, control, kids, k + 1, after, next);
            steady_trans(w, st, a.0, r);
        } else if in_class(Class::Stmt, t[kids[k]].kind) {
            let a = run(w, st, env, inner, kids[k]);
            let r = run_if(w, a.0, env, control, kids, k + 1, after, inner);
            kept_if(w, a.0, env, control, kids, k + 1, after, inner);
            st_back(w.c, a.0, r);
            cn_run(w, st, env, inner, kids[k]);
            cn_if(w, a.0, env, control, kids, k + 1, after, inner);
            steady_trans(w, st, a.0, r);
        } else {
            cn_if(w, st, env, control, kids, k + 1, after, inner);
        }
    }
}

proof fn pr_run(
    w1: Walk,
    st1: St,
    env1: EnvView,
    ct1: Seq<WitnessView>,
    w2: Walk,
    st2: St,
    env2: EnvView,
    ct2: Seq<WitnessView>,
    n: int,
)
    requires
        both_start(w1, st1, env1, ct1, w2, st2, env2, ct2),
        past(run(w1, st1, env1, ct1, n).0, st2),
        uncut(run(w2, st2, env2, ct2, n).0.sink),
    ensures
        quiet(run(w1, st1, env1, ct1, n).0, st2, run(w2, st2, env2, ct2, n).0),
        envs_alike(run(w1, st1, env1, ct1, n).1, run(w2, st2, env2, ct2, n).1),
    decreases MAX_CALL_DEPTH - w2.depth, w2.t().len() - n, 9int, 0int,
{
    let t = w2.t();
    let kind = t[n].kind;
    let kids = children(t, n, Class::Expr);
    nn_same(st2.sink, st2.sink);
    if 0 <= n < t.len() {
        if kind == BLOCK {
            pr_block(w1, st1, env1, ct1, w2, st2, env2, ct2, children(t, n, Class::Stmt), 0, n);
        } else if kind == CONST_STMT {
            pr_const(w1, st1, env1, ct1, w2, st2, env2, ct2, n);
        } else if kind == EXPR_STMT || kind == ASSERT_STMT {
            pr_list(w1, st1, env1, ct1, w2, st2, env2, ct2, kids, 0, n);
        } else if kind == ASSIGN_STMT {
            if kids.len() == 2 {
                pr_assign(w1, st1, env1, ct1, w2, st2, env2, ct2, n);
            } else {
                pr_list(w1, st1, env1, ct1, w2, st2, env2, ct2, kids, 0, n);
            }
        } else if kind == RETURN_STMT {
            if kids.len() > 0 {
                pr_return(w1, st1, env1, ct1, w2, st2, env2, ct2, n);
            }
        } else if kind == IF_STMT {
            pr_if(
                w1,
                st1,
                env1,
                ct1,
                w2,
                st2,
                env2,
                ct2,
                children(t, n, Class::Any),
                0,
                n,
                ct1,
                ct2,
            );
        } else if kind == FOR_STMT {
            pr_for(w1, st1, env1, ct1, w2, st2, env2, ct2, n);
        } else if kind == MULTI_CONST_STMT {
            let src = range_of(t, n);
            let a = st1.advised(src, "multi-const statement not modeled"@);
            let b = st2.advised(src, "multi-const statement not modeled"@);
            let az = ev_list(w1, a, env1, ct1, kids, 0, n);
            let bz = ev_list(w2, b, env2, ct2, kids, 0, n);
            lemma_advised(w2.c, st2, src, "multi-const statement not modeled"@);
            kept_list(w2, b, env2, ct2, kids, 0, n);
            lemma_same(w2.c, az.0);
            past_trans(w2.c, az.0, az.0, st2, b);
            lemma_advised_good(w2.c, st2, src, "multi-const statement not modeled"@);
            pr_list(w1, a, env1, ct1, w2, b, env2, ct2, kids, 0, n);
            nn_same(st2.sink, b.sink);
            nn_trans(st2.sink, b.sink, bz.0.sink);
        }
    }
}

proof fn pr_const(
    w1: Walk,
    st1: St,
    env1: EnvView,
    ct1: Seq<WitnessView>,
    w2: Walk,
    st2: St,
    env2: EnvView,
    ct2: Seq<WitnessView>,
    n: int,
)
    requires
        both_start(w1, st1, env1, ct1, w2, st2, env2, ct2),
        0 <= n < w2.t().len(),
        w2.t()[n].kind == CONST_STMT,
        past(run(w1, st1, env1, ct1, n).0, st2),
        uncut(run(w2, st2, env2, ct2, n).0.sink),
    ensures
        quiet(run(w1, st1, env1, ct1, n).0, st2, run(w2, st2, env2, ct2, n).0),
        envs_alike(run(w1, st1, env1, ct1, n).1, run(w2, st2, env2, ct2, n).1),
    decreases MAX_CALL_DEPTH - w2.depth, w2.t().len() - n, 8int, 0int,
{
    let t = w2.t();
    let a = kid(w1, st1, env1, ct1, n, 0);
    let b = kid(w2, st2, env2, ct2, n, 0);
    let az = run(w1, st1, env1, ct1, n);
    let bz = run(w2, st2, env2, ct2, n);
    kept_kid(w2, st2, env2, ct2, n, 0);
    lemma_same(w2.c, a.0);
    lemma_same(w2.c, b.0);
    if let Some(p) = child(t, n, Class::Pat) {
        kept_bound(t, a.0.sink, env1, p, a.1);
        lemma_sink_only(w2.c, a.0, az.0.sink);
        kept_bound(t, b.0.sink, env2, p, b.1);
        lemma_sink_only(w2.c, b.0, bz.0.sink);
    }
    link(w2.c, a.0, az.0, st2, b.0, bz.0);
    pr_kid(w1, st1, env1, ct1, w2, st2, env2, ct2, n, 0);
    if let Some(p) = child(t, n, Class::Pat) {
        al_bound(t, a.0.sink, b.0.sink, env1, env2, p, a.1, b.1);
    }
    nn_same(b.0.sink, bz.0.sink);
    nn_trans(st2.sink, b.0.sink, bz.0.sink);
}

proof fn pr_assign(
    w1: Walk,
    st1: St,
    env1: EnvView,
    ct1: Seq<WitnessView>,
    w2: Walk,
    st2: St,
    env2: EnvView,
    ct2: Seq<WitnessView>,
    n: int,
)
    requires
        both_start(w1, st1, env1, ct1, w2, st2, env2, ct2),
        0 <= n < w2.t().len(),
        w2.t()[n].kind == ASSIGN_STMT,
        children(w2.t(), n, Class::Expr).len() == 2,
        past(run(w1, st1, env1, ct1, n).0, st2),
        uncut(run(w2, st2, env2, ct2, n).0.sink),
    ensures
        quiet(run(w1, st1, env1, ct1, n).0, st2, run(w2, st2, env2, ct2, n).0),
        envs_alike(run(w1, st1, env1, ct1, n).1, run(w2, st2, env2, ct2, n).1),
    decreases MAX_CALL_DEPTH - w2.depth, w2.t().len() - n, 8int, 0int,
{
    let t = w2.t();
    let c = w2.c;
    let kids = children(t, n, Class::Expr);
    let a = kid(w1, st1, env1, ct1, n, 1);
    let b = kid(w2, st2, env2, ct2, n, 1);
    let az = assigned(w1, a.0, ct1, n, kids[0], kids[1], a.1);
    let bz = assigned(w2, b.0, ct2, n, kids[0], kids[1], b.1);
    kept_kid(w2, st2, env2, ct2, n, 1);
    kept_assigned(w1, a.0, ct1, n, kids[0], kids[1], a.1);
    kept_assigned(w2, b.0, ct2, n, kids[0], kids[1], b.1);
    link(c, a.0, az, st2, b.0, bz);
    pr_kid(w1, st1, env1, ct1, w2, st2, env2, ct2, n, 1);
    if writes_ledger(c, kids[0]) {
        let src = solid_range(t, kids[1]);
        let what = "ledger operation"@;
        let doing = "performing this ledger operation"@;
        let a1 = a.0.leaked(src, what, all_witnesses(a.1));
        let b1 = b.0.leaked(src, what, all_witnesses(b.1));
        lemma_leaked(c, a1, range_of(t, n), doing, ct1);
        lemma_leaked(c, b.0, src, what, all_witnesses(b.1));
        lemma_same(c, b.0);
        lemma_same(c, az);
        past_trans(c, a1, az, b.0, b.0);
        past_trans(c, az, az, b.0, b1);
        al_all(a.1, b.1);
        pr_leaked(a.0, b.0, src, what, all_witnesses(a.1), all_witnesses(b.1));
        pr_leaked(a1, b1, range_of(t, n), doing, ct1, ct2);
        nn_trans(b.0.sink, b1.sink, bz.sink);
    } else {
        nn_same(b.0.sink, bz.sink);
    }
    nn_trans(st2.sink, b.0.sink, bz.sink);
}

proof fn pr_return(
    w1: Walk,
    st1: St,
    env1: EnvView,
    ct1: Seq<WitnessView>,
    w2: Walk,
    st2: St,
    env2: EnvView,
    ct2: Seq<WitnessView>,
    n: int,
)
    requires
        both_start(w1, st1, env1, ct1, w2, st2, env2, ct2),
        0 <= n < w2.t().len(),
        w2.t()[n].kind == RETURN_STMT,
        children(w2.t(), n, Class::Expr).len() > 0,
        past(run(w1, st1, env1, ct1, n).0, st2),
        uncut(run(w2, st2, env2, ct2, n).0.sink),
    ensures
        quiet(run(w1, st1, env1, ct1, n).0, st2, run(w2, st2, env2, ct2, n).0),
        envs_alike(run(w1, st1, env1, ct1, n).1, run(w2, st2, env2, ct2, n).1),
    decreases MAX_CALL_DEPTH - w2.depth, w2.t().len() - n, 8int, 0int,
{
    let t = w2.t();
    let kids = children(t, n, Class::Expr);
    let a = kid(w1, st1, env1, ct1, n, 0);
    let b = kid(w2, st2, env2, ct2, n, 0);
    let az = returned(w1, a.0, ct1, n, kids[0], a.1);
    let bz = returned(w2, b.0, ct2, n, kids[0], b.1);
    kept_kid(w2, st2, env2, ct2, n, 0);
    kept_returned(w1, a.0, ct1, n, kids[0], a.1);
    kept_returned(w2, b.0, ct2, n, kids[0], b.1);
    link(w2.c, a.0, az, st2, b.0, bz);
    pr_kid(w1, st1, env1, ct1, w2, st2, env2, ct2, n, 0);
    al_all(a.1, b.1);
    lemma_merged_empty(a.0.ret, all_witnesses(a.1));
    lemma_merged_empty(b.0.ret, all_witnesses(b.1));
    nn_same(b.0.sink, bz.sink);
    nn_trans(st2.sink, b.0.sink, bz.sink);
}

proof fn pr_for(
    w1: Walk,
    st1: St,
    env1: EnvView,
    ct1: Seq<WitnessView>,
    w2: Walk,
    st2: St,
    env2: EnvView,
    ct2: Seq<WitnessView>,
    n: int,
)
    requires
        both_start(w1, st1, env1, ct1, w2, st2, env2, ct2),
        0 <= n < w2.t().len(),
        w2.t()[n].kind == FOR_STMT,
        past(run(w1, st1, env1, ct1, n).0, st2),
        uncut(run(w2, st2, env2, ct2, n).0.sink),
    ensures
        quiet(run(w1, st1, env1, ct1, n).0, st2, run(w2, st2, env2, ct2, n).0),
        envs_alike(run(w1, st1, env1, ct1, n).1, run(w2, st2, env2, ct2, n).1),
    decreases MAX_CALL_DEPTH - w2.depth, w2.t().len() - n, 8int, 0int,
{
    let t = w2.t();
    let c = w2.c;
    let kids = children(t, n, Class::Expr);
    let src = range_of(t, n);
    let none = Seq::<WitnessView>::empty();
    let a0 = st1.advised(src, "for loop not modeled (fixpoint deferred to A7)"@);
    let b0 = st2.advised(src, "for loop not modeled (fixpoint deferred to A7)"@);
    let a = ev_union(w1, a0, env1, ct1, kids, 0, n, none);
    let b = ev_union(w2, b0, env2, ct2, kids, 0, n, none);
    let az = run(w1, st1, env1, ct1, n);
    let bz = run(w2, st2, env2, ct2, n);
    let in1 = match child_token(t, n, IDENT) {
        Some(x) => env1.insert(t[x].text, AbsView::Atomic(a.1)),
        None => env1,
    };
    let in2 = match child_token(t, n, IDENT) {
        Some(x) => env2.insert(t[x].text, AbsView::Atomic(b.1)),
        None => env2,
    };
    lemma_advised(c, st2, src, "for loop not modeled (fixpoint deferred to A7)"@);
    lemma_advised_good(c, st2, src, "for loop not modeled (fixpoint deferred to A7)"@);
    kept_union(w2, b0, env2, ct2, kids, 0, n, none);
    lemma_same(c, a.0);
    lemma_same(c, b.0);
    if let Some(k) = child(t, n, Class::Kind(BLOCK)) {
        if n < k < t.len() {
            kept_run(w1, a.0, in1, ct1, k);
            kept_run(w2, b.0, in2, ct2, k);
        }
    }
    lemma_same(c, az.0);
    past_trans(c, az.0, az.0, st2, b0);
    link(c, a.0, az.0, b0, b.0, bz.0);
    pr_union(w1, a0, env1, ct1, w2, b0, env2, ct2, kids, 0, n, none, none);
    nn_same(st2.sink, b0.sink);
    nn_trans(st2.sink, b0.sink, b.0.sink);
    if let Some(k) = child(t, n, Class::Kind(BLOCK)) {
        if n < k < t.len() {
            cn_union(w2, b0, env2, ct2, kids, 0, n, none);
            if let Some(x) = child_token(t, n, IDENT) {
                al_env_insert(
                    env1,
                    env2,
                    t[x].text,
                    AbsView::Atomic(a.1),
                    AbsView::Atomic(b.1),
                );
            }
            pr_run(w1, a.0, in1, ct1, w2, b.0, in2, ct2, k);
            nn_trans(st2.sink, b.0.sink, bz.0.sink);
        }
    }
}

proof fn lemma_advised_good(c: CtxView, st: St, src: TextRange, reason: Seq<char>)
    requires
        good(c, st),
    ensures
        good(c, st.advised(src, reason)),
{
    lemma_advised(c, st, src, reason);
    reveal(st_grown);
    lemma_sound_later(c, st.cache, st.sink, st.advised(src, reason).sink);
}

proof fn cn_run(
    w: Walk,
    st: St,
    env: EnvView,
    control: Seq<WitnessView>,
    n: int,
)
    requires
        good(w.c, st),
        without_folds(w.t()),
        uncut(run(w, st, env, control, n).0.sink),
    ensures
        steady(w, st, run(w, st, env, control, n).0),
    decreases MAX_CALL_DEPTH - w.depth, w.t().len() - n, 9int, 0int,
{
    let t = w.t();
    let kind = t[n].kind;
    let kids = children(t, n, Class::Expr);
    let z = run(w, st, env, control, n);
    steady_same(w, st);
    if 0 <= n < t.len() {
        if kind == BLOCK {
            cn_block(w, st, env, control, children(t, n, Class::Stmt), 0, n);
        } else if kind == CONST_STMT {
            let a = kid(w, st, env, control, n, 0);
            lemma_same(w.c, a.0);
            if let Some(p) = child(t, n, Class::Pat) {
                kept_bound(t, a.0.sink, env, p, a.1);
                lemma_sink_only(w.c, a.0, z.0.sink);
            }
            st_back(w.c, a.0, z.0);
            cn_kid(w, st, env, control, n, 0);
            steady_on(w, st, a.0, z.0);
        } else if kind == EXPR_STMT || kind == ASSERT_STMT {
            cn_list(w, st, env, control, kids, 0, n);
        } else if kind == ASSIGN_STMT {
            if kids.len() == 2 {
                let a = kid(w, st, env, control, n, 1);
                kept_assigned(w, a.0, control, n, kids[0], kids[1], a.1);
                st_back(w.c, a.0, z.0);
                cn_kid(w, st, env, control, n, 1);
                steady_on(w, st, a.0, z.0);
            } else {
                cn_list(w, st, env, control, kids, 0, n);
            }
        } else if kind == RETURN_STMT {
            if kids.len() > 0 {
                let a = kid(w, st, env, control, n, 0);
                kept_returned(w, a.0, control, n, kids[0], a.1);
                st_back(w.c, a.0, z.0);
                cn_kid(w, st, env, control, n, 0);
                steady_on(w, st, a.0, z.0);
            }
        } else if kind == IF_STMT {
            cn_if(w, st, env, control, children(t, n, Class::Any), 0, n, control);
        } else if kind == FOR_STMT {
            cn_for(w, st, env, control, n);
        } else if kind == MULTI_CONST_STMT {
            let a = st.advised(range_of(t, n), "multi-const statement not modeled"@);
            lemma_advised(w.c, st, range_of(t, n), "multi-const statement not modeled"@);
            steady_on(w, st, st, a);
            cn_list(w, a, env, control, kids, 0, n);
            steady_trans(w, st, a, z.0);
        }
    }
}

proof fn cn_for(
    w: Walk,
    st: St,
    env: EnvView,
    control: Seq<WitnessView>,
    n: int,
)
    requires
        good(w.c, st),
        without_folds(w.t()),
        0 <= n < w.t().len(),
        w.t()[n].kind == FOR_STMT,
        uncut(run(w, st, env, control, n).0.sink),
    ensures
        steady(w, st, run(w, st, env, control, n).0),
    decreases MAX_CALL_DEPTH - w.depth, w.t().len() - n, 8int, 0int,
{
    let t = w.t();
    let kids = children(t, n, Class::Expr);
    let a0 = st.advised(range_of(t, n), "for loop not modeled (fixpoint deferred to A7)"@);
    let a = ev_union(w, a0, env, control, kids, 0, n, Seq::empty());
    let z = run(w, st, env, control, n);
    let scope = match child_token(t, n, IDENT) {
        Some(x) => env.insert(t[x].text, AbsView::Atomic(a.1)),
        None => env,
    };
    steady_same(w, st);
    lemma_advised(w.c, st, range_of(t, n), "for loop not modeled (fixpoint deferred to A7)"@);
    steady_on(w, st, st, a0);
    lemma_same(w.c, a.0);
    if let Some(k) = child(t, n, Class::Kind(BLOCK)) {
        if n < k < t.len() {
            kept_run(w, a.0, scope, control, k);
        }
    }
    st_back(w.c, a.0, z.0);
    cn_union(w, a0, env, control, kids, 0, n, Seq::empty());
    steady_trans(w, st, a0, a.0);
    if let Some(k) = child(t, n, Class::Kind(BLOCK)) {
        if n < k < t.len() {
            cn_run(w, a.0, scope, control, k);
            steady_trans(w, st, a.0, z.0);
        }
    }
}

proof fn pr_returning(
    w1: Walk,
    st1: St,
    env1: EnvView,
    ct1: Seq<WitnessView>,
    w2: Walk,
    st2: St,
    env2: EnvView,
    ct2: Seq<WitnessView>,
    kids: Seq<int>,
    k: int,
    after: int,
    tail1: Option<AbsView>,
    tail2: Option<AbsView>,
)
    requires
        both_start(w1, st1, env1, ct1, w2, st2, env2, ct2),
        opt_alike(tail1, tail2),
        past(run_returning(w1, st1, env1, ct1, kids, k, after, tail1).0, st2),
        uncut(run_returning(w2, st2, env2, ct2, kids, k, after, tail2).0.sink),
    ensures
        quiet(
            run_returning(w1, st1, env1, ct1, kids, k, after, tail1).0,
            st2,
            run_returning(w2, st2, env2, ct2, kids, k, after, tail2).0,
        ),
        opt_alike(
            run_returning(w1, st1, env1, ct1, kids, k, after, tail1).1,
            run_returning(w2, st2, env2, ct2, kids, k, after, tail2).1,
        ),
    decreases MAX_CALL_DEPTH - w2.depth, w2.t().len() - after, 3int, kids.len() - k,
{
    let t = w2.t();
    nn_same(st2.sink, st2.sink);
    if 0 <= k < kids.len() && after < kids[k] < w2.t().len() {
        if t[kids[k]].kind == RETURN_STMT {
            let a = kid(w1, st1, env1, ct1, kids[k], 0);
            let b = kid(w2, st2, env2, ct2, kids[k], 0);
            let next1 = match tail1 {
                Some(prev) => joined(prev, a.1),
                None => a.1,
            };
            let next2 = match tail2 {
                Some(prev) => joined(prev, b.1),
                None => b.1,
            };
            let ar = run_returning(w1, a.0, env1, ct1, kids, k + 1, after, Some(next1));
            let br = run_returning(w2, b.0, env2, ct2, kids, k + 1, after, Some(next2));
            kept_returning(w1, a.0, env1, ct1, kids, k + 1, after, Some(next1));
            kept_kid(w2, st2, env2, ct2, kids[k], 0);
            kept_returning(w2, b.0, env2, ct2, kids, k + 1, after, Some(next2));
            link(w2.c, a.0, ar.0, st2, b.0, br.0);
            pr_kid(w1, st1, env1, ct1, w2, st2, env2, ct2, kids[k], 0);
            cn_kid(w2, st2, env2, ct2, kids[k], 0);
            if let (Some(x), Some(y)) = (tail1, tail2) {
                al_joined(x, a.1, y, b.1);
            }
            pr_returning(
                w1,
                a.0,
                env1,
                ct1,
                w2,
                b.0,
                env2,
                ct2,
                kids,
                k + 1,
                after,
                Some(next1),
                Some(next2),
            );
            nn_trans(st2.sink, b.0.sink, br.0.sink);
        } else {
            let a = run(w1, st1, env1, ct1, kids[k]);
            let b = run(w2, st2, env2, ct2, kids[k]);
            let ar = run_returning(w1, a.0, a.1, ct1, kids, k + 1, after, tail1);
            let br = run_returning(w2, b.0, b.1, ct2, kids, k + 1, after, tail2);
            kept_returning(w1, a.0, a.1, ct1, kids, k + 1, after, tail1);
            kept_run(w2, st2, env2, ct2, kids[k]);
            kept_returning(w2, b.0, b.1, ct2, kids, k + 1, after, tail2);
            link(w2.c, a.0, ar.0, st2, b.0, br.0);
            pr_run(w1, st1, env1, ct1, w2, st2, env2, ct2, kids[k]);
            cn_run(w2, st2, env2, ct2, kids[k]);
            pr_returning(w1, a.0, a.1, ct1, w2, b.0, b.1, ct2, kids, k + 1, after, tail1, tail2);
            nn_trans(st2.sink, b.0.sink, br.0.sink);
        }
    }
}

proof fn cn_returning(
    w: Walk,
    st: St,
    env: EnvView,
    control: Seq<WitnessView>,
    kids: Seq<int>,
    k: int,
    after: int,
    tail: Option<AbsView>,
)
    requires
        good(w.c, st),
        without_folds(w.t()),
        uncut(run_returning(w, st, env, control, kids, k, after, tail).0.sink),
    ensures
        steady(w, st, run_returning(w, st, env, control, kids, k, after, tail).0),
    decreases MAX_CALL_DEPTH - w.depth, w.t().len() - after, 3int, kids.len() - k,
{
    let t = w.t();
    steady_same(w, st);
    if 0 <= k < kids.len() && after < kids[k] < w.t().len() {
        if t[kids[k]].kind == RETURN_STMT {
            let a = kid(w, st, env, control, kids[k], 0);
            let next = match tail {
                Some(prev) => joined(prev, a.1),
                None => a.1,
            };
            let r = run_returning(w, a.0, env, control, kids, k + 1, after, Some(next));
            kept_returning(w, a.0, env, control, kids, k + 1, after, Some(next));
            st_back(w.c, a.0, r.0);
            cn_kid(w, st, env, control, kids[k], 0);
            cn_returning(w, a.0, env, control, kids, k + 1, after, Some(next));
            steady_trans(w, st, a.0, r.0);
        } else {
            let a = run(w, st, env, control, kids[k]);
            let r = run_returning(w, a.0, a.1, control, kids, k + 1, after, tail);
            kept_returning(w, a.0, a.1, control, kids, k + 1, after, tail);
            st_back(w.c, a.0, r.0);
            cn_run(w, st, env, control, kids[k]);
            cn_returning(w, a.0, a.1, control, kids, k + 1, after, tail);
            steady_trans(w, st, a.0, r.0);
        }
    }
}

proof fn pr_body(
    w1: Walk,
    st1: St,
    env1: EnvView,
    ct1: Seq<WitnessView>,
    w2: Walk,
    st2: St,
    env2: EnvView,
    ct2: Seq<WitnessView>,
    n: int,
)
    requires
        both_start(
            w1,
            (St { ret: Seq::empty(), ..st1 }),
            env1,
            ct1,
            w2,
            (St { ret: Seq::empty(), ..st2 }),
            env2,
            ct2,
        ),
        past(ev_body(w1, st1, env1, ct1, n).0, st2),
        uncut(ev_body(w2, st2, env2, ct2, n).0.sink),
    ensures
        no_new_leak(st2.sink, ev_body(w2, st2, env2, ct2, n).0.sink),
        alike(ev_body(w1, st1, env1, ct1, n).1, ev_body(w2, st2, env2, ct2, n).1),
    decreases MAX_CALL_DEPTH - w2.depth, w2.t().len() - n, 8int, 0int,
{
    let kids = children(w2.t(), n, Class::Stmt);
    let s1 = St { ret: Seq::empty(), ..st1 };
    let s2 = St { ret: Seq::empty(), ..st2 };
    let a = run_returning(w1, s1, env1, ct1, kids, 0, n, None);
    let b = run_returning(w2, s2, env2, ct2, kids, 0, n, None);
    pr_returning(w1, s1, env1, ct1, w2, s2, env2, ct2, kids, 0, n, None, None);
    let x = match a.1 {
        Some(v) => v,
        None => AbsView::Atomic(Seq::empty()),
    };
    let y = match b.1 {
        Some(v) => v,
        None => AbsView::Atomic(Seq::empty()),
    };
    al_witnesses(x, y, a.0.ret, b.0.ret);
}

proof fn cn_body(
    w: Walk,
    st: St,
    env: EnvView,
    control: Seq<WitnessView>,
    n: int,
)
    requires
        good(w.c, st),
        without_folds(w.t()),
        uncut(ev_body(w, st, env, control, n).0.sink),
    ensures
        steady(w, st, ev_body(w, st, env, control, n).0),
    decreases MAX_CALL_DEPTH - w.depth, w.t().len() - n, 8int, 0int,
{
    let kids = children(w.t(), n, Class::Stmt);
    let s = St { ret: Seq::empty(), ..st };
    let r = run_returning(w, s, env, control, kids, 0, n, None);
    cn_returning(w, s, env, control, kids, 0, n, None);
    kept_body(w, st, env, control, n);
}

/// Wherever a walk without cut calls gets to from a state whose memory is sound,
/// the memory is sound: every remembered call was walked, and calls with
/// arguments that are tainted alike, under control that is, are remembered with
/// results that are. A walk starts with nothing remembered, which is sound.
pub proof fn law_memory_stays_sound(
    w: Walk,
    st: St,
    env: EnvView,
    control: Seq<WitnessView>,
    n: int,
)
    requires
        st.cache.len() == 0 || sound_memory(w.c, st.sink, st.cache),
        without_folds(w.t()),
        uncut(run(w, st, env, control, n).0.sink),
    ensures
        sound_memory(
            w.c,
            run(w, st, env, control, n).0.sink,
            run(w, st, env, control, n).0.cache,
        ),
{
    if st.cache.len() == 0 {
        reveal(sound_memory);
    }
    cn_run(w, st, env, control, n);
}

/// To walk a remembered call again would find nothing: from a state whose memory
/// is sound, the body comes to a value that is tainted as the remembered result
/// is, and by place and nature the table of leaks is the same as before. This
/// holds where no call is cut for being recursive or too deep, and of files
/// without folds.
pub proof fn law_second_walk_finds_nothing_new(
    w: Walk,
    st: St,
    i: int,
    src: TextRange,
    place: TextRange,
    nature: Seq<char>,
)
    requires
        w.f is None,
        sound_memory(w.c, st.sink, st.cache),
        without_folds(w.t()),
        0 <= i < st.cache.len(),
        uncut(call_walk(w.c, st.cache[i], w, st, src).0.sink),
    ensures
        alike(st.cache[i].result, call_walk(w.c, st.cache[i], w, st, src).1),
        found(call_walk(w.c, st.cache[i], w, st, src).0.sink.leaks, place, nature) <==> found(
            st.sink.leaks,
            place,
            nature,
        ),
{
    let e = st.cache[i];
    let callee = circuit_def(w.c, e.file, e.symbol)->0;
    let env = callee_env(Map::empty(), callee, e.args, 0, src);
    assert forall|k: int| 0 <= k < e.args.len() implies alike(#[trigger] e.args[k], e.args[k]) by {
        al_same(e.args[k]);
    }
    assert(CallView { args: e.args, control: e.control, ..e } == e);
    pr_again(w, st, i, e.args, e.control, src);
    kept_body(w, st, env, e.control, callee.body);
    reveal(no_new_leak);
    reveal(st_grown);
    let a = st.sink.leaks;
    let b = call_walk(w.c, e, w, st, src).0.sink.leaks;
    if found(a, place, nature) {
        let k = choose|k: int|
            0 <= k < a.len() && (#[trigger] a[k]).src == place && a[k].nature == nature;
        assert(b[k].src == place && b[k].nature == nature);
    }
}

} // verus!
