//! Laws of the walk as a whole.

use vstd::prelude::*;

use crate::calls::call_args;
use crate::db::CtxView;
use crate::diagnostics::Severity;
use crate::disclosure::abs::{
    all_witnesses, equivalent, joined, merged, tagged, with_point, AbsView, InfoView, PointView,
    WitnessView,
};
use crate::disclosure::abs_laws::{
    compatible, has_uid, law_disclose_clears, law_join_unites, law_merge_unites, lemma_upto_uids,
};
use crate::disclosure::leaks::{
    distinct_from, distinct_leaks, empty_sink, law_leak_table_dedups, law_leaks_are_kept,
    law_recorded_leak_is_found, tainted_leaks, with_leak, LeakView, SinkView,
};
use crate::disclosure::model::{
    all_args_leaked, all_bound, assigned, bound, bound_names, built, cached_from, callee_env,
    callee_of, circuit_def, combined, element_patterns, elements_at, elements_of, ev, ev_binary,
    ev_body, ev_call, ev_circuit_call, ev_fold, ev_index, ev_inits, ev_join, ev_list, ev_map,
    ev_member, ev_struct, ev_ternary, ev_union, ev_unmodelled, flagged_args_leaked, fold_bound,
    fold_fixed, fold_unrolled, indexed, kid, lambda_of, lambda_params, ledger_op_done, map_unrolled,
    operator_from, returned, run, run_block, run_if, run_returning, threaded, typed_abs,
    typed_elems, typed_fields, unroll_len_from, with_params, writes_ledger, CalleeView, CallView,
    EnvView, St, Walk, MAX_CALL_DEPTH,
};
use crate::disclosure::report::{
    disclosure_problems, file_walked, leak_diag, roots_walked, witness_spans,
};
use crate::disclosure::roots::{
    body_of, export_lists, exported_names, param_info, reexported, root_node, root_walked,
    roots_from, roots_of, seeded, seeded_from, watched, RootView,
};
use crate::disclosure::tables::{ledger_flags, FlagsView, LedgerOpView};
use crate::item_tree::SymbolView;
use crate::kinds::{
    in_class, Class, AMP_AMP, DISCLOSE_EXPR, LAMBDA_EXPR, PAD_EXPR, PIPE_PIPE, RETURN_STMT,
    SLICE_EXPR, SPREAD_EXPR, STRUCT_PAT, TUPLE_PAT, TUPLE_PAT_ELT, UNARY_EXPR,
};
use crate::resolve::pattern_tokens;
use crate::syntax::{child, children, range_of, Tree};
use crate::text::TextRange;
use crate::ty::TyView;
use crate::typing::resolved_type;
use crate::vfs::FileId;

verus! {

// ---------------------------------------------------------------------------
// What a sink keeps
// ---------------------------------------------------------------------------

/// Whether the leak table is in order: one entry per place and nature, and
/// each of them tainted.
pub open spec fn table_ok(leaks: Seq<LeakView>) -> bool {
    distinct_leaks(leaks) && tainted_leaks(leaks)
}

/// Whether sink `b` holds all that sink `a` holds: every leak in its place
/// with at least its witnesses, every advisory in its place, and the leak
/// table in order if it was.
pub open spec fn sink_grown(a: SinkView, b: SinkView) -> bool {
    &&& a.leaks.len() <= b.leaks.len()
    &&& forall|i: int|
        #![trigger b.leaks[i]]
        0 <= i < a.leaks.len() ==> b.leaks[i].src == a.leaks[i].src && b.leaks[i].nature
            == a.leaks[i].nature
    &&& forall|i: int, uid: u32|
        #![trigger has_uid(b.leaks[i].witnesses, uid)]
        0 <= i < a.leaks.len() && has_uid(a.leaks[i].witnesses, uid) ==> has_uid(
            b.leaks[i].witnesses,
            uid,
        )
    &&& a.advisories.is_prefix_of(b.advisories)
    &&& table_ok(a.leaks) ==> table_ok(b.leaks)
}

/// Whether call `e` was walked from state `st` in walk `w`, with the result that
/// is remembered, and all that this walk had found by its end is in `sink`.
pub open spec fn walked_from(
    c: CtxView,
    e: CallView,
    sink: SinkView,
    w: Walk,
    st: St,
    src: TextRange,
) -> bool {
    &&& w.c == c
    &&& w.f is None
    &&& circuit_def(c, e.file, e.symbol) matches Some(callee) && ({
        let r = ev_body(
            w,
            st,
            callee_env(Map::empty(), callee, e.args, 0, src),
            e.control,
            callee.body,
        );
        r.1 == e.result && sink_grown(r.0.sink, sink)
    })
}

/// Whether call `e` was walked, and all that its walk found is in `sink`.
pub open spec fn was_walked(c: CtxView, e: CallView, sink: SinkView) -> bool {
    exists|w: Walk, st: St, src: TextRange| #[trigger] walked_from(c, e, sink, w, st, src)
}

/// Whether every remembered call was walked.
pub open spec fn all_walked(c: CtxView, st: St) -> bool {
    forall|i: int|
        #![trigger st.cache[i]]
        0 <= i < st.cache.len() ==> was_walked(c, st.cache[i], st.sink)
}

/// Whether state `b` holds all that state `a` holds, the remembered calls
/// included, and every remembered call was walked if that held before.
#[verifier::opaque]
pub open spec fn st_grown(x: CtxView, a: St, b: St) -> bool {
    &&& sink_grown(a.sink, b.sink)
    &&& a.cache.is_prefix_of(b.cache)
    &&& all_walked(x, a) ==> all_walked(x, b)
}

/// What was found before is still there when more is found.
proof fn lemma_still_walked(x: CtxView, a: St, b: St)
    requires
        all_walked(x, a),
        sink_grown(a.sink, b.sink),
        a.cache == b.cache,
    ensures
        all_walked(x, b),
{
    assert forall|i: int| #![trigger b.cache[i]] 0 <= i < b.cache.len() implies was_walked(
        x,
        b.cache[i],
        b.sink,
    ) by {
        lemma_walked_grown(x, a.cache[i], a.sink, b.sink);
    }
}

proof fn lemma_walked_grown(x: CtxView, e: CallView, a: SinkView, b: SinkView)
    requires
        was_walked(x, e, a),
        sink_grown(a, b),
    ensures
        was_walked(x, e, b),
{
    let (w, st, src) = choose|w: Walk, st: St, src: TextRange| #[trigger]
        walked_from(x, e, a, w, st, src);
    let callee = circuit_def(x, e.file, e.symbol)->0;
    let r = ev_body(
        w,
        st,
        callee_env(Map::empty(), callee, e.args, 0, src),
        e.control,
        callee.body,
    );
    lemma_sink_grown_trans(r.0.sink, a, b);
    assert(walked_from(x, e, b, w, st, src));
}

pub(crate) proof fn lemma_sink_grown_trans(a: SinkView, b: SinkView, c: SinkView)
    requires
        sink_grown(a, b),
        sink_grown(b, c),
    ensures
        sink_grown(a, c),
{
    assert forall|i: int| #![trigger c.leaks[i]] 0 <= i < a.leaks.len() implies c.leaks[i].src
        == a.leaks[i].src && c.leaks[i].nature == a.leaks[i].nature by {
        assert(b.leaks[i].src == a.leaks[i].src);
    }
    assert forall|i: int, uid: u32|
        #![trigger has_uid(c.leaks[i].witnesses, uid)]
        0 <= i < a.leaks.len() && has_uid(a.leaks[i].witnesses, uid) implies has_uid(
        c.leaks[i].witnesses,
        uid,
    ) by {
        assert(has_uid(b.leaks[i].witnesses, uid));
    }
    assert(a.advisories =~= c.advisories.take(a.advisories.len() as int));
}

pub(crate) proof fn lemma_same(x: CtxView, a: St)
    ensures
        st_grown(x, a, a),
{
    reveal(st_grown);
}

pub(crate) proof fn lemma_trans(x: CtxView, a: St, b: St, c: St)
    requires
        st_grown(x, a, b),
        st_grown(x, b, c),
    ensures
        st_grown(x, a, c),
{
    reveal(st_grown);
    lemma_sink_grown_trans(a.sink, b.sink, c.sink);
    assert(a.cache =~= c.cache.take(a.cache.len() as int));
}

proof fn lemma_sink_advised(s: SinkView, src: TextRange, reason: Seq<char>)
    ensures
        sink_grown(s, s.advised(src, reason)),
{
    assert(s.advisories =~= s.advised(src, reason).advisories.take(s.advisories.len() as int));
}

proof fn lemma_sink_leaked(s: SinkView, src: TextRange, nature: Seq<char>, ws: Seq<WitnessView>)
    ensures
        sink_grown(s, s.leaked(src, nature, ws)),
{
    let r = s.leaked(src, nature, ws);
    assert forall|i: int| #![trigger r.leaks[i]] 0 <= i < s.leaks.len() implies r.leaks[i].src
        == s.leaks[i].src && r.leaks[i].nature == s.leaks[i].nature && r.leaks.len()
        >= s.leaks.len() by {
        law_leaks_are_kept(s.leaks, src, nature, ws, i, 0);
    }
    assert forall|i: int, uid: u32|
        #![trigger has_uid(r.leaks[i].witnesses, uid)]
        0 <= i < s.leaks.len() && has_uid(s.leaks[i].witnesses, uid) implies has_uid(
        r.leaks[i].witnesses,
        uid,
    ) by {
        law_leaks_are_kept(s.leaks, src, nature, ws, i, uid);
    }
    if table_ok(s.leaks) {
        law_leak_table_dedups(s.leaks, src, nature, ws);
    }
    if s.leaks.len() > 0 {
        assert(r.leaks[0].src == s.leaks[0].src);
    }
}

pub(crate) proof fn lemma_sink_counted(s: SinkView)
    ensures
        sink_grown(s, s.counted()),
{
}

pub(crate) proof fn lemma_advised(x: CtxView, st: St, src: TextRange, reason: Seq<char>)
    ensures
        st_grown(x, st, st.advised(src, reason)),
{
    reveal(st_grown);
    lemma_sink_advised(st.sink, src, reason);
    if all_walked(x, st) {
        lemma_still_walked(x, st, st.advised(src, reason));
    }
}

pub(crate) proof fn lemma_leaked(
    x: CtxView,
    st: St,
    src: TextRange,
    nature: Seq<char>,
    ws: Seq<WitnessView>,
)
    ensures
        st_grown(x, st, st.leaked(src, nature, ws)),
{
    reveal(st_grown);
    lemma_sink_leaked(st.sink, src, nature, ws);
    if all_walked(x, st) {
        lemma_still_walked(x, st, st.leaked(src, nature, ws));
    }
}

/// A state that differs only in what was returned holds the same.
pub(crate) proof fn lemma_ret(x: CtxView, a: St, b: St, ret: Seq<WitnessView>)
    requires
        st_grown(x, a, b),
    ensures
        st_grown(x, a, St { ret, ..b }),
        st_grown(x, St { ret, ..a }, b),
{
    reveal(st_grown);
    lemma_sink_same(a.sink);
    lemma_sink_same(b.sink);
    if all_walked(x, b) {
        lemma_still_walked(x, b, St { ret, ..b });
    }
    if all_walked(x, St { ret, ..a }) {
        lemma_still_walked(x, St { ret, ..a }, a);
    }
}

pub(crate) proof fn lemma_sink_same(s: SinkView)
    ensures
        sink_grown(s, s),
{
    assert(s.advisories =~= s.advisories.take(s.advisories.len() as int));
}

pub(crate) proof fn lemma_sink_only(x: CtxView, st: St, sink: SinkView)
    requires
        sink_grown(st.sink, sink),
    ensures
        st_grown(x, st, St { sink, ..st }),
{
    reveal(st_grown);
    if all_walked(x, st) {
        lemma_still_walked(x, st, St { sink, ..st });
    }
}

pub(crate) proof fn kept_typed(sink: SinkView, ty: TyView, seed: Seq<WitnessView>)
    ensures
        sink_grown(sink, typed_abs(sink, ty, seed).0),
    decreases ty, 1int, 0int,
{
    match ty {
        TyView::Struct { fields, .. } => kept_typed_fields(sink, fields, 0, seed),
        TyView::Tuple(elems) => kept_typed_elems(sink, elems, 0, seed),
        TyView::Vector(_, elem) => kept_typed(sink, *elem, seed),
        TyView::Unknown => lemma_sink_advised(
            sink,
            if seed.len() > 0 {
                seed[0].src
            } else {
                TextRange { start: 0, end: 0 }
            },
            crate::disclosure::model::unknown_type_reason(),
        ),
        _ => {},
    }
}

pub(crate) proof fn kept_typed_fields(
    sink: SinkView,
    fields: Seq<(Seq<char>, TyView)>,
    i: int,
    seed: Seq<WitnessView>,
)
    ensures
        sink_grown(sink, typed_fields(sink, fields, i, seed).0),
    decreases fields, 0int, fields.len() - i,
{
    if 0 <= i < fields.len() {
        let a = typed_abs(sink, fields[i].1, seed);
        kept_typed(sink, fields[i].1, seed);
        kept_typed_fields(a.0, fields, i + 1, seed);
        lemma_sink_grown_trans(sink, a.0, typed_fields(a.0, fields, i + 1, seed).0);
    }
}

pub(crate) proof fn kept_typed_elems(
    sink: SinkView,
    elems: Seq<TyView>,
    i: int,
    seed: Seq<WitnessView>,
)
    ensures
        sink_grown(sink, typed_elems(sink, elems, i, seed).0),
    decreases elems, 0int, elems.len() - i,
{
    if 0 <= i < elems.len() {
        let a = typed_abs(sink, elems[i], seed);
        kept_typed(sink, elems[i], seed);
        kept_typed_elems(a.0, elems, i + 1, seed);
        lemma_sink_grown_trans(sink, a.0, typed_elems(a.0, elems, i + 1, seed).0);
    }
}

pub(crate) proof fn kept_bound(t: Tree, sink: SinkView, env: EnvView, p: int, val: AbsView)
    ensures
        sink_grown(sink, bound(t, sink, env, p, val).0),
    decreases t.len() - p, 0int, 0int,
{
    let src = range_of(t, p);
    lemma_sink_advised(
        sink,
        src,
        "tuple destructuring shape did not match value; conservatively unioned"@,
    );
    lemma_sink_advised(
        sink,
        src,
        "struct destructuring not modeled positionally; conservatively unioned"@,
    );
    if 0 <= p < t.len() && val is Multiple {
        let pats = element_patterns(
            t,
            children(t, p, Class::Kind(TUPLE_PAT_ELT)),
            0,
        );
        kept_all_bound(t, sink, env, pats, 0, val->Multiple_0, p);
    }
}

pub(crate) proof fn kept_all_bound(
    t: Tree,
    sink: SinkView,
    env: EnvView,
    pats: Seq<int>,
    k: int,
    vals: Seq<AbsView>,
    after: int,
)
    ensures
        sink_grown(sink, all_bound(t, sink, env, pats, k, vals, after).0),
    decreases t.len() - after - 1, 1int, pats.len() - k,
{
    if 0 <= k < pats.len() && after < pats[k] < t.len() {
        let r = bound(t, sink, env, pats[k], vals[k]);
        kept_bound(t, sink, env, pats[k], vals[k]);
        kept_all_bound(t, r.0, r.1, pats, k + 1, vals, after);
        lemma_sink_grown_trans(
            sink,
            r.0,
            all_bound(t, r.0, r.1, pats, k + 1, vals, after).0,
        );
    }
}

pub(crate) proof fn kept_all_args(
    x: CtxView,
    st: St,
    op: Seq<char>,
    args: Seq<AbsView>,
    k: int,
    src: TextRange,
)
    ensures
        st_grown(x, st, all_args_leaked(st, op, args, k, src)),
    decreases args.len() - k,
{
    if 0 <= k < args.len() {
        let next = crate::disclosure::model::arg_leaked(
            st,
            op,
            k,
            args.len(),
            Seq::empty(),
            args[k],
            src,
        );
        kept_arg(x, st, op, k, args.len(), Seq::empty(), args[k], src);
        kept_all_args(x, next, op, args, k + 1, src);
        lemma_trans(x, st, next, all_args_leaked(next, op, args, k + 1, src));
    } else {
        lemma_same(x, st);
    }
}

pub(crate) proof fn kept_arg(
    x: CtxView,
    st: St,
    op: Seq<char>,
    i: int,
    count: nat,
    exposure: Seq<char>,
    arg: AbsView,
    src: TextRange,
)
    ensures
        st_grown(x, st, crate::disclosure::model::arg_leaked(st, op, i, count, exposure, arg, src)),
{
    lemma_leaked(
        x,
        st,
        src,
        "ledger operation"@,
        all_witnesses(
            with_point(
                arg,
                crate::disclosure::model::arg_point(src, op, i, count, exposure),
            ),
        ),
    );
}

pub(crate) proof fn kept_flagged_args(
    x: CtxView,
    st: St,
    op: Seq<char>,
    flags: FlagsView,
    args: Seq<AbsView>,
    k: int,
    src: TextRange,
)
    ensures
        st_grown(x, st, flagged_args_leaked(st, op, flags, args, k, src)),
    decreases flags.len() - k,
{
    if 0 <= k < flags.len() && k < args.len() {
        let next = match flags[k] {
            Some(e) => crate::disclosure::model::arg_leaked(
                st,
                op,
                k,
                flags.len(),
                e,
                args[k],
                src,
            ),
            None => st,
        };
        match flags[k] {
            Some(e) => kept_arg(x, st, op, k, flags.len(), e, args[k], src),
            None => lemma_same(x, st),
        }
        kept_flagged_args(x, next, op, flags, args, k + 1, src);
        lemma_trans(x, st, next, flagged_args_leaked(next, op, flags, args, k + 1, src));
    } else {
        lemma_same(x, st);
    }
}

pub(crate) proof fn kept_ledger_op(
    w: Walk,
    st: St,
    control: Seq<WitnessView>,
    n: int,
    name: Seq<char>,
    args: Seq<AbsView>,
    src: TextRange,
)
    ensures
        st_grown(w.c, st, ledger_op_done(w, st, control, n, name, args, src)),
{
    lemma_advised(w.c, st, src, "method call on a non-ledger receiver not modeled"@);
    let st1 = st.leaked(src, "performing this ledger operation"@, control);
    lemma_leaked(w.c, st, src, "performing this ledger operation"@, control);
    let all = all_args_leaked(st1, name, args, 0, src);
    kept_all_args(w.c, st1, name, args, 0, src);
    lemma_trans(w.c, st, st1, all);
    let reason = "unknown ledger op `"@ + name
        + "`; leaking all witness args (fail-closed, may be stale)"@;
    lemma_advised(w.c, all, src, reason);
    lemma_trans(w.c, st, all, all.advised(src, reason));
    if let Some(LedgerOpView::PerArg(flags)) = ledger_flags(name) {
        kept_flagged_args(w.c, st1, name, flags, args, 0, src);
        lemma_trans(w.c, st, st1, flagged_args_leaked(st1, name, flags, args, 0, src));
    }
}

pub(crate) proof fn kept_combined(
    x: CtxView,
    st: St,
    op: Option<u16>,
    lhs: AbsView,
    rhs: AbsView,
    src: TextRange,
)
    ensures
        st_grown(x, st, combined(st, op, lhs, rhs, src).0),
{
    lemma_same(x, st);
    lemma_advised(x, st, src, "binary operator not modeled"@);
}

pub(crate) proof fn kept_indexed(
    x: CtxView,
    st: St,
    base: AbsView,
    index: Seq<WitnessView>,
    src: TextRange,
)
    ensures
        st_grown(x, st, indexed(st, base, index, src).0),
{
    lemma_same(x, st);
    lemma_advised(
        x,
        st,
        src,
        "index into heterogeneous aggregate could not be resolved; conservatively unioned"@,
    );
}

pub(crate) proof fn kept_built(
    x: CtxView,
    st: St,
    declared: TyView,
    inits: Seq<(Option<Seq<char>>, AbsView)>,
    src: TextRange,
)
    ensures
        st_grown(x, st, built(st, declared, inits, src).0),
{
    lemma_same(x, st);
    lemma_advised(
        x,
        st,
        src,
        "struct literal type could not be resolved; fields kept in source order"@,
    );
}

pub(crate) proof fn kept_assigned(
    w: Walk,
    st: St,
    control: Seq<WitnessView>,
    n: int,
    target: int,
    value: int,
    val: AbsView,
)
    ensures
        st_grown(w.c, st, assigned(w, st, control, n, target, value, val)),
{
    lemma_same(w.c, st);
    let src = crate::disclosure::model::solid_range(w.t(), value);
    let st1 = st.leaked(src, "ledger operation"@, all_witnesses(val));
    lemma_leaked(w.c, st, src, "ledger operation"@, all_witnesses(val));
    lemma_leaked(w.c, st1, range_of(w.t(), n), "performing this ledger operation"@, control);
    lemma_trans(
        w.c,
        st,
        st1,
        st1.leaked(range_of(w.t(), n), "performing this ledger operation"@, control),
    );
}

pub(crate) proof fn kept_returned(
    w: Walk,
    st: St,
    control: Seq<WitnessView>,
    n: int,
    value: int,
    val: AbsView,
)
    ensures
        st_grown(w.c, st, returned(w, st, control, n, value, val)),
{
    let ret = merged(st.ret, all_witnesses(val));
    let st1 = St { ret, ..st };
    lemma_same(w.c, st);
    lemma_ret(w.c, st, st, ret);
    if let Some(f) = w.f {
        let src = crate::disclosure::model::solid_range(w.t(), value);
        let what = "the value returned from exported circuit "@ + f;
        let own = crate::disclosure::model::returned_only(all_witnesses(val), 0);
        let st2 = st1.leaked(src, what, own);
        lemma_leaked(w.c, st1, src, what, own);
        lemma_trans(w.c, st, st1, st2);
        let doing = "returning this value from exported circuit "@ + f;
        let ctl = crate::disclosure::model::returned_only(control, 0);
        lemma_leaked(w.c, st2, range_of(w.t(), n), doing, ctl);
        lemma_trans(w.c, st, st2, st2.leaked(range_of(w.t(), n), doing, ctl));
    }
}

// ---------------------------------------------------------------------------
// What a walk keeps
// ---------------------------------------------------------------------------

pub(crate) proof fn kept_kid(
    w: Walk,
    st: St,
    env: EnvView,
    control: Seq<WitnessView>,
    n: int,
    i: int,
)
    ensures
        st_grown(w.c, st, kid(w, st, env, control, n, i).0),
    decreases MAX_CALL_DEPTH - w.depth, w.t().len() - n, 4int, 0int,
{
    let kids = children(w.t(), n, Class::Expr);
    if 0 <= i < kids.len() && n < kids[i] < w.t().len() {
        kept_ev(w, st, env, control, kids[i]);
    } else {
        lemma_same(w.c, st);
    }
}

pub(crate) proof fn kept_list(
    w: Walk,
    st: St,
    env: EnvView,
    control: Seq<WitnessView>,
    kids: Seq<int>,
    k: int,
    after: int,
)
    ensures
        st_grown(w.c, st, ev_list(w, st, env, control, kids, k, after).0),
    decreases MAX_CALL_DEPTH - w.depth, w.t().len() - after, 3int, kids.len() - k,
{
    if 0 <= k < kids.len() && after < kids[k] < w.t().len() {
        let a = ev(w, st, env, control, kids[k]);
        kept_ev(w, st, env, control, kids[k]);
        kept_list(w, a.0, env, control, kids, k + 1, after);
        lemma_trans(w.c, st, a.0, ev_list(w, a.0, env, control, kids, k + 1, after).0);
    } else {
        lemma_same(w.c, st);
    }
}

pub(crate) proof fn kept_union(
    w: Walk,
    st: St,
    env: EnvView,
    control: Seq<WitnessView>,
    kids: Seq<int>,
    k: int,
    after: int,
    ws: Seq<WitnessView>,
)
    ensures
        st_grown(w.c, st, ev_union(w, st, env, control, kids, k, after, ws).0),
    decreases MAX_CALL_DEPTH - w.depth, w.t().len() - after, 3int, kids.len() - k,
{
    if 0 <= k < kids.len() && after < kids[k] < w.t().len() {
        let a = ev(w, st, env, control, kids[k]);
        let more = merged(ws, all_witnesses(a.1));
        kept_ev(w, st, env, control, kids[k]);
        kept_union(w, a.0, env, control, kids, k + 1, after, more);
        lemma_trans(w.c, st, a.0, ev_union(w, a.0, env, control, kids, k + 1, after, more).0);
    } else {
        lemma_same(w.c, st);
    }
}

pub(crate) proof fn kept_join(
    w: Walk,
    st: St,
    env: EnvView,
    control: Seq<WitnessView>,
    kids: Seq<int>,
    k: int,
    after: int,
    acc: Option<AbsView>,
)
    ensures
        st_grown(w.c, st, ev_join(w, st, env, control, kids, k, after, acc).0),
    decreases MAX_CALL_DEPTH - w.depth, w.t().len() - after, 3int, kids.len() - k,
{
    if 0 <= k < kids.len() && after < kids[k] < w.t().len() {
        let a = ev(w, st, env, control, kids[k]);
        let next = match acc {
            Some(prev) => joined(prev, a.1),
            None => a.1,
        };
        kept_ev(w, st, env, control, kids[k]);
        kept_join(w, a.0, env, control, kids, k + 1, after, Some(next));
        lemma_trans(w.c, st, a.0, ev_join(w, a.0, env, control, kids, k + 1, after, Some(next)).0);
    } else {
        lemma_same(w.c, st);
    }
}

pub(crate) proof fn kept_unmodelled(
    w: Walk,
    st: St,
    env: EnvView,
    control: Seq<WitnessView>,
    n: int,
    reason: Seq<char>,
)
    ensures
        st_grown(w.c, st, ev_unmodelled(w, st, env, control, n, reason).0),
    decreases MAX_CALL_DEPTH - w.depth, w.t().len() - n, 4int, 0int,
{
    let kids = children(w.t(), n, Class::Expr);
    let r = ev_union(w, st, env, control, kids, 0, n, Seq::empty());
    kept_union(w, st, env, control, kids, 0, n, Seq::empty());
    lemma_advised(w.c, r.0, range_of(w.t(), n), reason);
    lemma_trans(w.c, st, r.0, r.0.advised(range_of(w.t(), n), reason));
}

pub(crate) proof fn kept_binary(w: Walk, st: St, env: EnvView, control: Seq<WitnessView>, n: int)
    ensures
        st_grown(w.c, st, ev_binary(w, st, env, control, n).0),
    decreases MAX_CALL_DEPTH - w.depth, w.t().len() - n, 5int, 0int,
{
    let src = range_of(w.t(), n);
    let op = operator_from(w.t(), n + 1, w.t()[n].next);
    let lhs = kid(w, st, env, control, n, 0);
    kept_kid(w, st, env, control, n, 0);
    let inner = if op == Some(AMP_AMP) || op == Some(PIPE_PIPE) {
        threaded(all_witnesses(lhs.1), control, src)
    } else {
        control
    };
    let rhs = kid(w, lhs.0, env, inner, n, 1);
    kept_kid(w, lhs.0, env, inner, n, 1);
    lemma_trans(w.c, st, lhs.0, rhs.0);
    kept_combined(w.c, rhs.0, op, lhs.1, rhs.1, src);
    lemma_trans(w.c, st, rhs.0, combined(rhs.0, op, lhs.1, rhs.1, src).0);
}

pub(crate) proof fn kept_ternary(w: Walk, st: St, env: EnvView, control: Seq<WitnessView>, n: int)
    ensures
        st_grown(w.c, st, ev_ternary(w, st, env, control, n).0),
    decreases MAX_CALL_DEPTH - w.depth, w.t().len() - n, 5int, 0int,
{
    let src = range_of(w.t(), n);
    let cond = kid(w, st, env, control, n, 0);
    kept_kid(w, st, env, control, n, 0);
    let inner = threaded(all_witnesses(cond.1), control, src);
    let yes = kid(w, cond.0, env, inner, n, 1);
    kept_kid(w, cond.0, env, inner, n, 1);
    lemma_trans(w.c, st, cond.0, yes.0);
    let no = kid(w, yes.0, env, inner, n, 2);
    kept_kid(w, yes.0, env, inner, n, 2);
    lemma_trans(w.c, st, yes.0, no.0);
}

pub(crate) proof fn kept_member(w: Walk, st: St, env: EnvView, control: Seq<WitnessView>, n: int)
    ensures
        st_grown(w.c, st, ev_member(w, st, env, control, n).0),
    decreases MAX_CALL_DEPTH - w.depth, w.t().len() - n, 5int, 0int,
{
    lemma_same(w.c, st);
    let base = kid(w, st, env, control, n, 0);
    kept_kid(w, st, env, control, n, 0);
    let reason = "struct/tuple member projection could not be resolved; conservatively unioned"@;
    lemma_advised(w.c, base.0, range_of(w.t(), n), reason);
    lemma_trans(w.c, st, base.0, base.0.advised(range_of(w.t(), n), reason));
}

pub(crate) proof fn kept_index(w: Walk, st: St, env: EnvView, control: Seq<WitnessView>, n: int)
    ensures
        st_grown(w.c, st, ev_index(w, st, env, control, n).0),
    decreases MAX_CALL_DEPTH - w.depth, w.t().len() - n, 5int, 0int,
{
    let base = kid(w, st, env, control, n, 0);
    kept_kid(w, st, env, control, n, 0);
    let index = kid(w, base.0, env, control, n, 1);
    kept_kid(w, base.0, env, control, n, 1);
    lemma_trans(w.c, st, base.0, index.0);
    let src = range_of(w.t(), n);
    kept_indexed(w.c, index.0, base.1, all_witnesses(index.1), src);
    lemma_trans(w.c, st, index.0, indexed(index.0, base.1, all_witnesses(index.1), src).0);
}

pub(crate) proof fn kept_inits(
    w: Walk,
    st: St,
    env: EnvView,
    control: Seq<WitnessView>,
    kids: Seq<int>,
    k: int,
    after: int,
)
    ensures
        st_grown(w.c, st, ev_inits(w, st, env, control, kids, k, after).0),
    decreases MAX_CALL_DEPTH - w.depth, w.t().len() - after, 3int, kids.len() - k,
{
    if 0 <= k < kids.len() && after < kids[k] < w.t().len() {
        let a = kid(w, st, env, control, kids[k], 0);
        kept_kid(w, st, env, control, kids[k], 0);
        kept_inits(w, a.0, env, control, kids, k + 1, after);
        lemma_trans(w.c, st, a.0, ev_inits(w, a.0, env, control, kids, k + 1, after).0);
    } else {
        lemma_same(w.c, st);
    }
}

pub(crate) proof fn kept_struct(w: Walk, st: St, env: EnvView, control: Seq<WitnessView>, n: int)
    ensures
        st_grown(w.c, st, ev_struct(w, st, env, control, n).0),
    decreases MAX_CALL_DEPTH - w.depth, w.t().len() - n, 5int, 0int,
{
    kept_unmodelled(
        w,
        st,
        env,
        control,
        n,
        "struct-update (spread) construction not modeled"@,
    );
    let t = w.t();
    let kids = children(t, n, Class::Kind(crate::kinds::STRUCT_FIELD_INIT));
    let r = ev_inits(w, st, env, control, kids, 0, n);
    kept_inits(w, st, env, control, kids, 0, n);
    let declared = match crate::syntax::child_token(t, n, crate::kinds::IDENT) {
        Some(x) => crate::typing::named_type(w.c, t[x].start, Seq::empty()),
        None => TyView::Unknown,
    };
    kept_built(w.c, r.0, declared, r.1, range_of(t, n));
    lemma_trans(w.c, st, r.0, built(r.0, declared, r.1, range_of(t, n)).0);
}

pub(crate) proof fn kept_map_unrolled(
    w: Walk,
    st: St,
    env: EnvView,
    control: Seq<WitnessView>,
    body: int,
    params: Seq<Option<Seq<char>>>,
    seqs: Seq<AbsView>,
    i: int,
    len: int,
)
    ensures
        st_grown(w.c, st, map_unrolled(w, st, env, control, body, params, seqs, i, len).0),
    decreases MAX_CALL_DEPTH - w.depth, w.t().len() - body, 50int, len - i,
{
    if 0 <= i < len {
        let scope = with_params(env, params, elements_at(seqs, i), 0);
        let a = ev(w, st, scope, control, body);
        kept_ev(w, st, scope, control, body);
        kept_map_unrolled(w, a.0, env, control, body, params, seqs, i + 1, len);
        lemma_trans(
            w.c,
            st,
            a.0,
            map_unrolled(w, a.0, env, control, body, params, seqs, i + 1, len).0,
        );
    } else {
        lemma_same(w.c, st);
    }
}

pub(crate) proof fn kept_map(w: Walk, st: St, env: EnvView, control: Seq<WitnessView>, n: int)
    ensures
        st_grown(w.c, st, ev_map(w, st, env, control, n).0),
    decreases MAX_CALL_DEPTH - w.depth, w.t().len() - n, 5int, 0int,
{
    let t = w.t();
    let kids = children(t, n, Class::Expr);
    lemma_same(w.c, st);
    kept_unmodelled(w, st, env, control, n, "malformed map"@);
    kept_unmodelled(
        w,
        st,
        env,
        control,
        n,
        "map with a non-lambda function reference not modeled"@,
    );
    if kids.len() > 1 {
        if let Some((lambda, body)) = lambda_of(t, kids[0]) {
            let params = lambda_params(t, lambda);
            let seqs = ev_list(w, st, env, control, kids, 1, n);
            kept_list(w, st, env, control, kids, 1, n);
            if n < body < t.len() {
                match unroll_len_from(seqs.1, 0) {
                    Some(len) => {
                        kept_map_unrolled(
                            w,
                            seqs.0,
                            env,
                            control,
                            body,
                            params,
                            seqs.1,
                            0,
                            len as int,
                        );
                        lemma_trans(
                            w.c,
                            st,
                            seqs.0,
                            map_unrolled(
                                w,
                                seqs.0,
                                env,
                                control,
                                body,
                                params,
                                seqs.1,
                                0,
                                len as int,
                            ).0,
                        );
                    },
                    None => {
                        let scope = with_params(env, params, elements_of(seqs.1), 0);
                        kept_ev(w, seqs.0, scope, control, body);
                        lemma_trans(w.c, st, seqs.0, ev(w, seqs.0, scope, control, body).0);
                    },
                }
            }
        }
    }
}

pub(crate) proof fn kept_fold_unrolled(
    w: Walk,
    st: St,
    env: EnvView,
    control: Seq<WitnessView>,
    body: int,
    params: Seq<Option<Seq<char>>>,
    seqs: Seq<AbsView>,
    i: int,
    len: int,
    acc: AbsView,
)
    ensures
        st_grown(w.c, st, fold_unrolled(w, st, env, control, body, params, seqs, i, len, acc).0),
    decreases MAX_CALL_DEPTH - w.depth, w.t().len() - body, 50int, len - i,
{
    if 0 <= i < len {
        let scope = with_params(env, params, seq![acc] + elements_at(seqs, i), 0);
        let a = ev(w, st, scope, control, body);
        kept_ev(w, st, scope, control, body);
        kept_fold_unrolled(w, a.0, env, control, body, params, seqs, i + 1, len, a.1);
        lemma_trans(
            w.c,
            st,
            a.0,
            fold_unrolled(w, a.0, env, control, body, params, seqs, i + 1, len, a.1).0,
        );
    } else {
        lemma_same(w.c, st);
    }
}

pub(crate) proof fn kept_fold_fixed(
    w: Walk,
    st: St,
    env: EnvView,
    control: Seq<WitnessView>,
    body: int,
    params: Seq<Option<Seq<char>>>,
    elems: Seq<AbsView>,
    k: int,
    bound: int,
    acc: AbsView,
)
    ensures
        st_grown(w.c, st, fold_fixed(w, st, env, control, body, params, elems, k, bound, acc).0),
    decreases MAX_CALL_DEPTH - w.depth, w.t().len() - body, 50int, bound - k,
{
    if 0 <= k < bound {
        let scope = with_params(env, params, seq![acc] + elems, 0);
        let a = ev(w, st, scope, control, body);
        kept_ev(w, st, scope, control, body);
        if !equivalent(a.1, acc) {
            kept_fold_fixed(w, a.0, env, control, body, params, elems, k + 1, bound, a.1);
            lemma_trans(
                w.c,
                st,
                a.0,
                fold_fixed(w, a.0, env, control, body, params, elems, k + 1, bound, a.1).0,
            );
        }
    } else {
        lemma_same(w.c, st);
    }
}

pub(crate) proof fn kept_fold(w: Walk, st: St, env: EnvView, control: Seq<WitnessView>, n: int)
    ensures
        st_grown(w.c, st, ev_fold(w, st, env, control, n).0),
    decreases MAX_CALL_DEPTH - w.depth, w.t().len() - n, 5int, 0int,
{
    let t = w.t();
    let kids = children(t, n, Class::Expr);
    kept_unmodelled(
        w,
        st,
        env,
        control,
        n,
        "fold missing its function, init value, or sequence"@,
    );
    kept_unmodelled(w, st, env, control, n, "fold missing its sequence"@);
    kept_unmodelled(
        w,
        st,
        env,
        control,
        n,
        "fold with a non-lambda function reference not modeled"@,
    );
    if kids.len() > 2 {
        if let Some((lambda, body)) = lambda_of(t, kids[0]) {
            let params = lambda_params(t, lambda);
            let init = kid(w, st, env, control, n, 1);
            kept_kid(w, st, env, control, n, 1);
            let seqs = ev_list(w, init.0, env, control, kids, 2, n);
            kept_list(w, init.0, env, control, kids, 2, n);
            lemma_trans(w.c, st, init.0, seqs.0);
            if n < body < t.len() {
                match unroll_len_from(seqs.1, 0) {
                    Some(len) => {
                        kept_fold_unrolled(
                            w,
                            seqs.0,
                            env,
                            control,
                            body,
                            params,
                            seqs.1,
                            0,
                            len as int,
                            init.1,
                        );
                        lemma_trans(
                            w.c,
                            st,
                            seqs.0,
                            fold_unrolled(
                                w,
                                seqs.0,
                                env,
                                control,
                                body,
                                params,
                                seqs.1,
                                0,
                                len as int,
                                init.1,
                            ).0,
                        );
                    },
                    None => {
                        let elems = elements_of(seqs.1);
                        let bound = fold_bound(init.1, elems) as int;
                        kept_fold_fixed(
                            w,
                            seqs.0,
                            env,
                            control,
                            body,
                            params,
                            elems,
                            0,
                            bound,
                            init.1,
                        );
                        lemma_trans(
                            w.c,
                            st,
                            seqs.0,
                            fold_fixed(
                                w,
                                seqs.0,
                                env,
                                control,
                                body,
                                params,
                                elems,
                                0,
                                bound,
                                init.1,
                            ).0,
                        );
                    },
                }
            }
        }
    }
}

pub(crate) proof fn kept_circuit_call(
    w: Walk,
    st: St,
    env: EnvView,
    control: Seq<WitnessView>,
    n: int,
    file: FileId,
    symbol: u32,
)
    ensures
        st_grown(w.c, st, ev_circuit_call(w, st, env, control, n, file, symbol).0),
    decreases MAX_CALL_DEPTH - w.depth, w.t().len() - n, 4int, 0int,
{
    let t = w.t();
    let src = range_of(t, n);
    let args = ev_list(w, st, env, control, call_args(t, n), 0, n);
    kept_list(w, st, env, control, call_args(t, n), 0, n);
    let too_deep = "recursive or deeply-nested circuit call not analyzed"@;
    lemma_advised(w.c, args.0, src, too_deep);
    lemma_trans(w.c, st, args.0, args.0.advised(src, too_deep));
    let unresolved =
        "cross-circuit call target could not be resolved (cross-module deferred to v3b)"@;
    lemma_advised(w.c, args.0, src, unresolved);
    lemma_trans(w.c, st, args.0, args.0.advised(src, unresolved));
    let arity = "circuit call arity mismatch not analyzed"@;
    lemma_advised(w.c, args.0, src, arity);
    lemma_trans(w.c, st, args.0, args.0.advised(src, arity));
    if !(w.depth >= MAX_CALL_DEPTH || w.active.contains((file, symbol))) {
        if let Some(callee) = circuit_def(w.c, file, symbol) {
            let inner = Walk {
                c: CtxView { file, ..w.c },
                f: None,
                active: w.active.push((file, symbol)),
                depth: w.depth + 1,
            };
            let scope = callee_env(Map::empty(), callee, args.1, 0, src);
            let r = ev_body(inner, args.0, scope, control, callee.body);
            assert(inner.c == w.c);
            kept_body(inner, args.0, scope, control, callee.body);
            lemma_trans(w.c, st, args.0, r.0);
            let call = CallView { file, symbol, args: args.1, control, result: r.1 };
            lemma_sink_same(r.0.sink);
            assert(walked_from(w.c, call, r.0.sink, inner, args.0, src));
            lemma_call_added(w.c, r.0, call);
            lemma_trans(w.c, st, r.0, St { cache: r.0.cache.push(call), ..r.0 });
        }
    }
}

pub(crate) proof fn lemma_call_added(x: CtxView, st: St, call: CallView)
    requires
        was_walked(x, call, st.sink),
    ensures
        st_grown(x, st, St { cache: st.cache.push(call), ..st }),
{
    reveal(st_grown);
    lemma_sink_same(st.sink);
    assert(st.cache =~= st.cache.push(call).take(st.cache.len() as int));
    let out = St { cache: st.cache.push(call), ..st };
    if all_walked(x, st) {
        assert forall|i: int| #![trigger out.cache[i]] 0 <= i < out.cache.len() implies was_walked(
            x,
            out.cache[i],
            out.sink,
        ) by {
            if i < st.cache.len() {
                assert(out.cache[i] == st.cache[i]);
            }
        }
    }
}

pub(crate) proof fn kept_call(w: Walk, st: St, env: EnvView, control: Seq<WitnessView>, n: int)
    ensures
        st_grown(w.c, st, ev_call(w, st, env, control, n).0),
    decreases MAX_CALL_DEPTH - w.depth, w.t().len() - n, 5int, 0int,
{
    let t = w.t();
    let src = range_of(t, n);
    let name = match crate::syntax::child_token(t, n, crate::kinds::IDENT) {
        Some(x) => t[x].text,
        None => Seq::empty(),
    };
    match callee_of(w.c, n) {
        CalleeView::Witness { name: function, ret } => {
            let witness = WitnessView {
                uid: st.sink.next_uid,
                src: match crate::syntax::child_token(t, n, crate::kinds::IDENT) {
                    Some(x) => range_of(t, x),
                    None => src,
                },
                info: InfoView::WitnessReturn { function },
                path: Seq::empty(),
            };
            let r = typed_abs(st.sink.counted(), ret, seq![witness]);
            lemma_sink_counted(st.sink);
            kept_typed(st.sink.counted(), ret, seq![witness]);
            lemma_sink_grown_trans(st.sink, st.sink.counted(), r.0);
            lemma_sink_only(w.c, st, r.0);
        },
        CalleeView::Circuit { file, symbol } => {
            kept_circuit_call(w, st, env, control, n, file, symbol);
        },
        CalleeView::Deferred => {
            let args = ev_list(w, st, env, control, call_args(t, n), 0, n);
            kept_list(w, st, env, control, call_args(t, n), 0, n);
            let reason = "cross-circuit call not interpreted (v3b)"@;
            lemma_advised(w.c, args.0, src, reason);
            lemma_trans(w.c, st, args.0, args.0.advised(src, reason));
        },
        CalleeView::Native => {
            let args = ev_list(w, st, env, control, call_args(t, n), 0, n);
            kept_list(w, st, env, control, call_args(t, n), 0, n);
            kept_ledger_op(w, args.0, control, n, name, args.1, src);
            lemma_trans(
                w.c,
                st,
                args.0,
                ledger_op_done(w, args.0, control, n, name, args.1, src),
            );
            let reason = "unknown native `"@ + name
                + "` not in the conduit table; conduit-tainting all args (fail-closed, may be stale)"@;
            lemma_advised(w.c, args.0, src, reason);
            lemma_trans(w.c, st, args.0, args.0.advised(src, reason));
        },
    }
}

pub(crate) proof fn kept_ev(w: Walk, st: St, env: EnvView, control: Seq<WitnessView>, n: int)
    ensures
        st_grown(w.c, st, ev(w, st, env, control, n).0),
    decreases MAX_CALL_DEPTH - w.depth, w.t().len() - n, 9int, 0int,
{
    let t = w.t();
    lemma_same(w.c, st);
    if 0 <= n < t.len() {
        kept_kid(w, st, env, control, n, 0);
        if let Some(ty) = child(t, n, Class::Type) {
            kept_typed(st.sink, resolved_type(w.c, ty), Seq::empty());
            lemma_sink_only(w.c, st, typed_abs(st.sink, resolved_type(w.c, ty), Seq::empty()).0);
        }
        kept_binary(w, st, env, control, n);
        kept_ternary(w, st, env, control, n);
        kept_call(w, st, env, control, n);
        kept_member(w, st, env, control, n);
        kept_index(w, st, env, control, n);
        kept_struct(w, st, env, control, n);
        kept_join(w, st, env, control, children(t, n, Class::Expr), 0, n, None);
        kept_union(w, st, env, control, children(t, n, Class::Expr), 0, n, Seq::empty());
        kept_map(w, st, env, control, n);
        kept_fold(w, st, env, control, n);
        kept_unmodelled(w, st, env, control, n, "slice projection not modeled"@);
        kept_unmodelled(w, st, env, control, n, "pad not modeled"@);
        kept_unmodelled(w, st, env, control, n, "spread not modeled"@);
        kept_unmodelled(w, st, env, control, n, "unary operator not modeled"@);
        kept_unmodelled(w, st, env, control, n, "lambda not modeled"@);
    }
}

pub(crate) proof fn kept_block(
    w: Walk,
    st: St,
    env: EnvView,
    control: Seq<WitnessView>,
    kids: Seq<int>,
    k: int,
    after: int,
)
    ensures
        st_grown(w.c, st, run_block(w, st, env, control, kids, k, after).0),
    decreases MAX_CALL_DEPTH - w.depth, w.t().len() - after, 3int, kids.len() - k,
{
    if 0 <= k < kids.len() && after < kids[k] < w.t().len() {
        let r = run(w, st, env, control, kids[k]);
        kept_run(w, st, env, control, kids[k]);
        kept_block(w, r.0, r.1, control, kids, k + 1, after);
        lemma_trans(w.c, st, r.0, run_block(w, r.0, r.1, control, kids, k + 1, after).0);
    } else {
        lemma_same(w.c, st);
    }
}

pub(crate) proof fn kept_if(
    w: Walk,
    st: St,
    env: EnvView,
    control: Seq<WitnessView>,
    kids: Seq<int>,
    k: int,
    after: int,
    inner: Seq<WitnessView>,
)
    ensures
        st_grown(w.c, st, run_if(w, st, env, control, kids, k, after, inner)),
    decreases MAX_CALL_DEPTH - w.depth, w.t().len() - after, 3int, kids.len() - k,
{
    let t = w.t();
    if 0 <= k < kids.len() && after < kids[k] < t.len() {
        if in_class(Class::Expr, t[kids[k]].kind) {
            let cond = ev(w, st, env, control, kids[k]);
            kept_ev(w, st, env, control, kids[k]);
            let next = threaded(all_witnesses(cond.1), control, range_of(t, after));
            kept_if(w, cond.0, env, control, kids, k + 1, after, next);
            lemma_trans(
                w.c,
                st,
                cond.0,
                run_if(w, cond.0, env, control, kids, k + 1, after, next),
            );
        } else if in_class(Class::Stmt, t[kids[k]].kind) {
            let r = run(w, st, env, inner, kids[k]);
            kept_run(w, st, env, inner, kids[k]);
            kept_if(w, r.0, env, control, kids, k + 1, after, inner);
            lemma_trans(w.c, st, r.0, run_if(w, r.0, env, control, kids, k + 1, after, inner));
        } else {
            kept_if(w, st, env, control, kids, k + 1, after, inner);
        }
    } else {
        lemma_same(w.c, st);
    }
}

pub(crate) proof fn kept_run(w: Walk, st: St, env: EnvView, control: Seq<WitnessView>, n: int)
    ensures
        st_grown(w.c, st, run(w, st, env, control, n).0),
    decreases MAX_CALL_DEPTH - w.depth, w.t().len() - n, 9int, 0int,
{
    let t = w.t();
    let kids = children(t, n, Class::Expr);
    lemma_same(w.c, st);
    if 0 <= n < t.len() {
        kept_block(w, st, env, control, children(t, n, Class::Stmt), 0, n);
        let val = kid(w, st, env, control, n, 0);
        kept_kid(w, st, env, control, n, 0);
        if let Some(p) = child(t, n, Class::Pat) {
            let r = bound(t, val.0.sink, env, p, val.1);
            kept_bound(t, val.0.sink, env, p, val.1);
            lemma_sink_only(w.c, val.0, r.0);
            lemma_trans(w.c, st, val.0, St { sink: r.0, ..val.0 });
        }
        kept_list(w, st, env, control, kids, 0, n);
        if kids.len() == 2 {
            let second = kid(w, st, env, control, n, 1);
            kept_kid(w, st, env, control, n, 1);
            kept_assigned(w, second.0, control, n, kids[0], kids[1], second.1);
            lemma_trans(
                w.c,
                st,
                second.0,
                assigned(w, second.0, control, n, kids[0], kids[1], second.1),
            );
        }
        if kids.len() > 0 {
            kept_returned(w, val.0, control, n, kids[0], val.1);
            lemma_trans(w.c, st, val.0, returned(w, val.0, control, n, kids[0], val.1));
        }
        kept_if(w, st, env, control, children(t, n, Class::Any), 0, n, control);
        kept_for(w, st, env, control, n);
        let many = "multi-const statement not modeled"@;
        let st1 = st.advised(range_of(t, n), many);
        lemma_advised(w.c, st, range_of(t, n), many);
        kept_list(w, st1, env, control, kids, 0, n);
        lemma_trans(w.c, st, st1, ev_list(w, st1, env, control, kids, 0, n).0);
    }
}

pub(crate) proof fn kept_for(w: Walk, st: St, env: EnvView, control: Seq<WitnessView>, n: int)
    requires
        0 <= n < w.t().len(),
    ensures
        w.t()[n].kind == crate::kinds::FOR_STMT ==> st_grown(w.c, st, run(w, st, env, control, n).0),
    decreases MAX_CALL_DEPTH - w.depth, w.t().len() - n, 8int, 0int,
{
    let t = w.t();
    let kids = children(t, n, Class::Expr);
    let reason = "for loop not modeled (fixpoint deferred to A7)"@;
    let st1 = st.advised(range_of(t, n), reason);
    lemma_advised(w.c, st, range_of(t, n), reason);
    let r = ev_union(w, st1, env, control, kids, 0, n, Seq::empty());
    kept_union(w, st1, env, control, kids, 0, n, Seq::empty());
    lemma_trans(w.c, st, st1, r.0);
    let scope = match crate::syntax::child_token(t, n, crate::kinds::IDENT) {
        Some(x) => env.insert(t[x].text, AbsView::Atomic(r.1)),
        None => env,
    };
    if let Some(b) = child(t, n, Class::Kind(crate::kinds::BLOCK)) {
        if n < b < t.len() {
            kept_run(w, r.0, scope, control, b);
            lemma_trans(w.c, st, r.0, run(w, r.0, scope, control, b).0);
        }
    }
}

pub(crate) proof fn kept_returning(
    w: Walk,
    st: St,
    env: EnvView,
    control: Seq<WitnessView>,
    kids: Seq<int>,
    k: int,
    after: int,
    tail: Option<AbsView>,
)
    ensures
        st_grown(w.c, st, run_returning(w, st, env, control, kids, k, after, tail).0),
    decreases MAX_CALL_DEPTH - w.depth, w.t().len() - after, 3int, kids.len() - k,
{
    let t = w.t();
    if 0 <= k < kids.len() && after < kids[k] < t.len() {
        if t[kids[k]].kind == RETURN_STMT {
            let val = kid(w, st, env, control, kids[k], 0);
            kept_kid(w, st, env, control, kids[k], 0);
            let next = match tail {
                Some(prev) => joined(prev, val.1),
                None => val.1,
            };
            kept_returning(w, val.0, env, control, kids, k + 1, after, Some(next));
            lemma_trans(
                w.c,
                st,
                val.0,
                run_returning(w, val.0, env, control, kids, k + 1, after, Some(next)).0,
            );
        } else {
            let r = run(w, st, env, control, kids[k]);
            kept_run(w, st, env, control, kids[k]);
            kept_returning(w, r.0, r.1, control, kids, k + 1, after, tail);
            lemma_trans(
                w.c,
                st,
                r.0,
                run_returning(w, r.0, r.1, control, kids, k + 1, after, tail).0,
            );
        }
    } else {
        lemma_same(w.c, st);
    }
}

pub(crate) proof fn kept_body(w: Walk, st: St, env: EnvView, control: Seq<WitnessView>, n: int)
    ensures
        st_grown(w.c, st, ev_body(w, st, env, control, n).0),
    decreases MAX_CALL_DEPTH - w.depth, w.t().len() - n, 8int, 0int,
{
    let kids = children(w.t(), n, Class::Stmt);
    let st1 = St { ret: Seq::empty(), ..st };
    let r = run_returning(w, st1, env, control, kids, 0, n, None);
    kept_returning(w, st1, env, control, kids, 0, n, None);
    lemma_ret(w.c, st1, r.0, st.ret);
    assert(St { ret: st.ret, ..st1 } == st);
    lemma_ret(w.c, st, r.0, st.ret);
}

/// Walking an expression forgets nothing: leaks stay in the table with their
/// witnesses, advisories and walked calls stay, and the table keeps one tainted
/// entry per place and nature.
pub proof fn law_expression_keeps_leaks(
    w: Walk,
    st: St,
    env: EnvView,
    control: Seq<WitnessView>,
    n: int,
)
    ensures
        sink_grown(st.sink, ev(w, st, env, control, n).0.sink),
        st.cache.is_prefix_of(ev(w, st, env, control, n).0.cache),
{
    kept_ev(w, st, env, control, n);
    reveal(st_grown);
}

/// From the start of a root on, every remembered call was walked: its body,
/// with these arguments and under this control, came to the remembered result,
/// and all that the walk found is in the table.
pub proof fn law_remembered_calls_were_walked(
    w: Walk,
    st: St,
    env: EnvView,
    control: Seq<WitnessView>,
    n: int,
)
    requires
        st.cache.len() == 0 || all_walked(w.c, st),
    ensures
        all_walked(w.c, ev(w, st, env, control, n).0),
        all_walked(w.c, run(w, st, env, control, n).0),
{
    kept_ev(w, st, env, control, n);
    kept_run(w, st, env, control, n);
    reveal(st_grown);
}

pub(crate) proof fn lemma_cached(
    cache: Seq<CallView>,
    k: int,
    file: FileId,
    symbol: u32,
    args: Seq<AbsView>,
    control: Seq<WitnessView>,
) -> (i: int)
    requires
        0 <= k,
        cached_from(cache, k, file, symbol, args, control) is Some,
    ensures
        k <= i < cache.len(),
        cache[i] == (CallView {
            file,
            symbol,
            args,
            control,
            result: cached_from(cache, k, file, symbol, args, control)->0,
        }),
    decreases cache.len() - k,
{
    let e = cache[k];
    if e.file == file && e.symbol == symbol && e.args == args && e.control == control {
        k
    } else {
        lemma_cached(cache, k + 1, file, symbol, args, control)
    }
}

/// A remembered call is not walked again, and nothing is lost by that: it comes
/// to what the body came to when it was walked with the same arguments under
/// the same control, every leak that this walk recorded is in the table, and
/// nothing else changes.
pub proof fn law_remembered_call(
    w: Walk,
    st: St,
    env: EnvView,
    control: Seq<WitnessView>,
    n: int,
    file: FileId,
    symbol: u32,
)
    requires
        all_walked(w.c, st),
        w.depth < MAX_CALL_DEPTH,
        !w.active.contains((file, symbol)),
        circuit_def(w.c, file, symbol) matches Some(callee) && callee.params.len() == ev_list(
            w,
            st,
            env,
            control,
            call_args(w.t(), n),
            0,
            n,
        ).1.len(),
        cached_from(
            ev_list(w, st, env, control, call_args(w.t(), n), 0, n).0.cache,
            0,
            file,
            symbol,
            ev_list(w, st, env, control, call_args(w.t(), n), 0, n).1,
            control,
        ) is Some,
    ensures
        ({
            let args = ev_list(w, st, env, control, call_args(w.t(), n), 0, n);
            let r = ev_circuit_call(w, st, env, control, n, file, symbol);
            &&& r.0 == args.0
            &&& was_walked(
                w.c,
                CallView { file, symbol, args: args.1, control, result: r.1 },
                r.0.sink,
            )
        }),
{
    let args = ev_list(w, st, env, control, call_args(w.t(), n), 0, n);
    kept_list(w, st, env, control, call_args(w.t(), n), 0, n);
    reveal(st_grown);
    let i = lemma_cached(args.0.cache, 0, file, symbol, args.1, control);
    assert(was_walked(w.c, args.0.cache[i], args.0.sink));
}

/// Walking a statement forgets nothing either.
pub proof fn law_statement_keeps_leaks(
    w: Walk,
    st: St,
    env: EnvView,
    control: Seq<WitnessView>,
    n: int,
)
    ensures
        sink_grown(st.sink, run(w, st, env, control, n).0.sink),
        st.cache.is_prefix_of(run(w, st, env, control, n).0.cache),
{
    kept_run(w, st, env, control, n);
    reveal(st_grown);
}

// ---------------------------------------------------------------------------
// Roots and files
// ---------------------------------------------------------------------------

pub(crate) proof fn kept_seeded_from(
    c: CtxView,
    root: RootView,
    params: Seq<(int, int)>,
    k: int,
    sink: SinkView,
    env: EnvView,
)
    ensures
        sink_grown(sink, seeded_from(c, root, params, k, sink, env).0),
    decreases params.len() - k,
{
    if 0 <= k < params.len() {
        let t = c.tree();
        let (x, ty) = params[k];
        let witness = WitnessView {
            uid: sink.next_uid,
            src: range_of(t, x),
            info: param_info(root, t[x].text),
            path: Seq::empty(),
        };
        let r = typed_abs(sink.counted(), resolved_type(c, ty), seq![witness]);
        lemma_sink_counted(sink);
        kept_typed(sink.counted(), resolved_type(c, ty), seq![witness]);
        lemma_sink_grown_trans(sink, sink.counted(), r.0);
        let scope = env.insert(t[x].text, r.1);
        kept_seeded_from(c, root, params, k + 1, r.0, scope);
        lemma_sink_grown_trans(
            sink,
            r.0,
            seeded_from(c, root, params, k + 1, r.0, scope).0,
        );
    }
}

/// Walking a root forgets nothing of what was found before it.
pub proof fn law_root_keeps_leaks(c: CtxView, root: RootView, sink: SinkView)
    ensures
        sink_grown(sink, root_walked(c, root, sink)),
{
    let s = seeded(c, root, sink);
    if let Some(n) = root_node(c, root) {
        kept_seeded_from(
            c,
            root,
            crate::disclosure::model::params_parts(
                c.tree(),
                children(c.tree(), n, Class::Kind(crate::kinds::PARAM)),
                0,
            ),
            0,
            sink,
            Map::empty(),
        );
    }
    assert(sink_grown(sink, s.0));
    if let Some(b) = body_of(c, root) {
        let w = Walk { c, f: watched(root), active: Seq::empty(), depth: 0 };
        let st = St { sink: s.0, cache: Seq::empty(), ret: Seq::empty() };
        law_statement_keeps_leaks(w, st, s.1, Seq::empty(), b);
        lemma_sink_grown_trans(sink, s.0, run(w, st, s.1, Seq::empty(), b).0.sink);
    }
}

/// Walking the other roots forgets nothing of what one root leaked.
pub proof fn law_roots_keep_leaks(c: CtxView, roots: Seq<RootView>, k: int, sink: SinkView)
    ensures
        sink_grown(sink, roots_walked(c, roots, k, sink)),
    decreases roots.len() - k,
{
    if 0 <= k < roots.len() {
        let next = root_walked(c, roots[k], sink);
        law_root_keeps_leaks(c, roots[k], sink);
        law_roots_keep_leaks(c, roots, k + 1, next);
        lemma_sink_grown_trans(sink, next, roots_walked(c, roots, k + 1, next));
    }
}

proof fn lemma_exported_names_leak_nothing(
    c: CtxView,
    syms: Seq<SymbolView>,
    toks: Seq<int>,
    k: int,
    sink: SinkView,
    found: Seq<u32>,
)
    ensures
        exported_names(c, syms, toks, k, sink, found).0.leaks == sink.leaks,
    decreases toks.len() - k,
{
    if 0 <= k < toks.len() {
        let t = c.tree();
        let x = toks[k];
        let next = match crate::db::file_def(c, t[x].start, t[x].text) {
            Some(crate::resolve::DefView::Item { file, index }) => if file == c.file {
                if index < syms.len() && syms[index as int].kind
                    == crate::item_tree::SymbolKind::Circuit
                    && crate::disclosure::roots::module_nested(syms, index as int) {
                    (sink, found.push(index))
                } else {
                    (sink, found)
                }
            } else {
                match crate::db::symbol_of_item(c, file, index) {
                    Some(sym) => if sym.kind == crate::item_tree::SymbolKind::Circuit {
                        (
                            sink.advised(
                                range_of(t, x),
                                "re-exported circuit `"@ + t[x].text
                                    + "` is defined in another module/file; not analyzed as a disclosing root here"@,
                            ),
                            found,
                        )
                    } else {
                        (sink, found)
                    },
                    None => (sink, found),
                }
            },
            _ => (sink, found),
        };
        lemma_exported_names_leak_nothing(c, syms, toks, k + 1, next.0, next.1);
    }
}

proof fn lemma_export_lists_leak_nothing(
    c: CtxView,
    syms: Seq<SymbolView>,
    lists: Seq<int>,
    k: int,
    sink: SinkView,
    found: Seq<u32>,
)
    ensures
        export_lists(c, syms, lists, k, sink, found).0.leaks == sink.leaks,
    decreases lists.len() - k,
{
    if 0 <= k < lists.len() {
        let toks = crate::syntax::child_tokens(c.tree(), lists[k], crate::kinds::IDENT);
        let next = exported_names(c, syms, toks, 0, sink, found);
        lemma_exported_names_leak_nothing(c, syms, toks, 0, sink, found);
        lemma_export_lists_leak_nothing(c, syms, lists, k + 1, next.0, next.1);
    }
}

proof fn lemma_roots_leak_nothing(
    syms: Seq<SymbolView>,
    i: int,
    again: Seq<u32>,
    sink: SinkView,
)
    ensures
        roots_from(syms, i, again, sink).0.leaks == sink.leaks,
    decreases syms.len() - i,
{
    if 0 <= i < syms.len() {
        let s = syms[i];
        lemma_roots_leak_nothing(syms, i + 1, again, sink);
        lemma_roots_leak_nothing(
            syms,
            i + 1,
            again,
            sink.advised(
                s.name_range,
                "module-nested circuit `"@ + s.name
                    + "` is not re-exported to the top level, so it is not analyzed as a disclosing root"@,
            ),
        );
    }
}

/// Looking for roots leaks nothing.
pub proof fn law_roots_leak_nothing(c: CtxView, syms: Seq<SymbolView>, sink: SinkView)
    ensures
        roots_of(c, syms, sink).0.leaks == sink.leaks,
{
    lemma_export_lists_leak_nothing(
        c,
        syms,
        children(c.tree(), 0, Class::Kind(crate::kinds::EXPORT_LIST)),
        0,
        sink,
        Seq::empty(),
    );
    let r = reexported(c, syms, sink);
    lemma_roots_leak_nothing(syms, 0, r.1, r.0);
}

/// When a file has been walked, the leak table holds one entry per place and
/// nature, each with a witness.
pub proof fn law_file_table_in_order(c: CtxView)
    ensures
        table_ok(file_walked(c).leaks),
{
    let r = roots_of(c, c.syms(), empty_sink());
    law_roots_leak_nothing(c, c.syms(), empty_sink());
    law_roots_keep_leaks(c, r.1, 0, r.0);
}

/// A file is shown one error for each leak, at its place, and behind them one
/// warning for each distinct advisory: warnings never stand in for errors.
pub proof fn law_every_leak_is_shown(c: CtxView)
    ensures
        ({
            let sink = file_walked(c);
            let shown = disclosure_problems(c);
            let warned = distinct_from(sink.advisories, 0, Seq::empty());
            &&& shown.len() == sink.leaks.len() + warned.len()
            &&& forall|i: int|
                #![trigger shown[i]]
                0 <= i < sink.leaks.len() ==> shown[i].severity == Severity::Error
                    && shown[i].prefix == "E"@ && shown[i].number == 3100 && shown[i].primary_span
                    == sink.leaks[i].src && shown[i].message
                    == "potential witness-value disclosure: "@ + sink.leaks[i].nature
                    && shown[i].secondary_spans.len() > 0
            &&& forall|i: int|
                #![trigger shown[i]]
                sink.leaks.len() <= i < shown.len() ==> shown[i].severity == Severity::Warning
                    && shown[i].prefix == "U"@ && shown[i].number == 3100
                    && shown[i].primary_span == warned[i - sink.leaks.len()].src
        }),
{
    let sink = file_walked(c);
    let shown = disclosure_problems(c);
    law_file_table_in_order(c);
    assert forall|i: int| #![trigger shown[i]] 0 <= i < sink.leaks.len() implies shown[i]
        == leak_diag(sink.leaks[i]) && shown[i].secondary_spans.len() > 0 by {
        let ws = sink.leaks[i].witnesses;
        assert(ws.len() > 0);
        assert(witness_spans(ws, 0).len() > 0);
    }
}

/// What one root has leaked is shown for the file, whatever the other roots do.
pub proof fn law_root_leaks_are_shown(c: CtxView, k: int, i: int)
    requires
        ({
            let r = roots_of(c, c.syms(), empty_sink());
            0 <= k <= r.1.len() && 0 <= i < roots_walked(c, r.1.take(k), 0, r.0).leaks.len()
        }),
    ensures
        ({
            let r = roots_of(c, c.syms(), empty_sink());
            let leak = roots_walked(c, r.1.take(k), 0, r.0).leaks[i];
            let shown = disclosure_problems(c);
            &&& i < shown.len()
            &&& shown[i].severity == Severity::Error
            &&& shown[i].primary_span == leak.src
            &&& shown[i].message == "potential witness-value disclosure: "@ + leak.nature
        }),
{
    let r = roots_of(c, c.syms(), empty_sink());
    lemma_walked_split(c, r.1, 0, k, r.0);
    let mid = roots_walked(c, r.1.take(k), 0, r.0);
    law_roots_keep_leaks(c, r.1, k, mid);
    law_every_leak_is_shown(c);
    let sink = file_walked(c);
    assert(sink.leaks[i].src == mid.leaks[i].src);
}

proof fn lemma_walked_split(c: CtxView, roots: Seq<RootView>, j: int, k: int, sink: SinkView)
    requires
        0 <= j <= k <= roots.len(),
    ensures
        roots_walked(c, roots, j, sink) == roots_walked(
            c,
            roots,
            k,
            roots_walked(c, roots.take(k), j, sink),
        ),
    decreases k - j,
{
    if j < k {
        assert(roots.take(k)[j] == roots[j]);
        lemma_walked_split(c, roots, j + 1, k, root_walked(c, roots[j], sink));
    }
}

// ---------------------------------------------------------------------------
// Single forms
// ---------------------------------------------------------------------------

/// A disclosed expression carries no witness.
pub proof fn law_disclosed_expression_is_clean(
    w: Walk,
    st: St,
    env: EnvView,
    control: Seq<WitnessView>,
    n: int,
)
    requires
        0 <= n < w.t().len(),
        w.t()[n].kind == DISCLOSE_EXPR,
    ensures
        all_witnesses(ev(w, st, env, control, n).1) == Seq::<WitnessView>::empty(),
{
    law_disclose_clears(kid(w, st, env, control, n, 0).1);
}

proof fn lemma_bound_names(
    t: Tree,
    env: EnvView,
    toks: Seq<int>,
    k: int,
    ws: Seq<WitnessView>,
    name: Seq<char>,
)
    requires
        0 <= k,
    ensures
        ({
            let out = bound_names(t, env, toks, k, ws);
            let named = exists|i: int| k <= i < toks.len() && t[#[trigger] toks[i]].text == name;
            &&& named ==> out.contains_key(name) && out[name] == AbsView::Atomic(ws)
            &&& !named ==> out.contains_key(name) == env.contains_key(name) && out[name]
                == env[name]
        }),
    decreases toks.len() - k,
{
    if k < toks.len() {
        let next = env.insert(t[toks[k]].text, AbsView::Atomic(ws));
        lemma_bound_names(t, next, toks, k + 1, ws, name);
        if t[toks[k]].text == name {
            assert(t[toks[k]].text == name);
        }
    }
}

/// A struct pattern, or a tuple pattern that does not fit the value, gives every
/// name that it binds, at whatever depth, all witnesses of the value; other
/// names keep what they had, and the pattern is advised about.
pub proof fn law_patterns_keep_taint(
    t: Tree,
    sink: SinkView,
    env: EnvView,
    p: int,
    val: AbsView,
    name: Seq<char>,
)
    requires
        0 <= p < t.len(),
        t[p].kind == STRUCT_PAT || (t[p].kind == TUPLE_PAT && !(val is Multiple
            && val->Multiple_0.len() == element_patterns(
            t,
            children(t, p, Class::Kind(TUPLE_PAT_ELT)),
            0,
        ).len())),
    ensures
        ({
            let r = bound(t, sink, env, p, val);
            let toks = pattern_tokens(t, p);
            let named = exists|i: int| 0 <= i < toks.len() && t[#[trigger] toks[i]].text == name;
            &&& named ==> r.1.contains_key(name) && r.1[name] == AbsView::Atomic(all_witnesses(val))
            &&& !named ==> r.1.contains_key(name) == env.contains_key(name) && r.1[name]
                == env[name]
            &&& r.0.advisories.len() == sink.advisories.len() + 1
            &&& r.0.advisories.last().src == range_of(t, p)
            &&& r.0.leaks == sink.leaks
        }),
{
    lemma_bound_names(t, env, pattern_tokens(t, p), 0, all_witnesses(val), name);
}

/// Whether one of the values has a witness with this uid.
pub open spec fn some_has_uid(values: Seq<AbsView>, uid: u32) -> bool {
    exists|i: int| 0 <= i < values.len() && has_uid(all_witnesses(#[trigger] values[i]), uid)
}

pub(crate) proof fn lemma_union_uids(
    w: Walk,
    st: St,
    env: EnvView,
    control: Seq<WitnessView>,
    kids: Seq<int>,
    k: int,
    after: int,
    ws: Seq<WitnessView>,
    uid: u32,
)
    ensures
        ev_union(w, st, env, control, kids, k, after, ws).0 == ev_list(
            w,
            st,
            env,
            control,
            kids,
            k,
            after,
        ).0,
        has_uid(ev_union(w, st, env, control, kids, k, after, ws).1, uid) <==> (has_uid(ws, uid)
            || some_has_uid(ev_list(w, st, env, control, kids, k, after).1, uid)),
    decreases kids.len() - k,
{
    if 0 <= k < kids.len() && after < kids[k] < w.t().len() {
        let a = ev(w, st, env, control, kids[k]);
        let more = merged(ws, all_witnesses(a.1));
        law_merge_unites(ws, all_witnesses(a.1), uid);
        lemma_union_uids(w, a.0, env, control, kids, k + 1, after, more, uid);
        let rest = ev_list(w, a.0, env, control, kids, k + 1, after).1;
        let all = ev_list(w, st, env, control, kids, k, after).1;
        assert(all == seq![a.1] + rest);
        if some_has_uid(rest, uid) {
            let i = choose|i: int|
                0 <= i < rest.len() && has_uid(all_witnesses(#[trigger] rest[i]), uid);
            assert(all[i + 1] == rest[i]);
        }
        if has_uid(all_witnesses(a.1), uid) {
            assert(all[0] == a.1);
        }
        if some_has_uid(all, uid) {
            let i = choose|i: int|
                0 <= i < all.len() && has_uid(all_witnesses(#[trigger] all[i]), uid);
            if i > 0 {
                assert(rest[i - 1] == all[i]);
            }
        }
    }
}

/// An expression whose form is not modelled is advised about at its place, and
/// its witnesses are exactly those of the expressions directly below it.
pub proof fn law_unmodelled_form_is_advised(
    w: Walk,
    st: St,
    env: EnvView,
    control: Seq<WitnessView>,
    n: int,
    uid: u32,
)
    requires
        0 <= n < w.t().len(),
        w.t()[n].kind == SLICE_EXPR || w.t()[n].kind == PAD_EXPR || w.t()[n].kind == SPREAD_EXPR
            || w.t()[n].kind == UNARY_EXPR || w.t()[n].kind == LAMBDA_EXPR,
    ensures
        ({
            let r = ev(w, st, env, control, n);
            let below = ev_list(w, st, env, control, children(w.t(), n, Class::Expr), 0, n);
            &&& r.0.sink.advisories.len() > 0
            &&& r.0.sink.advisories.last().src == range_of(w.t(), n)
            &&& r.0.sink.leaks == below.0.sink.leaks
            &&& has_uid(all_witnesses(r.1), uid) <==> some_has_uid(below.1, uid)
        }),
{
    let kids = children(w.t(), n, Class::Expr);
    lemma_union_uids(w, st, env, control, kids, 0, n, Seq::empty(), uid);
}

/// A call whose callee is not known carries no witness and is advised about at
/// its place.
pub proof fn law_unknown_callee_is_advised(
    w: Walk,
    st: St,
    env: EnvView,
    control: Seq<WitnessView>,
    n: int,
)
    requires
        0 <= n < w.t().len(),
        w.t()[n].kind == crate::kinds::CALL_EXPR,
        callee_of(w.c, n) is Deferred,
    ensures
        all_witnesses(ev(w, st, env, control, n).1) == Seq::<WitnessView>::empty(),
        ev(w, st, env, control, n).0.sink.advisories.len() > 0,
        ev(w, st, env, control, n).0.sink.advisories.last().src == range_of(w.t(), n),
{
}

/// A circuit that is on the path of calls is not entered again: the call
/// carries no witness and is advised about, and its arguments are still walked.
pub proof fn law_recursion_is_cut(
    w: Walk,
    st: St,
    env: EnvView,
    control: Seq<WitnessView>,
    n: int,
    file: FileId,
    symbol: u32,
)
    requires
        w.active.contains((file, symbol)) || w.depth >= MAX_CALL_DEPTH,
    ensures
        ({
            let args = ev_list(w, st, env, control, call_args(w.t(), n), 0, n);
            let r = ev_circuit_call(w, st, env, control, n, file, symbol);
            &&& all_witnesses(r.1) == Seq::<WitnessView>::empty()
            &&& r.0.sink.leaks == args.0.sink.leaks
            &&& r.0.sink.advisories.last().src == range_of(w.t(), n)
        }),
{
}

/// A return statement leaks nothing unless an exported circuit is walked.
pub proof fn law_unwatched_return_leaks_nothing(
    w: Walk,
    st: St,
    env: EnvView,
    control: Seq<WitnessView>,
    n: int,
)
    requires
        0 <= n < w.t().len(),
        w.t()[n].kind == RETURN_STMT,
        w.f is None,
    ensures
        run(w, st, env, control, n).0.sink.leaks == (if children(w.t(), n, Class::Expr).len()
            == 0 {
            st.sink.leaks
        } else {
            kid(w, st, env, control, n, 0).0.sink.leaks
        }),
{
}

/// Marking a value on its way keeps exactly its witnesses.
pub proof fn law_marking_keeps_witnesses(a: AbsView, p: PointView, uid: u32)
    ensures
        has_uid(all_witnesses(with_point(a, p)), uid) <==> has_uid(all_witnesses(a), uid),
    decreases a,
{
    match a {
        AbsView::Atomic(ws) => lemma_tagged(ws, p, uid),
        AbsView::Boolean { witnesses, .. } => lemma_tagged(witnesses, p, uid),
        AbsView::Multiple(items) => {
            let out = with_point(a, p)->Multiple_0;
            assert forall|i: int| 0 <= i < items.len() implies (has_uid(
                all_witnesses(#[trigger] out[i]),
                uid,
            ) <==> has_uid(all_witnesses(items[i]), uid)) by {
                law_marking_keeps_witnesses(items[i], p, uid);
            }
            lemma_upto_uids(items, items.len() as int, uid);
            lemma_upto_uids(out, out.len() as int, uid);
            assert(forall|i: int| 0 <= i < items.len() ==> has_uid(
                all_witnesses(#[trigger] items[i]),
                uid,
            ) ==> has_uid(all_witnesses(out[i]), uid));
        },
        AbsView::Single(inner) => law_marking_keeps_witnesses(*inner, p, uid),
    }
}

pub(crate) proof fn lemma_tagged(ws: Seq<WitnessView>, p: PointView, uid: u32)
    ensures
        has_uid(tagged(ws, p), uid) <==> has_uid(ws, uid),
{
    let out = tagged(ws, p);
    if has_uid(ws, uid) {
        let i = choose|i: int| 0 <= i < ws.len() && (#[trigger] ws[i]).uid == uid;
        assert(out[i].uid == uid);
    }
    if has_uid(out, uid) {
        let i = choose|i: int| 0 <= i < out.len() && (#[trigger] out[i]).uid == uid;
        assert(ws[i].uid == uid);
    }
}

/// No operator sanitizes: a witness is in the result exactly where it is in
/// one of the operands. Operands of arithmetic have shapes that fit.
pub proof fn law_operators_keep_taint(
    st: St,
    op: Option<u16>,
    lhs: AbsView,
    rhs: AbsView,
    src: TextRange,
    uid: u32,
)
    requires
        compatible(lhs, rhs),
    ensures
        has_uid(all_witnesses(combined(st, op, lhs, rhs, src).1), uid) <==> (has_uid(
            all_witnesses(lhs),
            uid,
        ) || has_uid(all_witnesses(rhs), uid)),
{
    let both = AbsView::Atomic(merged(all_witnesses(lhs), all_witnesses(rhs)));
    law_merge_unites(all_witnesses(lhs), all_witnesses(rhs), uid);
    law_join_unites(lhs, rhs, uid);
    law_marking_keeps_witnesses(
        both,
        PointView {
            src,
            description: "the comparison"@,
            exposure: "the result of a comparison involving"@,
        },
        uid,
    );
    if let Some(k) = op {
        law_marking_keeps_witnesses(
            joined(lhs, rhs),
            PointView {
                src,
                description: "the computation"@,
                exposure: crate::disclosure::model::arithmetic_exposure(k),
            },
            uid,
        );
    }
}

/// A write to the ledger leaks every witness of the value, and every witness
/// that controls the write.
pub proof fn law_ledger_write_leaks(
    w: Walk,
    st: St,
    control: Seq<WitnessView>,
    n: int,
    target: int,
    value: int,
    val: AbsView,
    uid: u32,
)
    requires
        writes_ledger(w.c, target),
        has_uid(all_witnesses(val), uid) || has_uid(control, uid),
    ensures
        exists|i: int|
            0 <= i < assigned(w, st, control, n, target, value, val).sink.leaks.len() && has_uid(
                (#[trigger] assigned(w, st, control, n, target, value, val).sink.leaks[i]).witnesses,
                uid,
            ),
{
    let src = crate::disclosure::model::solid_range(w.t(), value);
    let first = with_leak(st.sink.leaks, src, "ledger operation"@, all_witnesses(val));
    let all = assigned(w, st, control, n, target, value, val).sink.leaks;
    if has_uid(all_witnesses(val), uid) {
        law_recorded_leak_is_found(
            st.sink.leaks,
            src,
            "ledger operation"@,
            all_witnesses(val),
            uid,
        );
        let i = choose|i: int|
            0 <= i < first.len() && (#[trigger] first[i]).src == src && first[i].nature
                == "ledger operation"@ && has_uid(first[i].witnesses, uid);
        law_leaks_are_kept(
            first,
            range_of(w.t(), n),
            "performing this ledger operation"@,
            control,
            i,
            uid,
        );
        assert(has_uid(all[i].witnesses, uid));
    } else {
        law_recorded_leak_is_found(
            first,
            range_of(w.t(), n),
            "performing this ledger operation"@,
            control,
            uid,
        );
    }
}

} // verus!
