//! Laws of how leaks and witnesses flow through calls.

use vstd::prelude::*;

use crate::calls::{call_args, call_receiver};
use crate::db::CtxView;
use crate::disclosure::abs::{
    all_witnesses, merged, with_point, witnesses_upto, AbsView, InfoView, WitnessView,
};
use crate::disclosure::abs_laws::{has_uid, law_merge_unites, lemma_upto_uids};
use crate::disclosure::flow_laws::{law_found_leaks_stay, law_recorded_leaks_are_found, leaks_at};
use crate::disclosure::leaks::SinkView;
use crate::disclosure::model::{
    all_args_leaked, all_conduit_from, arg_leaked, arg_point, cached_from, callee_env, callee_of,
    circuit_def, conduit_from, ev, ev_body, ev_call, ev_circuit_call, ev_list, flagged_args_leaked,
    ledger_op_done, typed_abs, typed_elems, typed_fields, writes_ledger, CallView, CalleeView,
    CircuitView, EnvView, St, Walk, MAX_CALL_DEPTH,
};
use crate::disclosure::tables::{ledger_flags, native_flags, FlagsView, LedgerOpView};
use crate::disclosure::walk_laws::{
    kept_all_args, kept_body, kept_flagged_args, kept_ledger_op, law_marking_keeps_witnesses,
    lemma_same, sink_grown, st_grown,
};
use crate::kinds::{CALL_EXPR, DOT, IDENT};
use crate::syntax::{child_token, range_of, well_formed};
use crate::text::TextRange;
use crate::ty::TyView;
use crate::vfs::FileId;

verus! {

// ---------------------------------------------------------------------------
// Ledger operations
// ---------------------------------------------------------------------------

proof fn lemma_arg_leaks(
    st: St,
    op: Seq<char>,
    i: int,
    count: nat,
    exposure: Seq<char>,
    arg: AbsView,
    src: TextRange,
    uid: u32,
)
    requires
        has_uid(all_witnesses(arg), uid),
    ensures
        leaks_at(
            arg_leaked(st, op, i, count, exposure, arg, src).sink.leaks,
            src,
            "ledger operation"@,
            uid,
        ),
{
    let point = arg_point(src, op, i, count, exposure);
    law_marking_keeps_witnesses(arg, point, uid);
    law_recorded_leaks_are_found(
        st,
        src,
        "ledger operation"@,
        all_witnesses(with_point(arg, point)),
        src,
        "ledger operation"@,
        uid,
    );
}

proof fn lemma_all_args_leak(
    x: CtxView,
    st: St,
    op: Seq<char>,
    args: Seq<AbsView>,
    k: int,
    src: TextRange,
    i: int,
    uid: u32,
)
    requires
        0 <= k <= i < args.len(),
        has_uid(all_witnesses(args[i]), uid),
    ensures
        leaks_at(all_args_leaked(st, op, args, k, src).sink.leaks, src, "ledger operation"@, uid),
    decreases args.len() - k,
{
    let next = arg_leaked(st, op, k, args.len(), Seq::empty(), args[k], src);
    if k == i {
        lemma_arg_leaks(st, op, k, args.len(), Seq::empty(), args[k], src, uid);
        kept_all_args(x, next, op, args, k + 1, src);
        reveal(st_grown);
        law_found_leaks_stay(
            next.sink,
            all_args_leaked(next, op, args, k + 1, src).sink,
            src,
            "ledger operation"@,
            uid,
        );
    } else {
        lemma_all_args_leak(x, next, op, args, k + 1, src, i, uid);
    }
}

proof fn lemma_flagged_args_leak(
    x: CtxView,
    st: St,
    op: Seq<char>,
    flags: FlagsView,
    args: Seq<AbsView>,
    k: int,
    src: TextRange,
    i: int,
    uid: u32,
)
    requires
        0 <= k <= i < args.len(),
        i < flags.len(),
        flags[i] is Some,
        has_uid(all_witnesses(args[i]), uid),
    ensures
        leaks_at(
            flagged_args_leaked(st, op, flags, args, k, src).sink.leaks,
            src,
            "ledger operation"@,
            uid,
        ),
    decreases flags.len() - k,
{
    let next = match flags[k] {
        Some(e) => arg_leaked(st, op, k, flags.len(), e, args[k], src),
        None => st,
    };
    if k == i {
        lemma_arg_leaks(st, op, k, flags.len(), flags[k]->0, args[k], src, uid);
        kept_flagged_args(x, next, op, flags, args, k + 1, src);
        reveal(st_grown);
        law_found_leaks_stay(
            next.sink,
            flagged_args_leaked(next, op, flags, args, k + 1, src).sink,
            src,
            "ledger operation"@,
            uid,
        );
    } else {
        lemma_flagged_args_leak(x, next, op, flags, args, k + 1, src, i, uid);
    }
}

/// Whether argument `i` of ledger operation `name` is disclosed. Every argument
/// of an operation that is not known is.
pub open spec fn discloses(name: Seq<char>, i: int) -> bool {
    match ledger_flags(name) {
        Some(LedgerOpView::AllArgsLeak) => true,
        Some(LedgerOpView::PerArg(flags)) => 0 <= i < flags.len() && flags[i] is Some,
        None => true,
    }
}

/// A ledger operation walks its arguments, and what they leak stays. Each
/// witness of an argument that the operation discloses leaks at the call, and
/// so does each that controls the call. The result is clean.
pub proof fn law_ledger_operation_leaks(
    w: Walk,
    st: St,
    env: EnvView,
    control: Seq<WitnessView>,
    n: int,
    x: int,
    i: int,
    uid: u32,
)
    requires
        well_formed(w.t()),
        0 <= n < w.t().len(),
        w.t()[n].kind == CALL_EXPR,
        child_token(w.t(), n, DOT) is Some,
        child_token(w.t(), n, IDENT) == Some(x),
        ledger_flags(w.t()[x].text) is Some || (call_receiver(w.t(), n) matches Some(r)
            && writes_ledger(w.c, r)),
    ensures
        ({
            let args = ev_list(w, st, env, control, call_args(w.t(), n), 0, n);
            let r = ev(w, st, env, control, n);
            &&& sink_grown(args.0.sink, r.0.sink)
            &&& all_witnesses(r.1) == Seq::<WitnessView>::empty()
            &&& has_uid(control, uid) ==> leaks_at(
                r.0.sink.leaks,
                range_of(w.t(), n),
                "performing this ledger operation"@,
                uid,
            )
            &&& 0 <= i < args.1.len() && discloses(w.t()[x].text, i) && has_uid(
                all_witnesses(args.1[i]),
                uid,
            ) ==> leaks_at(r.0.sink.leaks, range_of(w.t(), n), "ledger operation"@, uid)
        }),
{
    let t = w.t();
    let src = range_of(t, n);
    let name = t[x].text;
    let args = ev_list(w, st, env, control, call_args(t, n), 0, n);
    let done = "performing this ledger operation"@;
    assert(callee_of(w.c, n) is Native);
    assert(ev(w, st, env, control, n) == ev_call(w, st, env, control, n));
    let r = ev_call(w, st, env, control, n);
    assert(r.0 == ledger_op_done(w, args.0, control, n, name, args.1, src));
    kept_ledger_op(w, args.0, control, n, name, args.1, src);
    let st1 = args.0.leaked(src, done, control);
    law_recorded_leaks_are_found(args.0, src, done, control, src, done, uid);
    let all = all_args_leaked(st1, name, args.1, 0, src);
    kept_all_args(w.c, st1, name, args.1, 0, src);
    let given = 0 <= i < args.1.len() && discloses(name, i) && has_uid(
        all_witnesses(args.1[i]),
        uid,
    );
    reveal(st_grown);
    match ledger_flags(name) {
        Some(LedgerOpView::PerArg(flags)) => {
            kept_flagged_args(w.c, st1, name, flags, args.1, 0, src);
            if has_uid(control, uid) {
                law_found_leaks_stay(st1.sink, r.0.sink, src, done, uid);
            }
            if given {
                lemma_flagged_args_leak(w.c, st1, name, flags, args.1, 0, src, i, uid);
            }
        },
        _ => {
            if has_uid(control, uid) {
                law_found_leaks_stay(st1.sink, all.sink, src, done, uid);
            }
            if given {
                lemma_all_args_leak(w.c, st1, name, args.1, 0, src, i, uid);
            }
            assert(r.0.sink.leaks == all.sink.leaks);
        },
    }
}

// ---------------------------------------------------------------------------
// Native operations
// ---------------------------------------------------------------------------

proof fn lemma_conduit(
    name: Seq<char>,
    flags: FlagsView,
    args: Seq<AbsView>,
    k: int,
    src: TextRange,
    folded: Seq<WitnessView>,
    uid: u32,
)
    requires
        0 <= k,
    ensures
        has_uid(conduit_from(name, flags, args, k, src, folded), uid) <==> has_uid(folded, uid) || (
        exists|i: int|
            k <= i < flags.len() && i < args.len() && flags[i] is Some && has_uid(
                all_witnesses(#[trigger] args[i]),
                uid,
            )),
    decreases flags.len() - k,
{
    if k < flags.len() && k < args.len() {
        let next = match flags[k] {
            Some(e) => merged(
                folded,
                all_witnesses(with_point(args[k], arg_point(src, name, k, flags.len(), e))),
            ),
            None => folded,
        };
        lemma_conduit(name, flags, args, k + 1, src, next, uid);
        if let Some(e) = flags[k] {
            let point = arg_point(src, name, k, flags.len(), e);
            law_marking_keeps_witnesses(args[k], point, uid);
            law_merge_unites(folded, all_witnesses(with_point(args[k], point)), uid);
        }
        if flags[k] is Some && has_uid(all_witnesses(args[k]), uid) {
            assert(k <= k < flags.len());
        }
    }
}

proof fn lemma_all_conduit(
    name: Seq<char>,
    args: Seq<AbsView>,
    k: int,
    src: TextRange,
    folded: Seq<WitnessView>,
    uid: u32,
)
    requires
        0 <= k,
    ensures
        has_uid(all_conduit_from(name, args, k, src, folded), uid) <==> has_uid(folded, uid) || (
        exists|i: int| k <= i < args.len() && has_uid(all_witnesses(#[trigger] args[i]), uid)),
    decreases args.len() - k,
{
    if k < args.len() {
        let point = arg_point(src, name, k, args.len(), Seq::empty());
        let next = merged(folded, all_witnesses(with_point(args[k], point)));
        lemma_all_conduit(name, args, k + 1, src, next, uid);
        law_marking_keeps_witnesses(args[k], point, uid);
        law_merge_unites(folded, all_witnesses(with_point(args[k], point)), uid);
        if has_uid(all_witnesses(args[k]), uid) {
            assert(k <= k < args.len());
        }
    }
}

/// A native operation hands on exactly the witnesses of those arguments that it
/// does not hide, and one that is not known those of every argument. It leaks
/// nothing but what its arguments leak.
pub proof fn law_native_operation_hands_on(
    w: Walk,
    st: St,
    env: EnvView,
    control: Seq<WitnessView>,
    n: int,
    x: int,
    uid: u32,
)
    requires
        well_formed(w.t()),
        0 <= n < w.t().len(),
        w.t()[n].kind == CALL_EXPR,
        child_token(w.t(), n, DOT) is None,
        child_token(w.t(), n, IDENT) == Some(x),
        callee_of(w.c, n) is Native,
    ensures
        ({
            let args = ev_list(w, st, env, control, call_args(w.t(), n), 0, n);
            let r = ev(w, st, env, control, n);
            &&& r.0.sink.leaks == args.0.sink.leaks
            &&& has_uid(all_witnesses(r.1), uid) <==> exists|i: int|
                0 <= i < args.1.len() && has_uid(all_witnesses(#[trigger] args.1[i]), uid) && (
                native_flags(w.t()[x].text) matches Some(flags) ==> i < flags.len()
                    && flags[i] is Some)
        }),
{
    let t = w.t();
    let src = range_of(t, n);
    let name = t[x].text;
    let args = ev_list(w, st, env, control, call_args(t, n), 0, n);
    assert(ev(w, st, env, control, n) == ev_call(w, st, env, control, n));
    if let Some(flags) = native_flags(name) {
        lemma_conduit(name, flags, args.1, 0, src, Seq::empty(), uid);
    }
    lemma_all_conduit(name, args.1, 0, src, Seq::empty(), uid);
    let r = ev(w, st, env, control, n);
    if has_uid(all_witnesses(r.1), uid) {
        match native_flags(name) {
            Some(flags) => {
                let i = choose|i: int|
                    0 <= i < flags.len() && i < args.1.len() && flags[i] is Some && has_uid(
                        all_witnesses(#[trigger] args.1[i]),
                        uid,
                    );
                assert(0 <= i < args.1.len());
            },
            None => {
                let i = choose|i: int|
                    0 <= i < args.1.len() && has_uid(all_witnesses(#[trigger] args.1[i]), uid);
                assert(0 <= i < args.1.len());
            },
        }
    }
}

// ---------------------------------------------------------------------------
// Witness functions
// ---------------------------------------------------------------------------

/// Whether values of type `ty` have a part that can carry a witness.
pub open spec fn has_leaf(ty: TyView) -> bool
    decreases ty,
{
    match ty {
        TyView::Struct { fields, .. } => exists|i: int|
            0 <= i < fields.len() && has_leaf((#[trigger] fields[i]).1),
        TyView::Tuple(elems) => exists|i: int| 0 <= i < elems.len() && has_leaf(#[trigger] elems[i]),
        TyView::Vector(_, elem) => has_leaf(*elem),
        _ => true,
    }
}

proof fn lemma_shaped_fields(
    sink: SinkView,
    fields: Seq<(Seq<char>, TyView)>,
    i: int,
    seed: Seq<WitnessView>,
    uid: u32,
)
    requires
        0 <= i <= fields.len(),
    ensures
        ({
            let out = typed_fields(sink, fields, i, seed).1;
            &&& out.len() == fields.len() - i
            &&& forall|j: int|
                #![trigger out[j]]
                0 <= j < out.len() ==> (has_uid(all_witnesses(out[j]), uid) <==> has_uid(seed, uid)
                    && has_leaf(fields[i + j].1))
        }),
    decreases fields, 0int, fields.len() - i,
{
    if i < fields.len() {
        let a = typed_abs(sink, fields[i].1, seed);
        lemma_shaped(sink, fields[i].1, seed, uid);
        lemma_shaped_fields(a.0, fields, i + 1, seed, uid);
        let rest = typed_fields(a.0, fields, i + 1, seed).1;
        let out = typed_fields(sink, fields, i, seed).1;
        assert(out == seq![a.1] + rest);
        assert forall|j: int| #![trigger out[j]] 0 <= j < out.len() implies (has_uid(
            all_witnesses(out[j]),
            uid,
        ) <==> has_uid(seed, uid) && has_leaf(fields[i + j].1)) by {
            if j > 0 {
                assert(out[j] == rest[j - 1]);
            }
        }
    }
}

proof fn lemma_shaped_elems(
    sink: SinkView,
    elems: Seq<TyView>,
    i: int,
    seed: Seq<WitnessView>,
    uid: u32,
)
    requires
        0 <= i <= elems.len(),
    ensures
        ({
            let out = typed_elems(sink, elems, i, seed).1;
            &&& out.len() == elems.len() - i
            &&& forall|j: int|
                #![trigger out[j]]
                0 <= j < out.len() ==> (has_uid(all_witnesses(out[j]), uid) <==> has_uid(seed, uid)
                    && has_leaf(elems[i + j]))
        }),
    decreases elems, 0int, elems.len() - i,
{
    if i < elems.len() {
        let a = typed_abs(sink, elems[i], seed);
        lemma_shaped(sink, elems[i], seed, uid);
        lemma_shaped_elems(a.0, elems, i + 1, seed, uid);
        let rest = typed_elems(a.0, elems, i + 1, seed).1;
        let out = typed_elems(sink, elems, i, seed).1;
        assert(out == seq![a.1] + rest);
        assert forall|j: int| #![trigger out[j]] 0 <= j < out.len() implies (has_uid(
            all_witnesses(out[j]),
            uid,
        ) <==> has_uid(seed, uid) && has_leaf(elems[i + j])) by {
            if j > 0 {
                assert(out[j] == rest[j - 1]);
            }
        }
    }
}

proof fn lemma_shaped(sink: SinkView, ty: TyView, seed: Seq<WitnessView>, uid: u32)
    ensures
        has_uid(all_witnesses(typed_abs(sink, ty, seed).1), uid) <==> has_uid(seed, uid)
            && has_leaf(ty),
    decreases ty, 1int, 0int,
{
    match ty {
        TyView::Struct { fields, .. } => {
            lemma_shaped_fields(sink, fields, 0, seed, uid);
            let out = typed_fields(sink, fields, 0, seed).1;
            let whole = typed_abs(sink, ty, seed).1;
            assert(whole == AbsView::Multiple(out));
            assert(all_witnesses(whole) == witnesses_of(out));
            lemma_upto_uids(out, out.len() as int, uid);
            if has_leaf(ty) && has_uid(seed, uid) {
                let i = choose|i: int| 0 <= i < fields.len() && has_leaf((#[trigger] fields[i]).1);
                assert(fields[0 + i] == fields[i]);
                assert(has_uid(all_witnesses(out[i]), uid));
            }
            if has_uid(witnesses_of(out), uid) {
                let i = choose|i: int|
                    0 <= i < out.len() && has_uid(all_witnesses(#[trigger] out[i]), uid);
                assert(has_uid(all_witnesses(out[i]), uid));
                assert(has_leaf(fields[0 + i].1));
                assert(has_leaf(fields[i].1));
            }
        },
        TyView::Tuple(elems) => {
            lemma_shaped_elems(sink, elems, 0, seed, uid);
            let out = typed_elems(sink, elems, 0, seed).1;
            let whole = typed_abs(sink, ty, seed).1;
            assert(whole == AbsView::Multiple(out));
            assert(all_witnesses(whole) == witnesses_of(out));
            lemma_upto_uids(out, out.len() as int, uid);
            if has_leaf(ty) && has_uid(seed, uid) {
                let i = choose|i: int| 0 <= i < elems.len() && has_leaf(#[trigger] elems[i]);
                assert(elems[0 + i] == elems[i]);
                assert(has_uid(all_witnesses(out[i]), uid));
            }
            if has_uid(witnesses_of(out), uid) {
                let i = choose|i: int|
                    0 <= i < out.len() && has_uid(all_witnesses(#[trigger] out[i]), uid);
                assert(has_uid(all_witnesses(out[i]), uid));
                assert(has_leaf(elems[0 + i]));
                assert(has_leaf(elems[i]));
            }
        },
        TyView::Vector(_, elem) => lemma_shaped(sink, *elem, seed, uid),
        _ => {},
    }
}

spec fn witnesses_of(items: Seq<AbsView>) -> Seq<WitnessView> {
    witnesses_upto(items, items.len() as int)
}

/// A value of a type carries what it is seeded with, in every part, and nothing
/// else; a struct has one child per field, in order, and a vector one child.
pub proof fn law_seeded_values_have_their_shape(
    sink: SinkView,
    ty: TyView,
    seed: Seq<WitnessView>,
    i: int,
    uid: u32,
)
    ensures
        ({
            let a = typed_abs(sink, ty, seed).1;
            &&& has_uid(all_witnesses(a), uid) <==> has_uid(seed, uid) && has_leaf(ty)
            &&& ty matches TyView::Struct { fields, .. } ==> a is Multiple
                && a->Multiple_0.len() == fields.len() && (0 <= i < fields.len() ==> (has_uid(
                all_witnesses(a->Multiple_0[i]),
                uid,
            ) <==> has_uid(seed, uid) && has_leaf(fields[i].1)))
            &&& ty matches TyView::Tuple(elems) ==> a is Multiple && a->Multiple_0.len()
                == elems.len() && (0 <= i < elems.len() ==> (has_uid(
                all_witnesses(a->Multiple_0[i]),
                uid,
            ) <==> has_uid(seed, uid) && has_leaf(elems[i])))
            &&& ty is Vector ==> a is Single
        }),
{
    lemma_shaped(sink, ty, seed, uid);
    match ty {
        TyView::Struct { fields, .. } => {
            lemma_shaped_fields(sink, fields, 0, seed, uid);
            if 0 <= i < fields.len() {
                assert(fields[0 + i] == fields[i]);
            }
        },
        TyView::Tuple(elems) => {
            lemma_shaped_elems(sink, elems, 0, seed, uid);
            if 0 <= i < elems.len() {
                assert(elems[0 + i] == elems[i]);
            }
        },
        _ => {},
    }
}

/// The result of a witness function carries a new witness, and no other,
/// wherever its type has a place for one.
pub proof fn law_witness_results_are_tainted(
    w: Walk,
    st: St,
    env: EnvView,
    control: Seq<WitnessView>,
    n: int,
    uid: u32,
)
    requires
        0 <= n < w.t().len(),
        w.t()[n].kind == CALL_EXPR,
        callee_of(w.c, n) is Witness,
    ensures
        has_uid(all_witnesses(ev(w, st, env, control, n).1), uid) <==> uid == st.sink.next_uid
            && has_leaf(callee_of(w.c, n)->ret),
{
    let t = w.t();
    assert(ev(w, st, env, control, n) == ev_call(w, st, env, control, n));
    if let CalleeView::Witness { name: function, ret } = callee_of(w.c, n) {
        let witness = WitnessView {
            uid: st.sink.next_uid,
            src: match child_token(t, n, IDENT) {
                Some(x) => range_of(t, x),
                None => range_of(t, n),
            },
            info: InfoView::WitnessReturn { function },
            path: Seq::empty(),
        };
        let seed = seq![witness];
        lemma_shaped(st.sink.counted(), ret, seed, uid);
        assert(seed[0].uid == st.sink.next_uid);
    }
}

// ---------------------------------------------------------------------------
// Circuits
// ---------------------------------------------------------------------------

proof fn lemma_callee_env(
    env: EnvView,
    callee: CircuitView,
    args: Seq<AbsView>,
    k: int,
    src: TextRange,
    i: int,
    name: Seq<char>,
    uid: u32,
)
    requires
        0 <= k,
        args.len() == callee.params.len(),
    ensures
        ({
            let out = callee_env(env, callee, args, k, src);
            &&& k <= i < args.len() && callee.params[i] == name && (forall|j: int|
                i < j < args.len() ==> #[trigger] callee.params[j] != name) ==> out.contains_key(
                name,
            ) && (has_uid(all_witnesses(out[name]), uid) <==> has_uid(all_witnesses(args[i]), uid))
            &&& (forall|j: int| k <= j < args.len() ==> #[trigger] callee.params[j] != name)
                ==> out.contains_key(name) == env.contains_key(name) && out[name] == env[name]
        }),
    decreases args.len() - k,
{
    if k < args.len() {
        let point = arg_point(src, callee.name, k, args.len(), Seq::empty());
        law_marking_keeps_witnesses(args[k], point, uid);
        let next = env.insert(callee.params[k], with_point(args[k], point));
        lemma_callee_env(next, callee, args, k + 1, src, i, name, uid);
    }
}

/// In the body of a circuit each parameter has exactly the witnesses of its
/// argument, and no other name has a value.
pub proof fn law_arguments_reach_parameters(
    callee: CircuitView,
    args: Seq<AbsView>,
    src: TextRange,
    i: int,
    name: Seq<char>,
    uid: u32,
)
    requires
        args.len() == callee.params.len(),
    ensures
        ({
            let out = callee_env(Map::empty(), callee, args, 0, src);
            &&& 0 <= i < args.len() && callee.params[i] == name && (forall|j: int|
                i < j < args.len() ==> #[trigger] callee.params[j] != name) ==> out.contains_key(
                name,
            ) && (has_uid(all_witnesses(out[name]), uid) <==> has_uid(all_witnesses(args[i]), uid))
            &&& !callee.params.contains(name) ==> !out.contains_key(name)
        }),
{
    lemma_callee_env(Map::empty(), callee, args, 0, src, i, name, uid);
    if !callee.params.contains(name) {
        assert(forall|j: int| 0 <= j < args.len() ==> #[trigger] callee.params[j] != name);
    }
}

/// A call of a circuit walks its arguments and behind them the body of the
/// circuit, under the control of the call, unless the same call was walked
/// before. What they leak is still there behind the call, and the call comes to
/// what the body comes to.
pub proof fn law_circuit_call_walks_the_body(
    w: Walk,
    st: St,
    env: EnvView,
    control: Seq<WitnessView>,
    n: int,
    file: FileId,
    symbol: u32,
    callee: CircuitView,
)
    requires
        0 <= n < w.t().len(),
        w.t()[n].kind == CALL_EXPR,
        callee_of(w.c, n) == (CalleeView::Circuit { file, symbol }),
        w.depth < MAX_CALL_DEPTH,
        !w.active.contains((file, symbol)),
        circuit_def(w.c, file, symbol) == Some(callee),
        ev_list(w, st, env, control, call_args(w.t(), n), 0, n).1.len() == callee.params.len(),
    ensures
        ({
            let args = ev_list(w, st, env, control, call_args(w.t(), n), 0, n);
            let inner = Walk {
                c: CtxView { file, ..w.c },
                f: None,
                active: w.active.push((file, symbol)),
                depth: w.depth + 1,
            };
            let scope = callee_env(Map::empty(), callee, args.1, 0, range_of(w.t(), n));
            let body = ev_body(inner, args.0, scope, control, callee.body);
            let r = ev(w, st, env, control, n);
            let known = cached_from(args.0.cache, 0, file, symbol, args.1, control);
            &&& sink_grown(args.0.sink, r.0.sink)
            &&& known is None ==> r.0.sink == body.0.sink && r.1 == body.1
            &&& known is None ==> cached_from(r.0.cache, 0, file, symbol, args.1, control) is Some
            &&& known is Some ==> r.0 == args.0 && Some(r.1) == known
        }),
{
    let t = w.t();
    let src = range_of(t, n);
    let args = ev_list(w, st, env, control, call_args(t, n), 0, n);
    assert(ev(w, st, env, control, n) == ev_call(w, st, env, control, n));
    assert(ev_call(w, st, env, control, n) == ev_circuit_call(
        w,
        st,
        env,
        control,
        n,
        file,
        symbol,
    ));
    let inner = Walk {
        c: CtxView { file, ..w.c },
        f: None,
        active: w.active.push((file, symbol)),
        depth: w.depth + 1,
    };
    let scope = callee_env(Map::empty(), callee, args.1, 0, src);
    kept_body(inner, args.0, scope, control, callee.body);
    lemma_same(w.c, args.0);
    reveal(st_grown);
    let known = cached_from(args.0.cache, 0, file, symbol, args.1, control);
    let r = ev(w, st, env, control, n);
    if known is None {
        lemma_last_is_remembered(r.0.cache, 0, file, symbol, args.1, control);
    }
}

proof fn lemma_last_is_remembered(
    cache: Seq<CallView>,
    k: int,
    file: FileId,
    symbol: u32,
    args: Seq<AbsView>,
    control: Seq<WitnessView>,
)
    requires
        0 <= k < cache.len(),
        cache.last().file == file,
        cache.last().symbol == symbol,
        cache.last().args == args,
        cache.last().control == control,
    ensures
        cached_from(cache, k, file, symbol, args, control) is Some,
    decreases cache.len() - k,
{
    if k + 1 < cache.len() {
        lemma_last_is_remembered(cache, k + 1, file, symbol, args, control);
    }
}

} // verus!
