//! The disclosure interpreter: roots, seeding, and the walk over expressions
//! and statements.

use vstd::prelude::*;
use vstd::string::*;

use crate::calls::{arg_exprs, is_method_call, method_receiver};
use crate::db::{
    item_symbol, item_tree, resolve_at, resolved, syntax_tree, CompactDatabase, Ctx, CtxView,
    FileDeps, SourceText, Workspace,
};
use crate::disclosure::abs::{
    abs_equal, abses_view, add_path_point, add_witnesses, all_witnesses, clone_witnesses,
    combine_abs, disclose, lemma_multiple_view, merge_witnesses, points_view, tag_witnesses,
    with_point, witnesses_of, witnesses_view, Abs, AbsView, PathPoint, PointView, Witness,
    WitnessInfo, WitnessView,
};
use crate::disclosure::env::{calls_view, CachedCall, Env, WalkState};
use crate::disclosure::leaks::DisclosureSink;
use crate::disclosure::model::{
    CalleeView, CircuitView, MAX_CALL_DEPTH, St, Walk, all_args_leaked, all_bound, all_conduit_from,
    arg_point, arg_words, assigned, binary_operator, bool_token_from, bound, bound_alike,
    bound_names, built, callee_env, callee_of, chosen, circuit_def, clean, combined, conduit_from,
    element_at, element_of, element_patterns, elements_at, elements_of, ev, ev_binary, ev_body,
    ev_call, ev_circuit_call, ev_fold, ev_index, ev_inits, ev_join, ev_list, ev_map, ev_member,
    ev_struct, ev_ternary, ev_union, ev_unmodelled, field_position, first_solid,
    flagged_args_leaked, fold_bound, fold_fixed, fold_unrolled, indexed, init_for, joined_upto, kid,
    lambda_of, lambda_params, last_solid, last_text_token, ledger_op_done, map_unrolled,
    merged_children, operator_from, ordinal_word, param_child_name, param_child_names, param_parts,
    params_parts, peeled, projected, returned, returned_only, root_name, run, run_block, run_if,
    run_returning, solid_range, threaded, typed_abs, typed_elems, typed_fields, universe_upto,
    unresolved_class, unroll_len_from, with_params, witness_type, writes_ledger,
};
use crate::disclosure::tables::{flags_view, ledger_op, native_conduit, ArgFlags, LedgerOp};
use crate::infer::find_decl;
use crate::item_tree::{Symbol, SymbolKind};
use crate::kinds::{
    AMP_AMP, ARRAY_EXPR, ASSERT_STMT, ASSIGN_STMT, BANG_EQ, BINARY_EXPR, BLOCK, BYTES_EXPR,
    CALL_EXPR, CAST_EXPR, CIRCUIT_DEF, CONST_STMT, Class, DEFAULT_EXPR, DISCLOSE_EXPR, EQ_EQ,
    EXPR_STMT, FALSE_KW, FOLD_EXPR, FOR_STMT, GT, GT_EQ, IDENT, IDENT_PAT, IF_STMT, INDEX_EXPR,
    LAMBDA_EXPR, LITERAL_EXPR, LT, LT_EQ, MAP_EXPR, MEMBER_EXPR, MINUS, MULTI_CONST_STMT, NAME_EXPR,
    PAD_EXPR, PARAM, PARAM_LIST, PAREN_EXPR, PIPE_PIPE, PLUS, RETURN_STMT, SLASH, SLICE_EXPR,
    SPREAD_EXPR, STAR, STRUCT_EXPR, STRUCT_FIELD_INIT, STRUCT_PAT, STRUCT_UPDATE, TERNARY_EXPR,
    TRUE_KW, TUPLE_PAT, TUPLE_PAT_ELT, UNARY_EXPR, WITNESS_DECL, is_in_class, is_trivia,
};
use crate::resolve::{pattern_bindings, Definition};
use crate::syntax::{child, child_token, children, ints, oint, well_formed, SyntaxTree};
use crate::text::{cat2, cat3, cat4, decimal_text, otext, same_text, trim, TextRange};
use crate::ty::{fields_view, lemma_struct_view, lemma_tuple_view, tys_view, TyKind, TyView};
use crate::typing::{expr_ty, named_type_ty, type_kind_resolved};
use crate::vfs::FileId;

verus! {

/// Where the interpreter stands: a file in its surroundings, and the exported
/// circuit whose return values are watched.
#[derive(Clone, Copy)]
pub struct InterpCtx<'a> {
    pub db: &'a CompactDatabase,
    pub file: FileId,
    pub src: SourceText,
    pub fd: FileDeps,
    pub ws: &'a Workspace,
    pub disclosing_fn: Option<&'a str>,
}

impl<'a> InterpCtx<'a> {
    /// The file in its surroundings.
    pub open spec fn c(self) -> CtxView {
        CtxView { db: self.db@, file: self.file, src: self.src, fd: self.fd, ws: self.ws@ }
    }

    /// The name of the watched circuit.
    pub open spec fn f(self) -> Option<Seq<char>> {
        match self.disclosing_fn {
            Some(s) => Some(s@),
            None => None,
        }
    }

    /// The file in its surroundings.
    pub fn ctx(&self) -> (r: Ctx<'a>)
        ensures
            r@ == self.c(),
    {
        Ctx { db: self.db, file: self.file, src: self.src, fd: self.fd, ws: self.ws }
    }

    /// The tree of the file.
    pub fn tree(&self) -> (r: &'a SyntaxTree)
        requires
            self.c().ok(),
        ensures
            r@ == self.c().tree(),
    {
        syntax_tree(self.db, self.src)
    }
}

/// The threaded state as a value.
pub open spec fn st_of(sink: DisclosureSink, state: WalkState) -> St {
    St {
        sink: sink@,
        cache: calls_view(state.cache@),
        ret: witnesses_view(state.ret_ws@),
    }
}

/// Where a walk stands, as a value.
pub open spec fn walk_of(ctx: InterpCtx, state: WalkState) -> Walk {
    Walk { c: ctx.c(), f: ctx.f(), active: state.active@, depth: state.depth as int }
}

fn clean_abs() -> (r: Abs)
    ensures
        r@ == clean(),
{
    let none: Vec<Witness> = Vec::new();
    assert(witnesses_view(none@) =~= Seq::<WitnessView>::empty());
    Abs::Atomic(none)
}

fn no_witnesses() -> (r: Vec<Witness>)
    ensures
        witnesses_view(r@) == Seq::<WitnessView>::empty(),
{
    let none: Vec<Witness> = Vec::new();
    assert(witnesses_view(none@) =~= Seq::<WitnessView>::empty());
    none
}

pub fn one_witness(w: Witness) -> (r: Vec<Witness>)
    ensures
        witnesses_view(r@) == seq![w@],
{
    let mut v: Vec<Witness> = Vec::new();
    v.push(w);
    assert(witnesses_view(v@) =~= seq![w@]);
    v
}

fn point(src: TextRange, description: &str, exposure: &str) -> (r: PathPoint)
    ensures
        r@ == (PointView { src, description: description@, exposure: exposure@ }),
{
    PathPoint { src, description: description.to_owned(), exposure: exposure.to_owned() }
}

pub fn new_witness(uid: u32, src: TextRange, info: WitnessInfo) -> (r: Witness)
    ensures
        r@ == (WitnessView { uid, src, info: info@, path: Seq::empty() }),
{
    let r = Witness { uid, src, info, path: Vec::new() };
    assert(points_view(r.path@) =~= Seq::<PointView>::empty());
    r
}

// ---------------------------------------------------------------------------
// Shapes of types
// ---------------------------------------------------------------------------

/// The value of a declared type with `seed` at every leaf. An unknown type is
/// seeded as well, and advised about.
pub fn abs_of_type(sink: &mut DisclosureSink, kind: &TyKind, seed: &Vec<Witness>) -> (r: Abs)
    ensures
        (final(sink)@, r@) == typed_abs(old(sink)@, kind@, witnesses_view(seed@)),
    decreases kind,
{
    match kind {
        TyKind::Struct { name, fields } => {
            let mut out: Vec<Abs> = Vec::new();
            let ghost ws = witnesses_view(seed@);
            let ghost list = fields_view(fields@);
            let ghost whole = typed_fields(sink@, list, 0, ws);
            let mut i: usize = 0;
            assert(abses_view(out@) + whole.1 =~= whole.1);
            while i < fields.len()
                invariant
                    i <= fields@.len(),
                    ws == witnesses_view(seed@),
                    list == fields_view(fields@),
                    *kind is Struct,
                    kind->fields == *fields,
                    typed_fields(sink@, list, i as int, ws).0 == whole.0,
                    abses_view(out@) + typed_fields(sink@, list, i as int, ws).1 == whole.1,
                decreases fields@.len() - i,
            {
                assert(decreases_to!(*fields => fields@[i as int]));
                assert(list[i as int] == (fields@[i as int].0@, fields@[i as int].1@));
                let ghost before = abses_view(out@);
                let a = abs_of_type(sink, &fields[i].1, seed);
                let ghost own = a@;
                let ghost rest = typed_fields(sink@, list, i + 1, ws).1;
                out.push(a);
                assert(abses_view(out@) =~= before.push(own));
                assert(before + (seq![own] + rest) =~= before.push(own) + rest);
                i = i + 1;
            }
            proof {
                assert(abses_view(out@) + Seq::<AbsView>::empty() =~= abses_view(out@));
                lemma_struct_view(*name, *fields);
                lemma_multiple_view(out);
            }
            Abs::Multiple(out)
        },
        TyKind::Tuple(elems) => {
            let mut out: Vec<Abs> = Vec::new();
            let ghost ws = witnesses_view(seed@);
            let ghost list = tys_view(elems@);
            let ghost whole = typed_elems(sink@, list, 0, ws);
            let mut i: usize = 0;
            assert(abses_view(out@) + whole.1 =~= whole.1);
            while i < elems.len()
                invariant
                    i <= elems@.len(),
                    ws == witnesses_view(seed@),
                    list == tys_view(elems@),
                    *kind is Tuple,
                    kind->Tuple_0 == *elems,
                    typed_elems(sink@, list, i as int, ws).0 == whole.0,
                    abses_view(out@) + typed_elems(sink@, list, i as int, ws).1 == whole.1,
                decreases elems@.len() - i,
            {
                assert(decreases_to!(*elems => elems@[i as int]));
                assert(list[i as int] == elems@[i as int]@);
                let ghost before = abses_view(out@);
                let a = abs_of_type(sink, &elems[i], seed);
                let ghost own = a@;
                let ghost rest = typed_elems(sink@, list, i + 1, ws).1;
                out.push(a);
                assert(abses_view(out@) =~= before.push(own));
                assert(before + (seq![own] + rest) =~= before.push(own) + rest);
                i = i + 1;
            }
            proof {
                assert(abses_view(out@) + Seq::<AbsView>::empty() =~= abses_view(out@));
                lemma_tuple_view(*elems);
                lemma_multiple_view(out);
            }
            Abs::Multiple(out)
        },
        TyKind::Vector(_, elem) => {
            let a = abs_of_type(sink, elem, seed);
            Abs::Single(Box::new(a))
        },
        TyKind::Unknown => {
            let src = if seed.len() > 0 {
                assert(witnesses_view(seed@)[0] == seed@[0]@);
                seed[0].src
            } else {
                TextRange { start: 0, end: 0 }
            };
            sink.emit_advisory(
                src,
                "parameter type could not be resolved to a known shape (an Unknown v2b type); treated as tainted rather than silently clean",
            );
            Abs::Atomic(clone_witnesses(seed))
        },
        _ => Abs::Atomic(clone_witnesses(seed)),
    }
}

// ---------------------------------------------------------------------------
// Descriptions
// ---------------------------------------------------------------------------

fn ordinal(n: u128) -> (r: String)
    ensures
        r@ == ordinal_word(n as nat),
{
    if n == 1 {
        "first".to_owned()
    } else if n == 2 {
        "second".to_owned()
    } else if n == 3 {
        "third".to_owned()
    } else if n == 4 {
        "fourth".to_owned()
    } else if n == 5 {
        "fifth".to_owned()
    } else if n == 6 {
        "sixth".to_owned()
    } else if n == 7 {
        "seventh".to_owned()
    } else if n == 8 {
        "eighth".to_owned()
    } else {
        cat2(&decimal_text(n), "th")
    }
}

/// How argument `i` of a call is described.
pub fn arg_description(callee: &str, i: usize, arg_count: usize) -> (r: String)
    ensures
        r@ == arg_words(callee@, i as int, arg_count as nat),
{
    if arg_count > 1 {
        cat4("the ", &ordinal(i as u128 + 1), " argument to ", callee)
    } else {
        cat2("the argument to ", callee)
    }
}

fn argument_point(src: TextRange, callee: &str, i: usize, arg_count: usize, exposure: &str) -> (r:
    PathPoint)
    ensures
        r@ == arg_point(src, callee@, i as int, arg_count as nat, exposure@),
{
    PathPoint {
        src,
        description: arg_description(callee, i, arg_count),
        exposure: exposure.to_owned(),
    }
}

fn thread_control(cond_ws: &Vec<Witness>, control: &Vec<Witness>, branch_src: TextRange) -> (r: Vec<
    Witness,
>)
    ensures
        witnesses_view(r@) == threaded(
            witnesses_view(cond_ws@),
            witnesses_view(control@),
            branch_src,
        ),
{
    let pp = point(branch_src, "the conditional branch", "the boolean value of");
    let marked = tag_witnesses(cond_ws, &pp);
    merge_witnesses(&marked, control)
}

/// Keeps the witnesses that a witness function returned. At the return of an
/// exported circuit only those are disclosed.
pub fn filter_witnesses(witnesses: &Vec<Witness>) -> (r: Vec<Witness>)
    ensures
        witnesses_view(r@) == returned_only(witnesses_view(witnesses@), 0),
{
    let ghost all = witnesses_view(witnesses@);
    let mut out: Vec<Witness> = Vec::new();
    let mut k: usize = 0;
    assert(witnesses_view(out@) + returned_only(all, 0) =~= returned_only(all, 0));
    while k < witnesses.len()
        invariant
            k <= witnesses@.len(),
            all == witnesses_view(witnesses@),
            witnesses_view(out@) + returned_only(all, k as int) == returned_only(all, 0),
        decreases witnesses@.len() - k,
    {
        assert(all[k as int] == witnesses@[k as int]@);
        if let WitnessInfo::WitnessReturn { .. } = &witnesses[k].info {
            let ghost before = witnesses_view(out@);
            let ghost rest = returned_only(all, k + 1);
            let w = witnesses[k].clone();
            out.push(w);
            assert(witnesses_view(out@) =~= before.push(all[k as int]));
            assert(before + (seq![all[k as int]] + rest) =~= before.push(all[k as int]) + rest);
        }
        k = k + 1;
    }
    assert(witnesses_view(out@) + Seq::<WitnessView>::empty() =~= witnesses_view(out@));
    out
}

// ---------------------------------------------------------------------------
// Patterns
// ---------------------------------------------------------------------------

fn tuple_patterns(t: &SyntaxTree, p: usize) -> (r: Vec<usize>)
    requires
        well_formed(t@),
        p < t@.len(),
    ensures
        ints(r@) == element_patterns(
            t@,
            children(t@, p as int, Class::Kind(TUPLE_PAT_ELT)),
            0,
        ),
        forall|k: int| #![trigger r@[k]] 0 <= k < r@.len() ==> p < r@[k] < t@.len(),
{
    let kids = t.children(p, Class::Kind(TUPLE_PAT_ELT));
    let ghost list = ints(kids@);
    let ghost whole = element_patterns(t@, list, 0);
    let mut out: Vec<usize> = Vec::new();
    let mut k: usize = 0;
    assert(ints(out@) + whole =~= whole);
    while k < kids.len()
        invariant
            well_formed(t@),
            k <= kids@.len(),
            list == ints(kids@),
            forall|k: int| #![trigger kids@[k]] 0 <= k < kids@.len() ==> p < kids@[k] < t@.len(),
            forall|k: int| #![trigger out@[k]] 0 <= k < out@.len() ==> p < out@[k] < t@.len(),
            ints(out@) + element_patterns(t@, list, k as int) == whole,
        decreases kids@.len() - k,
    {
        assert(list[k as int] == kids@[k as int]);
        if let Some(q) = t.child(kids[k], Class::Pat) {
            let ghost before = ints(out@);
            let ghost rest = element_patterns(t@, list, k + 1);
            out.push(q);
            assert(ints(out@) =~= before.push(q as int));
            assert(before + (seq![q as int] + rest) =~= before.push(q as int) + rest);
        }
        k = k + 1;
    }
    assert(ints(out@) + Seq::<int>::empty() =~= ints(out@));
    out
}

fn bind_conservative(t: &SyntaxTree, env: &mut Env, p: usize, ws: &Vec<Witness>)
    requires
        well_formed(t@),
        p < t@.len(),
    ensures
        final(env)@ == bound_alike(t@, old(env)@, p as int, witnesses_view(ws@)),
{
    let toks = pattern_bindings(t, p);
    let ghost list = ints(toks@);
    let ghost v = witnesses_view(ws@);
    let ghost whole = bound_names(t@, env@, list, 0, v);
    let mut k: usize = 0;
    while k < toks.len()
        invariant
            k <= toks@.len(),
            list == ints(toks@),
            v == witnesses_view(ws@),
            forall|k: int| #![trigger toks@[k]] 0 <= k < toks@.len() ==> toks@[k] < t@.len(),
            bound_names(t@, env@, list, k as int, v) == whole,
        decreases toks@.len() - k,
    {
        assert(list[k as int] == toks@[k as int]);
        env.insert(t.token_text(toks[k]).to_owned(), Abs::Atomic(clone_witnesses(ws)));
        k = k + 1;
    }
}

fn bind_pattern(t: &SyntaxTree, sink: &mut DisclosureSink, env: &mut Env, p: usize, val: &Abs)
    requires
        well_formed(t@),
        p < t@.len(),
    ensures
        (final(sink)@, final(env)@) == bound(t@, old(sink)@, old(env)@, p as int, val@),
    decreases t@.len() - p, 0int,
{
    let kind: u16 = t.kind(p);
    if kind == IDENT_PAT {
        if let Some(x) = t.child_token(p, IDENT) {
            let name = t.token_text(x);
            let pp = PathPoint {
                src: t.range(x),
                description: cat2("the binding of ", name),
                exposure: String::new(),
            };
            assert(pp@.exposure =~= Seq::<char>::empty());
            let marked = add_path_point(val, &pp);
            env.insert(name.to_owned(), marked);
        }
    } else if kind == TUPLE_PAT {
        let pats = tuple_patterns(t, p);
        assert(ints(pats@).len() == pats@.len());
        if let Abs::Multiple(items) = val {
            proof {
                lemma_multiple_view(*items);
                assert(abses_view(items@).len() == items@.len());
            }
            if items.len() == pats.len() {
                bind_all(t, sink, env, &pats, items, p);
                return;
            }
        }
        let ws = witnesses_of(val);
        bind_conservative(t, env, p, &ws);
        sink.emit_advisory(
            t.range(p),
            "tuple destructuring shape did not match value; conservatively unioned",
        );
    } else if kind == STRUCT_PAT {
        let ws = witnesses_of(val);
        bind_conservative(t, env, p, &ws);
        sink.emit_advisory(
            t.range(p),
            "struct destructuring not modeled positionally; conservatively unioned",
        );
    }
}

fn bind_all(
    t: &SyntaxTree,
    sink: &mut DisclosureSink,
    env: &mut Env,
    pats: &Vec<usize>,
    vals: &Vec<Abs>,
    after: usize,
)
    requires
        well_formed(t@),
        after < t@.len(),
        vals@.len() == pats@.len(),
        forall|k: int| #![trigger pats@[k]] 0 <= k < pats@.len() ==> after < pats@[k] < t@.len(),
    ensures
        (final(sink)@, final(env)@) == all_bound(
            t@,
            old(sink)@,
            old(env)@,
            ints(pats@),
            0,
            abses_view(vals@),
            after as int,
        ),
    decreases t@.len() - after - 1, 1int,
{
    let ghost list = ints(pats@);
    let ghost vs = abses_view(vals@);
    let ghost whole = all_bound(t@, sink@, env@, list, 0, vs, after as int);
    let mut k: usize = 0;
    while k < pats.len()
        invariant
            well_formed(t@),
            after < t@.len(),
            k <= pats@.len(),
            vals@.len() == pats@.len(),
            list == ints(pats@),
            vs == abses_view(vals@),
            forall|k: int| #![trigger pats@[k]] 0 <= k < pats@.len() ==> after < pats@[k] < t@.len(),
            all_bound(t@, sink@, env@, list, k as int, vs, after as int) == whole,
        decreases pats@.len() - k,
    {
        assert(list[k as int] == pats@[k as int]);
        assert(vs[k as int] == vals@[k as int]@);
        bind_pattern(t, sink, env, pats[k], &vals[k]);
        k = k + 1;
    }
}


// ---------------------------------------------------------------------------
// Looking at the tree
// ---------------------------------------------------------------------------

fn bool_literal(t: &SyntaxTree, n: usize) -> (r: Option<bool>)
    requires
        well_formed(t@),
        n < t@.len(),
    ensures
        r == bool_token_from(t@, n + 1, t@[n as int].next),
{
    let end: usize = t.next(n);
    let mut i: usize = n + 1;
    while i < end
        invariant
            well_formed(t@),
            n < t@.len(),
            end == t@[n as int].next,
            end <= t@.len(),
            i <= t@.len(),
            bool_token_from(t@, n + 1, end as int) == bool_token_from(t@, i as int, end as int),
        decreases t@.len() - i,
    {
        assert(t@[i as int].next <= t@.len());
        if t.is_token(i) {
            if t.kind(i) == TRUE_KW {
                return Some(true);
            }
            if t.kind(i) == FALSE_KW {
                return Some(false);
            }
        }
        i = t.next(i);
    }
    None
}

fn is_binary_operator(kind: u16) -> (r: bool)
    ensures
        r == binary_operator(kind),
{
    kind == PLUS || kind == MINUS || kind == STAR || kind == SLASH || kind == EQ_EQ || kind
        == BANG_EQ || kind == LT || kind == LT_EQ || kind == GT || kind == GT_EQ || kind == AMP_AMP
        || kind == PIPE_PIPE
}

fn binary_op(t: &SyntaxTree, n: usize) -> (r: Option<u16>)
    requires
        well_formed(t@),
        n < t@.len(),
    ensures
        r == operator_from(t@, n + 1, t@[n as int].next),
{
    let end: usize = t.next(n);
    let mut i: usize = n + 1;
    while i < end
        invariant
            well_formed(t@),
            n < t@.len(),
            end == t@[n as int].next,
            end <= t@.len(),
            i <= t@.len(),
            operator_from(t@, n + 1, end as int) == operator_from(t@, i as int, end as int),
        decreases t@.len() - i,
    {
        assert(t@[i as int].next <= t@.len());
        if t.is_token(i) && is_binary_operator(t.kind(i)) {
            return Some(t.kind(i));
        }
        i = t.next(i);
    }
    None
}

fn unwrap_paren(t: &SyntaxTree, e: usize) -> (r: usize)
    requires
        well_formed(t@),
        e < t@.len(),
    ensures
        r == peeled(t@, e as int),
        e <= r < t@.len(),
{
    let mut cur: usize = e;
    while t.kind(cur) == PAREN_EXPR
        invariant
            well_formed(t@),
            e <= cur < t@.len(),
            peeled(t@, e as int) == peeled(t@, cur as int),
        decreases t@.len() - cur,
    {
        match t.child(cur, Class::Expr) {
            Some(x) => {
                cur = x;
            },
            None => {
                return cur;
            },
        }
    }
    cur
}

fn leftmost_name_token(t: &SyntaxTree, e: usize) -> (r: Option<usize>)
    requires
        well_formed(t@),
        e < t@.len(),
    ensures
        oint(r) == root_name(t@, e as int),
        r matches Some(x) ==> x < t@.len(),
    decreases t@.len() - e,
{
    let p: usize = unwrap_paren(t, e);
    let kind: u16 = t.kind(p);
    if kind == NAME_EXPR {
        t.child_token(p, IDENT)
    } else if kind == MEMBER_EXPR || kind == INDEX_EXPR {
        match t.child(p, Class::Expr) {
            Some(b) => leftmost_name_token(t, b),
            None => None,
        }
    } else {
        None
    }
}

fn is_ledger_field(c: &Ctx, target: usize) -> (r: bool)
    requires
        c@.ok(),
        target < c@.tree().len(),
    ensures
        r == writes_ledger(c@, target as int),
{
    let t = syntax_tree(c.db, c.src);
    match leftmost_name_token(t, target) {
        Some(x) => match resolve_at(c, t.range(x).start) {
            Some(Definition::Item { file, index }) => match item_symbol(c, file, index) {
                Some(sym) => sym.kind == SymbolKind::Ledger,
                None => false,
            },
            _ => false,
        },
        None => false,
    }
}

fn field_index(c: &Ctx, base: usize, field: &str) -> (r: Option<usize>)
    requires
        c@.ok(),
        base < c@.tree().len(),
    ensures
        oint(r) == projected(c@, base as int, field@),
{
    let t = syntax_tree(c.db, c.src);
    let p: usize = unwrap_paren(t, base);
    let end: usize = t.next(p);
    let mut i: usize = end;
    let mut offset: u32 = t.range(p).start;
    let mut found: bool = false;
    while i > p && !found
        invariant
            well_formed(t@),
            p < t@.len(),
            i <= end <= t@.len(),
            !found ==> last_text_token(t@, p as int, end as int) == last_text_token(
                t@,
                p as int,
                i as int,
            ),
            !found ==> offset == t@[p as int].start,
            found ==> (last_text_token(t@, p as int, end as int) matches Some(x) && offset
                == t@[x].start),
        decreases i,
    {
        if t.is_token(i - 1) {
            let text = trim(t.token_text(i - 1));
            if !text.as_str().is_empty() {
                offset = t.range(i - 1).start;
                found = true;
            }
        }
        i = i - 1;
    }
    let kind = expr_ty(c, offset);
    match &kind {
        TyKind::Struct { name, fields } => {
            proof {
                lemma_struct_view(*name, *fields);
            }
            let ghost list = fields_view(fields@);
            let mut k: usize = 0;
            while k < fields.len()
                invariant
                    k <= fields@.len(),
                    list == fields_view(fields@),
                    field_position(list, 0, field@) == field_position(list, k as int, field@),
                    projected(c@, base as int, field@) == field_position(list, 0, field@),
                decreases fields@.len() - k,
            {
                assert(list[k as int] == (fields@[k as int].0@, fields@[k as int].1@));
                if same_text(&fields[k].0, field) {
                    return Some(k);
                }
                k = k + 1;
            }
            None
        },
        _ => None,
    }
}

fn trimmed_range(t: &SyntaxTree, n: usize) -> (r: TextRange)
    requires
        well_formed(t@),
        n < t@.len(),
    ensures
        r == solid_range(t@, n as int),
{
    let end: usize = t.next(n);
    let mut i: usize = n;
    while i < end && !(t.is_token(i) && !is_trivia(t.kind(i)))
        invariant
            n <= i <= end <= t@.len(),
            first_solid(t@, n as int, end as int) == first_solid(t@, i as int, end as int),
        decreases end - i,
    {
        i = i + 1;
    }
    if i >= end {
        return t.range(n);
    }
    assert(first_solid(t@, n as int, end as int) == Some(i as int));
    let mut k: usize = end;
    while k > n && !(t.is_token(k - 1) && !is_trivia(t.kind(k - 1)))
        invariant
            n <= k <= end <= t@.len(),
            last_solid(t@, n as int, end as int) == last_solid(t@, n as int, k as int),
        decreases k,
    {
        k = k - 1;
    }
    if k <= n {
        return t.range(n);
    }
    assert(last_solid(t@, n as int, end as int) == Some(k - 1));
    TextRange { start: t.range(i).start, end: t.range(k - 1).end }
}

/// The names of parameters as values.
pub open spec fn onames(s: Seq<Option<String>>) -> Seq<Option<Seq<char>>> {
    s.map_values(|o: Option<String>| otext(o))
}

fn ident_name_of_param_child(t: &SyntaxTree, n: usize) -> (r: Option<String>)
    requires
        well_formed(t@),
        n < t@.len(),
    ensures
        otext(r) == param_child_name(t@, n as int),
{
    let pat = if t.kind(n) == PARAM {
        t.child(n, Class::Pat)
    } else {
        Some(n)
    };
    match pat {
        Some(p) => {
            if t.kind(p) != IDENT_PAT {
                return None;
            }
            match t.child_token(p, IDENT) {
                Some(x) => Some(t.token_text(x).to_owned()),
                None => None,
            }
        },
        None => None,
    }
}

fn lambda_param_names(t: &SyntaxTree, n: usize) -> (r: Vec<Option<String>>)
    requires
        well_formed(t@),
        n < t@.len(),
    ensures
        onames(r@) == lambda_params(t@, n as int),
{
    let mut out: Vec<Option<String>> = Vec::new();
    let p = match t.child(n, Class::Kind(PARAM_LIST)) {
        Some(p) => p,
        None => {
            assert(onames(out@) =~= Seq::<Option<Seq<char>>>::empty());
            return out;
        },
    };
    let kids = t.children(p, Class::Any);
    let ghost list = ints(kids@);
    let ghost whole = param_child_names(t@, list, 0);
    let mut k: usize = 0;
    assert(onames(out@) + whole =~= whole);
    while k < kids.len()
        invariant
            well_formed(t@),
            k <= kids@.len(),
            list == ints(kids@),
            forall|k: int| #![trigger kids@[k]] 0 <= k < kids@.len() ==> kids@[k] < t@.len(),
            onames(out@) + param_child_names(t@, list, k as int) == whole,
        decreases kids@.len() - k,
    {
        assert(list[k as int] == kids@[k as int]);
        let ghost before = onames(out@);
        let ghost rest = param_child_names(t@, list, k + 1);
        let name = ident_name_of_param_child(t, kids[k]);
        let ghost own = otext(name);
        out.push(name);
        assert(onames(out@) =~= before.push(own));
        assert(before + (seq![own] + rest) =~= before.push(own) + rest);
        k = k + 1;
    }
    assert(onames(out@) + Seq::<Option<Seq<char>>>::empty() =~= onames(out@));
    out
}

fn lambda_parts(t: &SyntaxTree, fun: usize) -> (r: Option<(usize, usize)>)
    requires
        well_formed(t@),
        fun < t@.len(),
    ensures
        match r {
            Some(p) => lambda_of(t@, fun as int) == Some((p.0 as int, p.1 as int)) && fun <= p.0
                < p.1 < t@.len(),
            None => lambda_of(t@, fun as int) is None,
        },
{
    let p: usize = unwrap_paren(t, fun);
    if t.kind(p) != LAMBDA_EXPR {
        return None;
    }
    if t.child(p, Class::Kind(BLOCK)).is_some() {
        return None;
    }
    let kids = t.children(p, Class::Expr);
    let ghost list = ints(kids@);
    assert(list.len() == kids@.len());
    if kids.len() == 0 {
        return None;
    }
    let b: usize = kids[kids.len() - 1];
    assert(list.last() == b);
    Some((p, b))
}

fn bind_lambda_env(base: &Env, params: &Vec<Option<String>>, vals: &Vec<Abs>) -> (r: Env)
    ensures
        r@ == with_params(base@, onames(params@), abses_view(vals@), 0),
{
    let mut env = base.clone();
    let ghost names = onames(params@);
    let ghost vs = abses_view(vals@);
    let ghost whole = with_params(base@, names, vs, 0);
    let mut k: usize = 0;
    while k < params.len() && k < vals.len()
        invariant
            k <= params@.len(),
            k <= vals@.len(),
            names == onames(params@),
            vs == abses_view(vals@),
            with_params(env@, names, vs, k as int) == whole,
        decreases params@.len() - k,
    {
        assert(names[k as int] == otext(params@[k as int]));
        assert(vs[k as int] == vals@[k as int]@);
        if let Some(name) = &params[k] {
            env.insert(name.clone(), vals[k].clone());
        }
        k = k + 1;
    }
    env
}

fn unroll_len(vals: &Vec<Abs>) -> (r: Option<usize>)
    ensures
        match r {
            Some(n) => unroll_len_from(abses_view(vals@), 0) == Some(n as nat),
            None => unroll_len_from(abses_view(vals@), 0) is None,
        },
{
    let ghost vs = abses_view(vals@);
    let mut k: usize = vals.len();
    let mut best: Option<usize> = None;
    while k > 0
        invariant
            k <= vals@.len(),
            vs == abses_view(vals@),
            match best {
                Some(n) => unroll_len_from(vs, k as int) == Some(n as nat),
                None => unroll_len_from(vs, k as int) is None,
            },
        decreases k,
    {
        assert(vs[k - 1] == vals@[k - 1]@);
        if let Abs::Multiple(items) = &vals[k - 1] {
            proof {
                lemma_multiple_view(*items);
                assert(abses_view(items@).len() == items@.len());
            }
            let n: usize = items.len();
            best = match best {
                Some(m) => if n <= m {
                    Some(n)
                } else {
                    Some(m)
                },
                None => Some(n),
            };
        }
        k = k - 1;
    }
    best
}

fn seq_element_abs(seq: &Abs) -> (r: Abs)
    ensures
        r@ == element_of(seq@),
{
    match seq {
        Abs::Single(inner) => (**inner).clone(),
        Abs::Multiple(items) => {
            proof {
                lemma_multiple_view(*items);
            }
            let ghost vs = abses_view(items@);
            let mut acc = clean_abs();
            let mut i: usize = 0;
            while i < items.len()
                invariant
                    i <= items@.len(),
                    vs == abses_view(items@),
                    acc@ == joined_upto(vs, i as int),
                decreases items@.len() - i,
            {
                assert(vs[i as int] == items@[i as int]@);
                acc = combine_abs(&acc, &items[i]);
                i = i + 1;
            }
            acc
        },
        _ => seq.clone(),
    }
}

fn seq_element_at(seq: &Abs, i: usize) -> (r: Abs)
    ensures
        r@ == element_at(seq@, i as int),
{
    match seq {
        Abs::Multiple(items) => {
            proof {
                lemma_multiple_view(*items);
            }
            if i < items.len() {
                assert(abses_view(items@)[i as int] == items@[i as int]@);
                items[i].clone()
            } else {
                clean_abs()
            }
        },
        Abs::Single(inner) => (**inner).clone(),
        _ => seq.clone(),
    }
}

fn push_elements_at(seqs: &Vec<Abs>, i: usize, out: &mut Vec<Abs>)
    ensures
        abses_view(final(out)@) == abses_view(old(out)@) + elements_at(
            abses_view(seqs@),
            i as int,
        ),
{
    let ghost all = elements_at(abses_view(seqs@), i as int);
    let ghost base = abses_view(out@);
    let mut k: usize = 0;
    assert(base + all.take(0) =~= base);
    while k < seqs.len()
        invariant
            k <= seqs@.len(),
            all == elements_at(abses_view(seqs@), i as int),
            abses_view(out@) == base + all.take(k as int),
        decreases seqs@.len() - k,
    {
        let ghost before = abses_view(out@);
        let a = seq_element_at(&seqs[k], i);
        assert(abses_view(seqs@)[k as int] == seqs@[k as int]@);
        assert(a@ == all[k as int]);
        out.push(a);
        assert(abses_view(out@) =~= before.push(all[k as int]));
        assert(before.push(all[k as int]) =~= base + all.take(k + 1));
        k = k + 1;
    }
    assert(all.take(k as int) =~= all);
}

fn element_abses(seqs: &Vec<Abs>) -> (r: Vec<Abs>)
    ensures
        abses_view(r@) == elements_of(abses_view(seqs@)),
{
    let mut out: Vec<Abs> = Vec::new();
    let mut k: usize = 0;
    while k < seqs.len()
        invariant
            k <= seqs@.len(),
            out@.len() == k,
            forall|j: int| 0 <= j < k ==> (#[trigger] out@[j])@ == element_of(seqs@[j]@),
        decreases seqs@.len() - k,
    {
        let a = seq_element_abs(&seqs[k]);
        out.push(a);
        k = k + 1;
    }
    assert(abses_view(out@) =~= elements_of(abses_view(seqs@)));
    out
}

fn push_copies(items: &Vec<Abs>, out: &mut Vec<Abs>)
    ensures
        abses_view(final(out)@) == abses_view(old(out)@) + abses_view(items@),
{
    let ghost base = abses_view(out@);
    let ghost all = abses_view(items@);
    let mut k: usize = 0;
    assert(base + all.take(0) =~= base);
    while k < items.len()
        invariant
            k <= items@.len(),
            all == abses_view(items@),
            abses_view(out@) == base + all.take(k as int),
        decreases items@.len() - k,
    {
        let ghost before = abses_view(out@);
        let a = items[k].clone();
        assert(a@ == all[k as int]);
        out.push(a);
        assert(abses_view(out@) =~= before.push(all[k as int]));
        assert(before.push(all[k as int]) =~= base + all.take(k + 1));
        k = k + 1;
    }
    assert(all.take(k as int) =~= all);
}

fn fold_fixpoint_bound(init: &Abs, elems: &Vec<Abs>) -> (r: u128)
    ensures
        r == fold_bound(init@, abses_view(elems@)),
{
    let ghost vs = abses_view(elems@);
    let mut universe = witnesses_of(init);
    let mut k: usize = 0;
    while k < elems.len()
        invariant
            k <= elems@.len(),
            vs == abses_view(elems@),
            witnesses_view(universe@) == universe_upto(init@, vs, k as int),
        decreases elems@.len() - k,
    {
        assert(vs[k as int] == elems@[k as int]@);
        let ws = witnesses_of(&elems[k]);
        universe = merge_witnesses(&universe, &ws);
        k = k + 1;
    }
    assert(witnesses_view(universe@).len() == universe@.len());
    universe.len() as u128 + 2
}

// ---------------------------------------------------------------------------
// Callees
// ---------------------------------------------------------------------------

/// What a call goes to.
pub enum CalleeClass {
    /// A witness function, with its name and return type.
    Witness { name: String, ret: TyKind },
    /// A circuit, by its place.
    Circuit { file: FileId, symbol: u32 },
    /// A circuit that cannot be walked.
    DeferredCircuit,
    /// A native operation, a method, or something else.
    Native,
}

impl View for CalleeClass {
    type V = CalleeView;

    open spec fn view(&self) -> CalleeView {
        match self {
            CalleeClass::Witness { name, ret } => CalleeView::Witness { name: name@, ret: ret@ },
            CalleeClass::Circuit { file, symbol } => CalleeView::Circuit {
                file: *file,
                symbol: *symbol,
            },
            CalleeClass::DeferredCircuit => CalleeView::Deferred,
            CalleeClass::Native => CalleeView::Native,
        }
    }
}

fn unresolved_callee_class(name: &str) -> (r: CalleeClass)
    ensures
        r@ == unresolved_class(name@),
{
    if native_conduit(name).is_some() {
        CalleeClass::Native
    } else {
        CalleeClass::DeferredCircuit
    }
}

fn witness_return_ty(c: &Ctx, def_file: FileId, sym: &Symbol) -> (r: TyKind)
    requires
        c@.ok(),
    ensures
        r@ == witness_type(c@, def_file, sym@),
{
    if def_file != c.file {
        return TyKind::Unknown;
    }
    let t = syntax_tree(c.db, c.src);
    match find_decl(t, WITNESS_DECL, sym.name_range) {
        Some(n) => match t.child(n, Class::Type) {
            Some(ty) => type_kind_resolved(c, ty),
            None => TyKind::Unknown,
        },
        None => TyKind::Unknown,
    }
}

/// Decides what call `n` goes to.
pub fn classify_callee(c: &Ctx, n: usize) -> (r: CalleeClass)
    requires
        c@.ok(),
        n < c@.tree().len(),
    ensures
        r@ == callee_of(c@, n as int),
{
    let t = syntax_tree(c.db, c.src);
    if is_method_call(t, n) {
        return CalleeClass::Native;
    }
    let x = match t.child_token(n, IDENT) {
        Some(x) => x,
        None => {
            return CalleeClass::Native;
        },
    };
    let (file, index) = match resolve_at(c, t.range(x).start) {
        Some(Definition::Item { file, index }) => (file, index),
        _ => {
            return unresolved_callee_class(t.token_text(x));
        },
    };
    let sym = match item_symbol(c, file, index) {
        Some(s) => s,
        None => {
            return unresolved_callee_class(t.token_text(x));
        },
    };
    if sym.kind == SymbolKind::Witness {
        CalleeClass::Witness { name: sym.name.clone(), ret: witness_return_ty(c, file, sym) }
    } else if sym.kind == SymbolKind::Circuit {
        CalleeClass::Circuit { file, symbol: index }
    } else if sym.kind == SymbolKind::CircuitSig || sym.kind == SymbolKind::ContractCircuit {
        CalleeClass::DeferredCircuit
    } else {
        CalleeClass::Native
    }
}

fn param_name_and_type(t: &SyntaxTree, p: usize) -> (r: Option<(usize, usize)>)
    requires
        well_formed(t@),
        p < t@.len(),
    ensures
        match r {
            Some(q) => param_parts(t@, p as int) == Some((q.0 as int, q.1 as int)) && q.0
                < t@.len() && q.1 < t@.len(),
            None => param_parts(t@, p as int) is None,
        },
{
    match (t.child(p, Class::Pat), t.child(p, Class::Type)) {
        (Some(q), Some(ty)) => {
            if t.kind(q) != IDENT_PAT {
                return None;
            }
            match t.child_token(q, IDENT) {
                Some(x) => Some((x, ty)),
                None => None,
            }
        },
        _ => None,
    }
}

/// A list of pairs of indices as mathematical integers.
pub open spec fn int_pairs(s: Seq<(usize, usize)>) -> Seq<(int, int)> {
    s.map_values(|p: (usize, usize)| (p.0 as int, p.1 as int))
}

pub fn named_params(t: &SyntaxTree, n: usize) -> (r: Vec<(usize, usize)>)
    requires
        well_formed(t@),
        n < t@.len(),
    ensures
        int_pairs(r@) == params_parts(t@, children(t@, n as int, Class::Kind(PARAM)), 0),
        forall|k: int|
            #![trigger r@[k]]
            0 <= k < r@.len() ==> r@[k].0 < t@.len() && r@[k].1 < t@.len(),
{
    let kids = t.children(n, Class::Kind(PARAM));
    let ghost list = ints(kids@);
    let ghost whole = params_parts(t@, list, 0);
    let mut out: Vec<(usize, usize)> = Vec::new();
    let mut k: usize = 0;
    assert(int_pairs(out@) + whole =~= whole);
    while k < kids.len()
        invariant
            well_formed(t@),
            k <= kids@.len(),
            list == ints(kids@),
            forall|k: int| #![trigger kids@[k]] 0 <= k < kids@.len() ==> kids@[k] < t@.len(),
            forall|k: int|
                #![trigger out@[k]]
                0 <= k < out@.len() ==> out@[k].0 < t@.len() && out@[k].1 < t@.len(),
            int_pairs(out@) + params_parts(t@, list, k as int) == whole,
        decreases kids@.len() - k,
    {
        assert(list[k as int] == kids@[k as int]);
        let ghost before = int_pairs(out@);
        let ghost rest = params_parts(t@, list, k + 1);
        if let Some(q) = param_name_and_type(t, kids[k]) {
            let ghost own = (q.0 as int, q.1 as int);
            out.push(q);
            assert(int_pairs(out@) =~= before.push(own));
            assert(before + (seq![own] + rest) =~= before.push(own) + rest);
        }
        k = k + 1;
    }
    assert(int_pairs(out@) + Seq::<(int, int)>::empty() =~= int_pairs(out@));
    out
}

/// A circuit that can be walked: its name, its parameters and its body.
pub struct CircuitDef {
    pub name: String,
    pub params: Vec<String>,
    pub body: usize,
}

impl View for CircuitDef {
    type V = CircuitView;

    open spec fn view(&self) -> CircuitView {
        CircuitView {
            name: self.name@,
            params: crate::text::texts(self.params@),
            body: self.body as int,
        }
    }
}

fn resolve_circuit_def(c: &Ctx, callee_file: FileId, callee_symbol: u32) -> (r: Option<CircuitDef>)
    requires
        c@.ok(),
    ensures
        match r {
            Some(d) => circuit_def(c@, callee_file, callee_symbol) == Some(d@) && d.body
                < c@.tree().len(),
            None => circuit_def(c@, callee_file, callee_symbol) is None,
        },
{
    if callee_file != c.file {
        return None;
    }
    let tree = item_tree(c.db, c.src);
    let i: usize = callee_symbol as usize;
    if i >= tree.symbols.len() {
        return None;
    }
    let sym = &tree.symbols[i];
    assert(tree@[i as int] == sym@);
    let t = syntax_tree(c.db, c.src);
    let n = match find_decl(t, CIRCUIT_DEF, sym.name_range) {
        Some(n) => n,
        None => {
            return None;
        },
    };
    let body = match t.child(n, Class::Kind(BLOCK)) {
        Some(b) => b,
        None => {
            return None;
        },
    };
    let pairs = named_params(t, n);
    let mut params: Vec<String> = Vec::new();
    let mut k: usize = 0;
    while k < pairs.len()
        invariant
            k <= pairs@.len(),
            params@.len() == k,
            forall|k: int|
                #![trigger pairs@[k]]
                0 <= k < pairs@.len() ==> pairs@[k].0 < t@.len() && pairs@[k].1 < t@.len(),
            forall|j: int|
                0 <= j < k ==> (#[trigger] params@[j])@ == t@[pairs@[j].0 as int].text,
        decreases pairs@.len() - k,
    {
        params.push(t.token_text(pairs[k].0).to_owned());
        k = k + 1;
    }
    proof {
        let ps = params_parts(t@, children(t@, n as int, Class::Kind(PARAM)), 0);
        assert(crate::text::texts(params@) =~= ps.map_values(|p: (int, int)| t@[p.0].text)) by {
            assert forall|j: int| 0 <= j < params@.len() implies crate::text::texts(params@)[j]
                == t@[ps[j].0].text by {
                assert(ps[j] == int_pairs(pairs@)[j]);
            }
        }
    }
    Some(CircuitDef { name: sym.name.clone(), params, body })
}

fn callee_environment(callee: &CircuitDef, args: &Vec<Abs>, src: TextRange) -> (r: Env)
    ensures
        r@ == callee_env(Map::empty(), callee@, abses_view(args@), 0, src),
{
    let mut env = Env::new();
    let ghost vs = abses_view(args@);
    let ghost whole = callee_env(Map::empty(), callee@, vs, 0, src);
    let n: usize = args.len();
    let mut k: usize = 0;
    while k < n && k < callee.params.len()
        invariant
            k <= n,
            n == args@.len(),
            n == vs.len(),
            k <= callee.params@.len(),
            vs == abses_view(args@),
            callee_env(env@, callee@, vs, k as int, src) == whole,
        decreases n - k,
    {
        assert(vs[k as int] == args@[k as int]@);
        assert(callee@.params[k as int] == callee.params@[k as int]@);
        proof {
            reveal_strlit("");
            assert(""@ =~= Seq::<char>::empty());
        }
        let pp = argument_point(src, &callee.name, k, n, "");
        let a = add_path_point(&args[k], &pp);
        env.insert(callee.params[k].clone(), a);
        k = k + 1;
    }
    env
}

fn native_conduit_result(name: &str, flags: &ArgFlags, args: &Vec<Abs>, src: TextRange) -> (r: Abs)
    ensures
        r@ == AbsView::Atomic(
            conduit_from(
                name@,
                flags_view(flags@),
                abses_view(args@),
                0,
                src,
                Seq::empty(),
            ),
        ),
{
    let ghost fs = flags_view(flags@);
    let ghost vs = abses_view(args@);
    let ghost whole = conduit_from(name@, fs, vs, 0, src, Seq::empty());
    let mut folded = no_witnesses();
    let n: usize = flags.len();
    let mut k: usize = 0;
    while k < n && k < args.len()
        invariant
            k <= n,
            n == flags@.len(),
            n == fs.len(),
            k <= args@.len(),
            fs == flags_view(flags@),
            vs == abses_view(args@),
            conduit_from(name@, fs, vs, k as int, src, witnesses_view(folded@)) == whole,
        decreases n - k,
    {
        assert(vs[k as int] == args@[k as int]@);
        assert(fs[k as int] == crate::disclosure::tables::flag_view(flags@[k as int]));
        if let Some(exposure) = flags[k] {
            let pp = argument_point(src, name, k, n, exposure);
            let marked = add_path_point(&args[k], &pp);
            let ws = witnesses_of(&marked);
            folded = merge_witnesses(&folded, &ws);
        }
        k = k + 1;
    }
    Abs::Atomic(folded)
}

fn unknown_native_result(sink: &mut DisclosureSink, name: &str, args: &Vec<Abs>, src: TextRange)
    -> (r: Abs)
    ensures
        final(sink)@ == old(sink)@.advised(
            src,
            "unknown native `"@ + name@
                + "` not in the conduit table; conduit-tainting all args (fail-closed, may be stale)"@,
        ),
        r@ == AbsView::Atomic(
            all_conduit_from(name@, abses_view(args@), 0, src, Seq::empty()),
        ),
{
    let ghost vs = abses_view(args@);
    let ghost whole = all_conduit_from(name@, vs, 0, src, Seq::empty());
    let mut folded = no_witnesses();
    let n: usize = args.len();
    let mut k: usize = 0;
    while k < n
        invariant
            k <= n,
            n == args@.len(),
            n == vs.len(),
            vs == abses_view(args@),
            all_conduit_from(name@, vs, k as int, src, witnesses_view(folded@)) == whole,
        decreases n - k,
    {
        assert(vs[k as int] == args@[k as int]@);
        proof {
            reveal_strlit("");
            assert(""@ =~= Seq::<char>::empty());
        }
        let pp = argument_point(src, name, k, n, "");
        let marked = add_path_point(&args[k], &pp);
        let ws = witnesses_of(&marked);
        folded = merge_witnesses(&folded, &ws);
        k = k + 1;
    }
    let reason = cat3(
        "unknown native `",
        name,
        "` not in the conduit table; conduit-tainting all args (fail-closed, may be stale)",
    );
    sink.emit_advisory(src, &reason);
    Abs::Atomic(folded)
}

fn leak_ledger_arg(
    sink: &mut DisclosureSink,
    op: &str,
    i: usize,
    arg_count: usize,
    exposure: &str,
    arg: &Abs,
    src: TextRange,
)
    ensures
        final(sink)@ == old(sink)@.leaked(
            src,
            "ledger operation"@,
            all_witnesses(
                with_point(arg@, arg_point(src, op@, i as int, arg_count as nat, exposure@)),
            ),
        ),
{
    let pp = argument_point(src, op, i, arg_count, exposure);
    let marked = add_path_point(arg, &pp);
    let ws = witnesses_of(&marked);
    sink.record_leak(src, "ledger operation", ws);
}

fn leak_all_ledger_args(
    sink: &mut DisclosureSink,
    op: &str,
    args: &Vec<Abs>,
    src: TextRange,
    Ghost(st): Ghost<St>,
)
    requires
        st.sink == old(sink)@,
    ensures
        (St { sink: final(sink)@, ..st }) == all_args_leaked(st, op@, abses_view(args@), 0, src),
{
    let ghost vs = abses_view(args@);
    let ghost whole = all_args_leaked(st, op@, vs, 0, src);
    let n: usize = args.len();
    let mut k: usize = 0;
    assert((St { sink: sink@, ..st }) == st);
    while k < n
        invariant
            k <= n,
            n == args@.len(),
            n == vs.len(),
            vs == abses_view(args@),
            all_args_leaked(St { sink: sink@, ..st }, op@, vs, k as int, src) == whole,
        decreases n - k,
    {
        assert(vs[k as int] == args@[k as int]@);
        proof {
            reveal_strlit("");
            assert(""@ =~= Seq::<char>::empty());
        }
        leak_ledger_arg(sink, op, k, n, "", &args[k], src);
        k = k + 1;
    }
}

fn leak_flagged_ledger_args(
    sink: &mut DisclosureSink,
    op: &str,
    flags: &ArgFlags,
    args: &Vec<Abs>,
    src: TextRange,
    Ghost(st): Ghost<St>,
)
    requires
        st.sink == old(sink)@,
    ensures
        (St { sink: final(sink)@, ..st }) == flagged_args_leaked(
            st,
            op@,
            flags_view(flags@),
            abses_view(args@),
            0,
            src,
        ),
{
    let ghost fs = flags_view(flags@);
    let ghost vs = abses_view(args@);
    let ghost whole = flagged_args_leaked(st, op@, fs, vs, 0, src);
    let n: usize = flags.len();
    let mut k: usize = 0;
    assert((St { sink: sink@, ..st }) == st);
    while k < n && k < args.len()
        invariant
            k <= n,
            n == flags@.len(),
            n == fs.len(),
            k <= args@.len(),
            fs == flags_view(flags@),
            vs == abses_view(args@),
            flagged_args_leaked(St { sink: sink@, ..st }, op@, fs, vs, k as int, src) == whole,
        decreases n - k,
    {
        assert(vs[k as int] == args@[k as int]@);
        assert(fs[k as int] == crate::disclosure::tables::flag_view(flags@[k as int]));
        if let Some(exposure) = flags[k] {
            leak_ledger_arg(sink, op, k, n, exposure, &args[k], src);
        }
        k = k + 1;
    }
}

fn interp_ledger_op(
    ctx: &InterpCtx,
    sink: &mut DisclosureSink,
    n: usize,
    control: &Vec<Witness>,
    name: &str,
    args: &Vec<Abs>,
    src: TextRange,
    Ghost(w): Ghost<Walk>,
    Ghost(st): Ghost<St>,
)
    requires
        ctx.c().ok(),
        w.c == ctx.c(),
        n < w.t().len(),
        st.sink == old(sink)@,
    ensures
        (St { sink: final(sink)@, ..st }) == ledger_op_done(
            w,
            st,
            witnesses_view(control@),
            n as int,
            name@,
            abses_view(args@),
            src,
        ),
{
    let t = ctx.tree();
    let c = ctx.ctx();
    let on_ledger: bool = match method_receiver(t, n) {
        Some(r) => is_ledger_field(&c, r),
        None => false,
    };
    let known = ledger_op(name);
    if !on_ledger && known.is_none() {
        sink.emit_advisory(src, "method call on a non-ledger receiver not modeled");
        return;
    }
    sink.record_leak(src, "performing this ledger operation", clone_witnesses(control));
    let ghost st1 = st.leaked(
        src,
        "performing this ledger operation"@,
        witnesses_view(control@),
    );
    match known {
        Some(LedgerOp::AllArgsLeak) => leak_all_ledger_args(sink, name, args, src, Ghost(st1)),
        Some(LedgerOp::PerArg(flags)) => leak_flagged_ledger_args(
            sink,
            name,
            &flags,
            args,
            src,
            Ghost(st1),
        ),
        None => {
            leak_all_ledger_args(sink, name, args, src, Ghost(st1));
            let reason = cat3(
                "unknown ledger op `",
                name,
                "`; leaking all witness args (fail-closed, may be stale)",
            );
            sink.emit_advisory(src, &reason);
        },
    }
}


// ---------------------------------------------------------------------------
// Expressions
// ---------------------------------------------------------------------------

fn interp_kid(
    ctx: &InterpCtx,
    sink: &mut DisclosureSink,
    state: &mut WalkState,
    env: &Env,
    control: &Vec<Witness>,
    n: usize,
    i: usize,
) -> (r: Abs)
    requires
        ctx.c().ok(),
        old(state).depth <= MAX_CALL_DEPTH,
        n < ctx.c().tree().len(),
    ensures
        final(state).active@ == old(state).active@,
        final(state).depth == old(state).depth,
        (st_of(*final(sink), *final(state)), r@) == kid(
            walk_of(*ctx, *old(state)),
            st_of(*old(sink), *old(state)),
            env@,
            witnesses_view(control@),
            n as int,
            i as int,
        ),
    decreases MAX_CALL_DEPTH - old(state).depth, ctx.c().tree().len() - n, 4int,
{
    let t = ctx.tree();
    let kids = t.children(n, Class::Expr);
    let ghost list = ints(kids@);
    assert(list.len() == kids@.len());
    if i < kids.len() {
        assert(list[i as int] == kids@[i as int]);
        interp_expr(ctx, sink, state, env, control, kids[i])
    } else {
        clean_abs()
    }
}

fn interp_list(
    ctx: &InterpCtx,
    sink: &mut DisclosureSink,
    state: &mut WalkState,
    env: &Env,
    control: &Vec<Witness>,
    kids: &Vec<usize>,
    from: usize,
    after: usize,
) -> (r: Vec<Abs>)
    requires
        ctx.c().ok(),
        old(state).depth <= MAX_CALL_DEPTH,
        after < ctx.c().tree().len(),
        forall|k: int|
            #![trigger kids@[k]]
            0 <= k < kids@.len() ==> after < kids@[k] < ctx.c().tree().len(),
        from <= kids@.len(),
    ensures
        final(state).active@ == old(state).active@,
        final(state).depth == old(state).depth,
        (st_of(*final(sink), *final(state)), abses_view(r@)) == ev_list(
            walk_of(*ctx, *old(state)),
            st_of(*old(sink), *old(state)),
            env@,
            witnesses_view(control@),
            ints(kids@),
            from as int,
            after as int,
        ),
    decreases MAX_CALL_DEPTH - old(state).depth, ctx.c().tree().len() - after, 3int,
{
    let t = ctx.tree();
    let ghost w = walk_of(*ctx, *state);
    let ghost cv = witnesses_view(control@);
    let ghost list = ints(kids@);
    let ghost whole = ev_list(
        w,
        st_of(*sink, *state),
        env@,
        cv,
        list,
        from as int,
        after as int,
    );
    let mut out: Vec<Abs> = Vec::new();
    let mut k: usize = from;
    assert(abses_view(out@) + whole.1 =~= whole.1);
    while k < kids.len()
        invariant
            ctx.c().ok(),
            old(state).depth <= MAX_CALL_DEPTH,
            state.active@ == old(state).active@,
            state.depth == old(state).depth,
            w == walk_of(*ctx, *old(state)),
            t@ == w.t(),
            cv == witnesses_view(control@),
            after < t@.len(),
            forall|k: int| #![trigger kids@[k]] 0 <= k < kids@.len() ==> after < kids@[k] < t@.len(),
            list == ints(kids@),
            k <= kids@.len(),
            ev_list(
                w,
                st_of(*sink, *state),
                env@,
                cv,
                list,
                k as int,
                after as int,
            ).0 == whole.0,
            abses_view(out@) + ev_list(
                w,
                st_of(*sink, *state),
                env@,
                cv,
                list,
                k as int,
                after as int,
            ).1 == whole.1,
        decreases kids@.len() - k,
    {
        assert(list[k as int] == kids@[k as int]);
        let ghost before = abses_view(out@);
        let a = interp_expr(ctx, sink, state, env, control, kids[k]);
        let ghost own = a@;
        let ghost rest = ev_list(
            w,
            st_of(*sink, *state),
            env@,
            cv,
            list,
            k + 1,
            after as int,
        ).1;
        out.push(a);
        assert(abses_view(out@) =~= before.push(own));
        assert(before + (seq![own] + rest) =~= before.push(own) + rest);
        k = k + 1;
    }
    assert(abses_view(out@) + Seq::<AbsView>::empty() =~= abses_view(out@));
    out
}

fn interp_union(
    ctx: &InterpCtx,
    sink: &mut DisclosureSink,
    state: &mut WalkState,
    env: &Env,
    control: &Vec<Witness>,
    kids: &Vec<usize>,
    after: usize,
) -> (r: Vec<Witness>)
    requires
        ctx.c().ok(),
        old(state).depth <= MAX_CALL_DEPTH,
        after < ctx.c().tree().len(),
        forall|k: int|
            #![trigger kids@[k]]
            0 <= k < kids@.len() ==> after < kids@[k] < ctx.c().tree().len(),
    ensures
        final(state).active@ == old(state).active@,
        final(state).depth == old(state).depth,
        (st_of(*final(sink), *final(state)), witnesses_view(r@)) == ev_union(
            walk_of(*ctx, *old(state)),
            st_of(*old(sink), *old(state)),
            env@,
            witnesses_view(control@),
            ints(kids@),
            0,
            after as int,
            Seq::empty(),
        ),
    decreases MAX_CALL_DEPTH - old(state).depth, ctx.c().tree().len() - after, 3int,
{
    let t = ctx.tree();
    let ghost w = walk_of(*ctx, *state);
    let ghost cv = witnesses_view(control@);
    let ghost list = ints(kids@);
    let ghost whole = ev_union(
        w,
        st_of(*sink, *state),
        env@,
        cv,
        list,
        0,
        after as int,
        Seq::empty(),
    );
    let mut ws = no_witnesses();
    let mut k: usize = 0;
    while k < kids.len()
        invariant
            ctx.c().ok(),
            old(state).depth <= MAX_CALL_DEPTH,
            state.active@ == old(state).active@,
            state.depth == old(state).depth,
            w == walk_of(*ctx, *old(state)),
            t@ == w.t(),
            cv == witnesses_view(control@),
            after < t@.len(),
            forall|k: int| #![trigger kids@[k]] 0 <= k < kids@.len() ==> after < kids@[k] < t@.len(),
            list == ints(kids@),
            k <= kids@.len(),
            ev_union(
                w,
                st_of(*sink, *state),
                env@,
                cv,
                list,
                k as int,
                after as int,
                witnesses_view(ws@),
            ) == whole,
        decreases kids@.len() - k,
    {
        assert(list[k as int] == kids@[k as int]);
        let a = interp_expr(ctx, sink, state, env, control, kids[k]);
        let more = witnesses_of(&a);
        ws = merge_witnesses(&ws, &more);
        k = k + 1;
    }
    ws
}

fn interp_array(
    ctx: &InterpCtx,
    sink: &mut DisclosureSink,
    state: &mut WalkState,
    env: &Env,
    control: &Vec<Witness>,
    kids: &Vec<usize>,
    after: usize,
) -> (r: Option<Abs>)
    requires
        ctx.c().ok(),
        old(state).depth <= MAX_CALL_DEPTH,
        after < ctx.c().tree().len(),
        forall|k: int|
            #![trigger kids@[k]]
            0 <= k < kids@.len() ==> after < kids@[k] < ctx.c().tree().len(),
    ensures
        final(state).active@ == old(state).active@,
        final(state).depth == old(state).depth,
        (st_of(*final(sink), *final(state)), oabs(r)) == ev_join(
            walk_of(*ctx, *old(state)),
            st_of(*old(sink), *old(state)),
            env@,
            witnesses_view(control@),
            ints(kids@),
            0,
            after as int,
            None,
        ),
    decreases MAX_CALL_DEPTH - old(state).depth, ctx.c().tree().len() - after, 3int,
{
    let t = ctx.tree();
    let ghost w = walk_of(*ctx, *state);
    let ghost cv = witnesses_view(control@);
    let ghost list = ints(kids@);
    let ghost whole = ev_join(
        w,
        st_of(*sink, *state),
        env@,
        cv,
        list,
        0,
        after as int,
        None,
    );
    let mut acc: Option<Abs> = None;
    let mut k: usize = 0;
    while k < kids.len()
        invariant
            ctx.c().ok(),
            old(state).depth <= MAX_CALL_DEPTH,
            state.active@ == old(state).active@,
            state.depth == old(state).depth,
            w == walk_of(*ctx, *old(state)),
            t@ == w.t(),
            cv == witnesses_view(control@),
            after < t@.len(),
            forall|k: int| #![trigger kids@[k]] 0 <= k < kids@.len() ==> after < kids@[k] < t@.len(),
            list == ints(kids@),
            k <= kids@.len(),
            ev_join(
                w,
                st_of(*sink, *state),
                env@,
                cv,
                list,
                k as int,
                after as int,
                oabs(acc),
            ) == whole,
        decreases kids@.len() - k,
    {
        assert(list[k as int] == kids@[k as int]);
        let a = interp_expr(ctx, sink, state, env, control, kids[k]);
        let next = match &acc {
            Some(prev) => combine_abs(prev, &a),
            None => a,
        };
        acc = Some(next);
        k = k + 1;
    }
    acc
}

/// The value of an optional abstract value.
pub open spec fn oabs(o: Option<Abs>) -> Option<AbsView> {
    match o {
        Some(a) => Some(a@),
        None => None,
    }
}

fn fail_closed_expr(
    ctx: &InterpCtx,
    sink: &mut DisclosureSink,
    state: &mut WalkState,
    env: &Env,
    control: &Vec<Witness>,
    n: usize,
    reason: &str,
) -> (r: Abs)
    requires
        ctx.c().ok(),
        old(state).depth <= MAX_CALL_DEPTH,
        n < ctx.c().tree().len(),
    ensures
        final(state).active@ == old(state).active@,
        final(state).depth == old(state).depth,
        (st_of(*final(sink), *final(state)), r@) == ev_unmodelled(
            walk_of(*ctx, *old(state)),
            st_of(*old(sink), *old(state)),
            env@,
            witnesses_view(control@),
            n as int,
            reason@,
        ),
    decreases MAX_CALL_DEPTH - old(state).depth, ctx.c().tree().len() - n, 4int,
{
    let t = ctx.tree();
    let kids = t.children(n, Class::Expr);
    let ws = interp_union(ctx, sink, state, env, control, &kids, n);
    sink.emit_advisory(t.range(n), reason);
    Abs::Atomic(ws)
}

fn combine_operands(
    sink: &mut DisclosureSink,
    op: Option<u16>,
    lhs: &Abs,
    rhs: &Abs,
    src: TextRange,
    Ghost(st): Ghost<St>,
) -> (r: Abs)
    requires
        st.sink == old(sink)@,
    ensures
        (St { sink: final(sink)@, ..st }, r@) == combined(st, op, lhs@, rhs@, src),
{
    if let Some(k) = op {
        if k == PLUS || k == MINUS || k == STAR {
            let exposure = if k == PLUS {
                "the result of an addition involving"
            } else if k == MINUS {
                "the result of a subtraction involving"
            } else {
                "the result of a multiplication involving"
            };
            let pp = point(src, "the computation", exposure);
            let both = combine_abs(lhs, rhs);
            return add_path_point(&both, &pp);
        }
        if k == EQ_EQ || k == BANG_EQ || k == LT || k == LT_EQ || k == GT || k == GT_EQ {
            let a = witnesses_of(lhs);
            let b = witnesses_of(rhs);
            let both = Abs::Atomic(merge_witnesses(&a, &b));
            let pp = point(src, "the comparison", "the result of a comparison involving");
            return add_path_point(&both, &pp);
        }
    }
    let a = witnesses_of(lhs);
    let b = witnesses_of(rhs);
    let both = Abs::Atomic(merge_witnesses(&a, &b));
    if op != Some(AMP_AMP) && op != Some(PIPE_PIPE) {
        sink.emit_advisory(src, "binary operator not modeled");
    }
    both
}

fn interp_binary(
    ctx: &InterpCtx,
    sink: &mut DisclosureSink,
    state: &mut WalkState,
    env: &Env,
    control: &Vec<Witness>,
    n: usize,
) -> (r: Abs)
    requires
        ctx.c().ok(),
        old(state).depth <= MAX_CALL_DEPTH,
        n < ctx.c().tree().len(),
    ensures
        final(state).active@ == old(state).active@,
        final(state).depth == old(state).depth,
        (st_of(*final(sink), *final(state)), r@) == ev_binary(
            walk_of(*ctx, *old(state)),
            st_of(*old(sink), *old(state)),
            env@,
            witnesses_view(control@),
            n as int,
        ),
    decreases MAX_CALL_DEPTH - old(state).depth, ctx.c().tree().len() - n, 5int,
{
    let t = ctx.tree();
    let src = t.range(n);
    let op: Option<u16> = binary_op(t, n);
    let lhs = interp_kid(ctx, sink, state, env, control, n, 0);
    let rhs_control = if op == Some(AMP_AMP) || op == Some(PIPE_PIPE) {
        let ws = witnesses_of(&lhs);
        thread_control(&ws, control, src)
    } else {
        clone_witnesses(control)
    };
    let rhs = interp_kid(ctx, sink, state, env, &rhs_control, n, 1);
    let ghost st = st_of(*sink, *state);
    combine_operands(sink, op, &lhs, &rhs, src, Ghost(st))
}

fn choose_branch(cond: &Abs, yes: &Abs, no: &Abs, src: TextRange) -> (r: Abs)
    ensures
        r@ == chosen(cond@, yes@, no@, src),
{
    let taken = match cond {
        Abs::Boolean { value, .. } => {
            if *value {
                yes.clone()
            } else {
                no.clone()
            }
        },
        Abs::Multiple(items) => {
            proof {
                lemma_multiple_view(*items);
            }
            combine_abs(yes, no)
        },
        _ => combine_abs(yes, no),
    };
    let ws = witnesses_of(cond);
    assert(witnesses_view(ws@).len() == ws@.len());
    if ws.len() == 0 {
        return taken;
    }
    let pp = point(src, "the conditional expression", "the boolean value of");
    let marked = tag_witnesses(&ws, &pp);
    add_witnesses(&taken, &marked)
}

fn interp_ternary(
    ctx: &InterpCtx,
    sink: &mut DisclosureSink,
    state: &mut WalkState,
    env: &Env,
    control: &Vec<Witness>,
    n: usize,
) -> (r: Abs)
    requires
        ctx.c().ok(),
        old(state).depth <= MAX_CALL_DEPTH,
        n < ctx.c().tree().len(),
    ensures
        final(state).active@ == old(state).active@,
        final(state).depth == old(state).depth,
        (st_of(*final(sink), *final(state)), r@) == ev_ternary(
            walk_of(*ctx, *old(state)),
            st_of(*old(sink), *old(state)),
            env@,
            witnesses_view(control@),
            n as int,
        ),
    decreases MAX_CALL_DEPTH - old(state).depth, ctx.c().tree().len() - n, 5int,
{
    let t = ctx.tree();
    let src = t.range(n);
    let cond = interp_kid(ctx, sink, state, env, control, n, 0);
    let ws = witnesses_of(&cond);
    let branch_control = thread_control(&ws, control, src);
    let yes = interp_kid(ctx, sink, state, env, &branch_control, n, 1);
    let no = interp_kid(ctx, sink, state, env, &branch_control, n, 2);
    choose_branch(&cond, &yes, &no, src)
}

fn interp_member(
    ctx: &InterpCtx,
    sink: &mut DisclosureSink,
    state: &mut WalkState,
    env: &Env,
    control: &Vec<Witness>,
    n: usize,
) -> (r: Abs)
    requires
        ctx.c().ok(),
        old(state).depth <= MAX_CALL_DEPTH,
        n < ctx.c().tree().len(),
    ensures
        final(state).active@ == old(state).active@,
        final(state).depth == old(state).depth,
        (st_of(*final(sink), *final(state)), r@) == ev_member(
            walk_of(*ctx, *old(state)),
            st_of(*old(sink), *old(state)),
            env@,
            witnesses_view(control@),
            n as int,
        ),
    decreases MAX_CALL_DEPTH - old(state).depth, ctx.c().tree().len() - n, 5int,
{
    let t = ctx.tree();
    let c = ctx.ctx();
    let kids = t.children(n, Class::Expr);
    let ghost list = ints(kids@);
    assert(list.len() == kids@.len());
    if kids.len() == 0 {
        return clean_abs();
    }
    assert(list[0] == kids@[0]);
    let base = interp_kid(ctx, sink, state, env, control, n, 0);
    let index: Option<usize> = match t.child_token(n, IDENT) {
        Some(x) => field_index(&c, kids[0], t.token_text(x)),
        None => None,
    };
    if let Abs::Multiple(items) = &base {
        proof {
            lemma_multiple_view(*items);
            assert(abses_view(items@).len() == items@.len());
        }
        if let Some(i) = index {
            if i < items.len() {
                assert(abses_view(items@)[i as int] == items@[i as int]@);
                return items[i].clone();
            }
        }
    }
    sink.emit_advisory(
        t.range(n),
        "struct/tuple member projection could not be resolved; conservatively unioned",
    );
    Abs::Atomic(witnesses_of(&base))
}

fn select_index(
    sink: &mut DisclosureSink,
    base: &Abs,
    idx_ws: &Vec<Witness>,
    src: TextRange,
    Ghost(st): Ghost<St>,
) -> (r: Abs)
    requires
        st.sink == old(sink)@,
    ensures
        (St { sink: final(sink)@, ..st }, r@) == indexed(st, base@, witnesses_view(idx_ws@), src),
{
    match base {
        Abs::Single(inner) => {
            let pp = point(src, "the index", "the element selected by");
            let e = add_witnesses(inner, idx_ws);
            add_path_point(&e, &pp)
        },
        Abs::Multiple(items) => {
            proof {
                lemma_multiple_view(*items);
            }
            let ghost vs = abses_view(items@);
            let mut ws = clone_witnesses(idx_ws);
            let mut i: usize = 0;
            while i < items.len()
                invariant
                    i <= items@.len(),
                    vs == abses_view(items@),
                    witnesses_view(ws@) == merged_children(
                        vs,
                        i as int,
                        witnesses_view(idx_ws@),
                    ),
                decreases items@.len() - i,
            {
                assert(vs[i as int] == items@[i as int]@);
                let more = witnesses_of(&items[i]);
                ws = merge_witnesses(&ws, &more);
                i = i + 1;
            }
            sink.emit_advisory(
                src,
                "index into heterogeneous aggregate could not be resolved; conservatively unioned",
            );
            Abs::Atomic(ws)
        },
        _ => {
            let ws = witnesses_of(base);
            Abs::Atomic(merge_witnesses(&ws, idx_ws))
        },
    }
}

fn interp_index(
    ctx: &InterpCtx,
    sink: &mut DisclosureSink,
    state: &mut WalkState,
    env: &Env,
    control: &Vec<Witness>,
    n: usize,
) -> (r: Abs)
    requires
        ctx.c().ok(),
        old(state).depth <= MAX_CALL_DEPTH,
        n < ctx.c().tree().len(),
    ensures
        final(state).active@ == old(state).active@,
        final(state).depth == old(state).depth,
        (st_of(*final(sink), *final(state)), r@) == ev_index(
            walk_of(*ctx, *old(state)),
            st_of(*old(sink), *old(state)),
            env@,
            witnesses_view(control@),
            n as int,
        ),
    decreases MAX_CALL_DEPTH - old(state).depth, ctx.c().tree().len() - n, 5int,
{
    let t = ctx.tree();
    let base = interp_kid(ctx, sink, state, env, control, n, 0);
    let index = interp_kid(ctx, sink, state, env, control, n, 1);
    let ws = witnesses_of(&index);
    let ghost st = st_of(*sink, *state);
    select_index(sink, &base, &ws, t.range(n), Ghost(st))
}

/// A list of field initializers as values.
pub open spec fn inits_view(s: Seq<(Option<String>, Abs)>) -> Seq<(Option<Seq<char>>, AbsView)> {
    s.map_values(|p: (Option<String>, Abs)| (otext(p.0), p.1@))
}

fn interp_field_inits(
    ctx: &InterpCtx,
    sink: &mut DisclosureSink,
    state: &mut WalkState,
    env: &Env,
    control: &Vec<Witness>,
    kids: &Vec<usize>,
    after: usize,
) -> (r: Vec<(Option<String>, Abs)>)
    requires
        ctx.c().ok(),
        old(state).depth <= MAX_CALL_DEPTH,
        after < ctx.c().tree().len(),
        forall|k: int|
            #![trigger kids@[k]]
            0 <= k < kids@.len() ==> after < kids@[k] < ctx.c().tree().len(),
    ensures
        final(state).active@ == old(state).active@,
        final(state).depth == old(state).depth,
        (st_of(*final(sink), *final(state)), inits_view(r@)) == ev_inits(
            walk_of(*ctx, *old(state)),
            st_of(*old(sink), *old(state)),
            env@,
            witnesses_view(control@),
            ints(kids@),
            0,
            after as int,
        ),
    decreases MAX_CALL_DEPTH - old(state).depth, ctx.c().tree().len() - after, 3int,
{
    let t = ctx.tree();
    let ghost w = walk_of(*ctx, *state);
    let ghost cv = witnesses_view(control@);
    let ghost list = ints(kids@);
    let ghost whole = ev_inits(w, st_of(*sink, *state), env@, cv, list, 0, after as int);
    let mut out: Vec<(Option<String>, Abs)> = Vec::new();
    let mut k: usize = 0;
    assert(inits_view(out@) + whole.1 =~= whole.1);
    while k < kids.len()
        invariant
            ctx.c().ok(),
            old(state).depth <= MAX_CALL_DEPTH,
            state.active@ == old(state).active@,
            state.depth == old(state).depth,
            w == walk_of(*ctx, *old(state)),
            t@ == w.t(),
            cv == witnesses_view(control@),
            after < t@.len(),
            forall|k: int| #![trigger kids@[k]] 0 <= k < kids@.len() ==> after < kids@[k] < t@.len(),
            list == ints(kids@),
            k <= kids@.len(),
            ev_inits(w, st_of(*sink, *state), env@, cv, list, k as int, after as int).0 == whole.0,
            inits_view(out@) + ev_inits(
                w,
                st_of(*sink, *state),
                env@,
                cv,
                list,
                k as int,
                after as int,
            ).1 == whole.1,
        decreases kids@.len() - k,
    {
        assert(list[k as int] == kids@[k as int]);
        let ghost before = inits_view(out@);
        let name: Option<String> = match t.child_token(kids[k], IDENT) {
            Some(x) => Some(t.token_text(x).to_owned()),
            None => None,
        };
        let a = interp_kid(ctx, sink, state, env, control, kids[k], 0);
        let ghost own = (otext(name), a@);
        let ghost rest = ev_inits(
            w,
            st_of(*sink, *state),
            env@,
            cv,
            list,
            k + 1,
            after as int,
        ).1;
        out.push((name, a));
        assert(inits_view(out@) =~= before.push(own));
        assert(before + (seq![own] + rest) =~= before.push(own) + rest);
        k = k + 1;
    }
    assert(inits_view(out@) + Seq::<(Option<Seq<char>>, AbsView)>::empty() =~= inits_view(out@));
    out
}

fn find_init(inits: &Vec<(Option<String>, Abs)>, name: &str) -> (r: Abs)
    ensures
        r@ == init_for(inits_view(inits@), 0, name@),
{
    let ghost list = inits_view(inits@);
    let mut k: usize = 0;
    while k < inits.len()
        invariant
            k <= inits@.len(),
            list == inits_view(inits@),
            init_for(list, 0, name@) == init_for(list, k as int, name@),
        decreases inits@.len() - k,
    {
        assert(list[k as int] == (otext(inits@[k as int].0), inits@[k as int].1@));
        if let Some(n) = &inits[k].0 {
            if same_text(n, name) {
                return inits[k].1.clone();
            }
        }
        k = k + 1;
    }
    clean_abs()
}

fn build_struct(
    sink: &mut DisclosureSink,
    declared: &TyKind,
    inits: &Vec<(Option<String>, Abs)>,
    src: TextRange,
    Ghost(st): Ghost<St>,
) -> (r: Abs)
    requires
        st.sink == old(sink)@,
    ensures
        (St { sink: final(sink)@, ..st }, r@) == built(st, declared@, inits_view(inits@), src),
{
    let mut out: Vec<Abs> = Vec::new();
    if let TyKind::Struct { name, fields } = declared {
        proof {
            lemma_struct_view(*name, *fields);
        }
        let mut k: usize = 0;
        while k < fields.len()
            invariant
                k <= fields@.len(),
                out@.len() == k,
                forall|j: int|
                    0 <= j < k ==> (#[trigger] out@[j])@ == init_for(
                        inits_view(inits@),
                        0,
                        fields@[j].0@,
                    ),
            decreases fields@.len() - k,
        {
            let a = find_init(inits, &fields[k].0);
            out.push(a);
            k = k + 1;
        }
        proof {
            lemma_multiple_view(out);
            let vs = fields_view(fields@);
            assert(abses_view(out@) =~= vs.map_values(
                |f: (Seq<char>, TyView)| init_for(inits_view(inits@), 0, f.0),
            ));
        }
        return Abs::Multiple(out);
    }
    sink.emit_advisory(
        src,
        "struct literal type could not be resolved; fields kept in source order",
    );
    let mut k: usize = 0;
    while k < inits.len()
        invariant
            k <= inits@.len(),
            out@.len() == k,
            forall|j: int| 0 <= j < k ==> (#[trigger] out@[j])@ == inits@[j].1@,
        decreases inits@.len() - k,
    {
        out.push(inits[k].1.clone());
        k = k + 1;
    }
    proof {
        lemma_multiple_view(out);
        assert(abses_view(out@) =~= inits_view(inits@).map_values(
            |p: (Option<Seq<char>>, AbsView)| p.1,
        ));
    }
    Abs::Multiple(out)
}

fn interp_struct_literal(
    ctx: &InterpCtx,
    sink: &mut DisclosureSink,
    state: &mut WalkState,
    env: &Env,
    control: &Vec<Witness>,
    n: usize,
) -> (r: Abs)
    requires
        ctx.c().ok(),
        old(state).depth <= MAX_CALL_DEPTH,
        n < ctx.c().tree().len(),
    ensures
        final(state).active@ == old(state).active@,
        final(state).depth == old(state).depth,
        (st_of(*final(sink), *final(state)), r@) == ev_struct(
            walk_of(*ctx, *old(state)),
            st_of(*old(sink), *old(state)),
            env@,
            witnesses_view(control@),
            n as int,
        ),
    decreases MAX_CALL_DEPTH - old(state).depth, ctx.c().tree().len() - n, 5int,
{
    let t = ctx.tree();
    let c = ctx.ctx();
    if t.child(n, Class::Kind(STRUCT_UPDATE)).is_some() {
        return fail_closed_expr(
            ctx,
            sink,
            state,
            env,
            control,
            n,
            "struct-update (spread) construction not modeled",
        );
    }
    let kids = t.children(n, Class::Kind(STRUCT_FIELD_INIT));
    let inits = interp_field_inits(ctx, sink, state, env, control, &kids, n);
    let declared = match t.child_token(n, IDENT) {
        Some(x) => named_type_ty(&c, t.range(x).start),
        None => TyKind::Unknown,
    };
    let ghost st = st_of(*sink, *state);
    build_struct(sink, &declared, &inits, t.range(n), Ghost(st))
}

fn interp_map_unrolled(
    ctx: &InterpCtx,
    sink: &mut DisclosureSink,
    state: &mut WalkState,
    env: &Env,
    control: &Vec<Witness>,
    body: usize,
    params: &Vec<Option<String>>,
    seqs: &Vec<Abs>,
    len: usize,
) -> (r: Vec<Abs>)
    requires
        ctx.c().ok(),
        old(state).depth <= MAX_CALL_DEPTH,
        body < ctx.c().tree().len(),
    ensures
        final(state).active@ == old(state).active@,
        final(state).depth == old(state).depth,
        (st_of(*final(sink), *final(state)), abses_view(r@)) == map_unrolled(
            walk_of(*ctx, *old(state)),
            st_of(*old(sink), *old(state)),
            env@,
            witnesses_view(control@),
            body as int,
            onames(params@),
            abses_view(seqs@),
            0,
            len as int,
        ),
    decreases MAX_CALL_DEPTH - old(state).depth, ctx.c().tree().len() - body, 50int,
{
    let t = ctx.tree();
    let ghost w = walk_of(*ctx, *state);
    let ghost cv = witnesses_view(control@);
    let ghost ps = onames(params@);
    let ghost vs = abses_view(seqs@);
    let ghost whole = map_unrolled(
        w,
        st_of(*sink, *state),
        env@,
        cv,
        body as int,
        ps,
        vs,
        0,
        len as int,
    );
    let mut out: Vec<Abs> = Vec::new();
    let mut i: usize = 0;
    assert(abses_view(out@) + whole.1 =~= whole.1);
    while i < len
        invariant
            ctx.c().ok(),
            old(state).depth <= MAX_CALL_DEPTH,
            state.active@ == old(state).active@,
            state.depth == old(state).depth,
            w == walk_of(*ctx, *old(state)),
            t@ == w.t(),
            cv == witnesses_view(control@),
            body < t@.len(),
            i <= len,
            ps == onames(params@),
            vs == abses_view(seqs@),
            map_unrolled(
                w,
                st_of(*sink, *state),
                env@,
                cv,
                body as int,
                ps,
                vs,
                i as int,
                len as int,
            ).0 == whole.0,
            abses_view(out@) + map_unrolled(
                w,
                st_of(*sink, *state),
                env@,
                cv,
                body as int,
                ps,
                vs,
                i as int,
                len as int,
            ).1 == whole.1,
        decreases len - i,
    {
        let ghost before = abses_view(out@);
        let mut vals: Vec<Abs> = Vec::new();
        push_elements_at(seqs, i, &mut vals);
        assert(abses_view(vals@) =~= elements_at(vs, i as int));
        let scope = bind_lambda_env(env, params, &vals);
        let a = interp_expr(ctx, sink, state, &scope, control, body);
        let ghost own = a@;
        let ghost rest = map_unrolled(
            w,
            st_of(*sink, *state),
            env@,
            cv,
            body as int,
            ps,
            vs,
            i + 1,
            len as int,
        ).1;
        out.push(a);
        assert(abses_view(out@) =~= before.push(own));
        assert(before + (seq![own] + rest) =~= before.push(own) + rest);
        i = i + 1;
    }
    assert(abses_view(out@) + Seq::<AbsView>::empty() =~= abses_view(out@));
    out
}

fn interp_map(
    ctx: &InterpCtx,
    sink: &mut DisclosureSink,
    state: &mut WalkState,
    env: &Env,
    control: &Vec<Witness>,
    n: usize,
) -> (r: Abs)
    requires
        ctx.c().ok(),
        old(state).depth <= MAX_CALL_DEPTH,
        n < ctx.c().tree().len(),
    ensures
        final(state).active@ == old(state).active@,
        final(state).depth == old(state).depth,
        (st_of(*final(sink), *final(state)), r@) == ev_map(
            walk_of(*ctx, *old(state)),
            st_of(*old(sink), *old(state)),
            env@,
            witnesses_view(control@),
            n as int,
        ),
    decreases MAX_CALL_DEPTH - old(state).depth, ctx.c().tree().len() - n, 5int,
{
    let t = ctx.tree();
    let kids = t.children(n, Class::Expr);
    let ghost list = ints(kids@);
    assert(list.len() == kids@.len());
    if kids.len() == 0 {
        return fail_closed_expr(ctx, sink, state, env, control, n, "malformed map");
    }
    assert(list[0] == kids@[0]);
    let (lambda, body) = match lambda_parts(t, kids[0]) {
        Some(p) => p,
        None => {
            return fail_closed_expr(
                ctx,
                sink,
                state,
                env,
                control,
                n,
                "map with a non-lambda function reference not modeled",
            );
        },
    };
    if kids.len() == 1 {
        let none: Vec<Abs> = Vec::new();
        proof {
            lemma_multiple_view(none);
            assert(abses_view(none@) =~= Seq::<AbsView>::empty());
        }
        return Abs::Multiple(none);
    }
    let params = lambda_param_names(t, lambda);
    let seqs = interp_list(ctx, sink, state, env, control, &kids, 1, n);
    match unroll_len(&seqs) {
        Some(len) => {
            let out = interp_map_unrolled(
                ctx,
                sink,
                state,
                env,
                control,
                body,
                &params,
                &seqs,
                len,
            );
            proof {
                lemma_multiple_view(out);
            }
            Abs::Multiple(out)
        },
        None => {
            let elems = element_abses(&seqs);
            let scope = bind_lambda_env(env, &params, &elems);
            let a = interp_expr(ctx, sink, state, &scope, control, body);
            Abs::Single(Box::new(a))
        },
    }
}

fn interp_fold_unrolled(
    ctx: &InterpCtx,
    sink: &mut DisclosureSink,
    state: &mut WalkState,
    env: &Env,
    control: &Vec<Witness>,
    body: usize,
    params: &Vec<Option<String>>,
    seqs: &Vec<Abs>,
    len: usize,
    init: Abs,
) -> (r: Abs)
    requires
        ctx.c().ok(),
        old(state).depth <= MAX_CALL_DEPTH,
        body < ctx.c().tree().len(),
    ensures
        final(state).active@ == old(state).active@,
        final(state).depth == old(state).depth,
        (st_of(*final(sink), *final(state)), r@) == fold_unrolled(
            walk_of(*ctx, *old(state)),
            st_of(*old(sink), *old(state)),
            env@,
            witnesses_view(control@),
            body as int,
            onames(params@),
            abses_view(seqs@),
            0,
            len as int,
            init@,
        ),
    decreases MAX_CALL_DEPTH - old(state).depth, ctx.c().tree().len() - body, 50int,
{
    let t = ctx.tree();
    let ghost w = walk_of(*ctx, *state);
    let ghost cv = witnesses_view(control@);
    let ghost ps = onames(params@);
    let ghost vs = abses_view(seqs@);
    let ghost whole = fold_unrolled(
        w,
        st_of(*sink, *state),
        env@,
        cv,
        body as int,
        ps,
        vs,
        0,
        len as int,
        init@,
    );
    let mut acc = init;
    let mut i: usize = 0;
    while i < len
        invariant
            ctx.c().ok(),
            old(state).depth <= MAX_CALL_DEPTH,
            state.active@ == old(state).active@,
            state.depth == old(state).depth,
            w == walk_of(*ctx, *old(state)),
            t@ == w.t(),
            cv == witnesses_view(control@),
            body < t@.len(),
            i <= len,
            ps == onames(params@),
            vs == abses_view(seqs@),
            fold_unrolled(
                w,
                st_of(*sink, *state),
                env@,
                cv,
                body as int,
                ps,
                vs,
                i as int,
                len as int,
                acc@,
            ) == whole,
        decreases len - i,
    {
        let mut vals: Vec<Abs> = Vec::new();
        let ghost first = acc@;
        vals.push(acc);
        assert(abses_view(vals@) =~= seq![first]);
        push_elements_at(seqs, i, &mut vals);
        let scope = bind_lambda_env(env, params, &vals);
        acc = interp_expr(ctx, sink, state, &scope, control, body);
        i = i + 1;
    }
    acc
}

fn interp_fold_fixed(
    ctx: &InterpCtx,
    sink: &mut DisclosureSink,
    state: &mut WalkState,
    env: &Env,
    control: &Vec<Witness>,
    body: usize,
    params: &Vec<Option<String>>,
    elems: &Vec<Abs>,
    bound: u128,
    init: Abs,
) -> (r: Abs)
    requires
        ctx.c().ok(),
        old(state).depth <= MAX_CALL_DEPTH,
        body < ctx.c().tree().len(),
    ensures
        final(state).active@ == old(state).active@,
        final(state).depth == old(state).depth,
        (st_of(*final(sink), *final(state)), r@) == fold_fixed(
            walk_of(*ctx, *old(state)),
            st_of(*old(sink), *old(state)),
            env@,
            witnesses_view(control@),
            body as int,
            onames(params@),
            abses_view(elems@),
            0,
            bound as int,
            init@,
        ),
    decreases MAX_CALL_DEPTH - old(state).depth, ctx.c().tree().len() - body, 50int,
{
    let t = ctx.tree();
    let ghost w = walk_of(*ctx, *state);
    let ghost cv = witnesses_view(control@);
    let ghost ps = onames(params@);
    let ghost vs = abses_view(elems@);
    let ghost whole = fold_fixed(
        w,
        st_of(*sink, *state),
        env@,
        cv,
        body as int,
        ps,
        vs,
        0,
        bound as int,
        init@,
    );
    let ghost first_state = st_of(*sink, *state);
    let mut acc = init;
    let mut k: u128 = 0;
    while k < bound
        invariant
            ctx.c().ok(),
            old(state).depth <= MAX_CALL_DEPTH,
            state.active@ == old(state).active@,
            state.depth == old(state).depth,
            w == walk_of(*ctx, *old(state)),
            t@ == w.t(),
            cv == witnesses_view(control@),
            body < t@.len(),
            k <= bound,
            ps == onames(params@),
            vs == abses_view(elems@),
            first_state == st_of(*old(sink), *old(state)),
            whole == fold_fixed(
                w,
                first_state,
                env@,
                cv,
                body as int,
                ps,
                vs,
                0,
                bound as int,
                init@,
            ),
            fold_fixed(
                w,
                st_of(*sink, *state),
                env@,
                cv,
                body as int,
                ps,
                vs,
                k as int,
                bound as int,
                acc@,
            ) == whole,
        decreases bound - k,
    {
        let mut vals: Vec<Abs> = Vec::new();
        vals.push(acc.clone());
        assert(abses_view(vals@) =~= seq![acc@]);
        push_copies(elems, &mut vals);
        let scope = bind_lambda_env(env, params, &vals);
        let next = interp_expr(ctx, sink, state, &scope, control, body);
        if abs_equal(&next, &acc) {
            return next;
        }
        acc = next;
        k = k + 1;
    }
    acc
}

fn interp_fold(
    ctx: &InterpCtx,
    sink: &mut DisclosureSink,
    state: &mut WalkState,
    env: &Env,
    control: &Vec<Witness>,
    n: usize,
) -> (r: Abs)
    requires
        ctx.c().ok(),
        old(state).depth <= MAX_CALL_DEPTH,
        n < ctx.c().tree().len(),
    ensures
        final(state).active@ == old(state).active@,
        final(state).depth == old(state).depth,
        (st_of(*final(sink), *final(state)), r@) == ev_fold(
            walk_of(*ctx, *old(state)),
            st_of(*old(sink), *old(state)),
            env@,
            witnesses_view(control@),
            n as int,
        ),
    decreases MAX_CALL_DEPTH - old(state).depth, ctx.c().tree().len() - n, 5int,
{
    let t = ctx.tree();
    let kids = t.children(n, Class::Expr);
    let ghost list = ints(kids@);
    assert(list.len() == kids@.len());
    if kids.len() < 2 {
        return fail_closed_expr(
            ctx,
            sink,
            state,
            env,
            control,
            n,
            "fold missing its function, init value, or sequence",
        );
    }
    if kids.len() == 2 {
        return fail_closed_expr(
            ctx,
            sink,
            state,
            env,
            control,
            n,
            "fold missing its sequence",
        );
    }
    assert(list[0] == kids@[0]);
    let (lambda, body) = match lambda_parts(t, kids[0]) {
        Some(p) => p,
        None => {
            return fail_closed_expr(
                ctx,
                sink,
                state,
                env,
                control,
                n,
                "fold with a non-lambda function reference not modeled",
            );
        },
    };
    let params = lambda_param_names(t, lambda);
    let init = interp_kid(ctx, sink, state, env, control, n, 1);
    let seqs = interp_list(ctx, sink, state, env, control, &kids, 2, n);
    match unroll_len(&seqs) {
        Some(len) => interp_fold_unrolled(
            ctx,
            sink,
            state,
            env,
            control,
            body,
            &params,
            &seqs,
            len,
            init,
        ),
        None => {
            let elems = element_abses(&seqs);
            let bound: u128 = fold_fixpoint_bound(&init, &elems);
            interp_fold_fixed(
                ctx,
                sink,
                state,
                env,
                control,
                body,
                &params,
                &elems,
                bound,
                init,
            )
        },
    }
}

fn interp_circuit_call(
    ctx: &InterpCtx,
    sink: &mut DisclosureSink,
    state: &mut WalkState,
    env: &Env,
    control: &Vec<Witness>,
    n: usize,
    callee_file: FileId,
    callee_symbol: u32,
) -> (r: Abs)
    requires
        ctx.c().ok(),
        old(state).depth <= MAX_CALL_DEPTH,
        n < ctx.c().tree().len(),
    ensures
        final(state).active@ == old(state).active@,
        final(state).depth == old(state).depth,
        (st_of(*final(sink), *final(state)), r@) == ev_circuit_call(
            walk_of(*ctx, *old(state)),
            st_of(*old(sink), *old(state)),
            env@,
            witnesses_view(control@),
            n as int,
            callee_file,
            callee_symbol,
        ),
    decreases MAX_CALL_DEPTH - old(state).depth, ctx.c().tree().len() - n, 4int,
{
    let t = ctx.tree();
    let c = ctx.ctx();
    let src = t.range(n);
    let exprs = arg_exprs(t, n);
    let args = interp_list(ctx, sink, state, env, control, &exprs, 0, n);
    assert(abses_view(args@).len() == args@.len());
    if state.depth >= MAX_CALL_DEPTH || state.is_active(callee_file, callee_symbol) {
        sink.emit_advisory(src, "recursive or deeply-nested circuit call not analyzed");
        return clean_abs();
    }
    let callee = match resolve_circuit_def(&c, callee_file, callee_symbol) {
        Some(d) => d,
        None => {
            sink.emit_advisory(
                src,
                "cross-circuit call target could not be resolved (cross-module deferred to v3b)",
            );
            return clean_abs();
        },
    };
    assert(callee@.params.len() == callee.params@.len());
    if args.len() != callee.params.len() {
        sink.emit_advisory(src, "circuit call arity mismatch not analyzed");
        return clean_abs();
    }
    if let Some(known) = state.cached(callee_file, callee_symbol, &args, control) {
        return known.clone();
    }
    let mut callee_scope = callee_environment(&callee, &args, src);
    let inner = InterpCtx {
        db: ctx.db,
        file: callee_file,
        src: ctx.src,
        fd: ctx.fd,
        ws: ctx.ws,
        disclosing_fn: None,
    };
    assert(inner.c() == (CtxView { file: callee_file, ..ctx.c() }));
    assert(callee_file == ctx.file);
    let ghost path = state.active@;
    state.active.push((callee_file, callee_symbol));
    state.depth = state.depth + 1;
    let result = interp_body_returning(
        &inner,
        sink,
        state,
        &mut callee_scope,
        control,
        callee.body,
    );
    state.depth = state.depth - 1;
    state.active.pop();
    assert(state.active@ =~= path);
    let ghost before = calls_view(state.cache@);
    let entry = CachedCall {
        file: callee_file,
        symbol: callee_symbol,
        args,
        control: clone_witnesses(control),
        result: result.clone(),
    };
    let ghost own = entry@;
    state.cache.push(entry);
    assert(calls_view(state.cache@) =~= before.push(own));
    result
}

fn interp_call(
    ctx: &InterpCtx,
    sink: &mut DisclosureSink,
    state: &mut WalkState,
    env: &Env,
    control: &Vec<Witness>,
    n: usize,
) -> (r: Abs)
    requires
        ctx.c().ok(),
        old(state).depth <= MAX_CALL_DEPTH,
        n < ctx.c().tree().len(),
    ensures
        final(state).active@ == old(state).active@,
        final(state).depth == old(state).depth,
        (st_of(*final(sink), *final(state)), r@) == ev_call(
            walk_of(*ctx, *old(state)),
            st_of(*old(sink), *old(state)),
            env@,
            witnesses_view(control@),
            n as int,
        ),
    decreases MAX_CALL_DEPTH - old(state).depth, ctx.c().tree().len() - n, 5int,
{
    let t = ctx.tree();
    let c = ctx.ctx();
    let src = t.range(n);
    match classify_callee(&c, n) {
        CalleeClass::Witness { name, ret } => {
            let anchor = match t.child_token(n, IDENT) {
                Some(x) => t.range(x),
                None => src,
            };
            let uid: u32 = sink.next_witness_uid();
            let wit = new_witness(uid, anchor, WitnessInfo::WitnessReturn { function: name });
            let seed = one_witness(wit);
            abs_of_type(sink, &ret, &seed)
        },
        CalleeClass::Circuit { file, symbol } => interp_circuit_call(
            ctx,
            sink,
            state,
            env,
            control,
            n,
            file,
            symbol,
        ),
        CalleeClass::DeferredCircuit => {
            let exprs = arg_exprs(t, n);
            let _args = interp_list(ctx, sink, state, env, control, &exprs, 0, n);
            sink.emit_advisory(src, "cross-circuit call not interpreted (v3b)");
            clean_abs()
        },
        CalleeClass::Native => {
            let exprs = arg_exprs(t, n);
            let args = interp_list(ctx, sink, state, env, control, &exprs, 0, n);
            let name: String = match t.child_token(n, IDENT) {
                Some(x) => t.token_text(x).to_owned(),
                None => String::new(),
            };
            proof {
                if child_token(t@, n as int, IDENT) is None {
                    assert(name@ =~= Seq::<char>::empty());
                }
            }
            if is_method_call(t, n) {
                let ghost st = st_of(*sink, *state);
                let ghost w = walk_of(*ctx, *old(state));
                interp_ledger_op(
                    ctx,
                    sink,
                    n,
                    control,
                    &name,
                    &args,
                    src,
                    Ghost(w),
                    Ghost(st),
                );
                clean_abs()
            } else {
                match native_conduit(&name) {
                    Some(flags) => native_conduit_result(&name, &flags, &args, src),
                    None => unknown_native_result(sink, &name, &args, src),
                }
            }
        },
    }
}

/// Evaluates expression `n` to its abstract value. A form that is not modelled
/// keeps all witnesses below it and is advised about. `control` are the
/// witnesses on which it depends whether the expression runs at all.
pub fn interp_expr(
    ctx: &InterpCtx,
    sink: &mut DisclosureSink,
    state: &mut WalkState,
    env: &Env,
    control: &Vec<Witness>,
    n: usize,
) -> (r: Abs)
    requires
        ctx.c().ok(),
        old(state).depth <= MAX_CALL_DEPTH,
        n < ctx.c().tree().len(),
    ensures
        final(state).active@ == old(state).active@,
        final(state).depth == old(state).depth,
        (st_of(*final(sink), *final(state)), r@) == ev(
            walk_of(*ctx, *old(state)),
            st_of(*old(sink), *old(state)),
            env@,
            witnesses_view(control@),
            n as int,
        ),
    decreases MAX_CALL_DEPTH - old(state).depth, ctx.c().tree().len() - n, 9int,
{
    let t = ctx.tree();
    let kind: u16 = t.kind(n);
    if kind == LITERAL_EXPR {
        match bool_literal(t, n) {
            Some(value) => Abs::Boolean { value, witnesses: no_witnesses() },
            None => clean_abs(),
        }
    } else if kind == NAME_EXPR {
        match t.child_token(n, IDENT) {
            Some(x) => match env.get(t.token_text(x)) {
                Some(a) => a.clone(),
                None => clean_abs(),
            },
            None => clean_abs(),
        }
    } else if kind == PAREN_EXPR || kind == CAST_EXPR {
        interp_kid(ctx, sink, state, env, control, n, 0)
    } else if kind == DISCLOSE_EXPR {
        let a = interp_kid(ctx, sink, state, env, control, n, 0);
        disclose(&a)
    } else if kind == DEFAULT_EXPR {
        match t.child(n, Class::Type) {
            Some(ty) => {
                let c = ctx.ctx();
                let shape = type_kind_resolved(&c, ty);
                let none = no_witnesses();
                abs_of_type(sink, &shape, &none)
            },
            None => clean_abs(),
        }
    } else if kind == BINARY_EXPR {
        interp_binary(ctx, sink, state, env, control, n)
    } else if kind == TERNARY_EXPR {
        interp_ternary(ctx, sink, state, env, control, n)
    } else if kind == CALL_EXPR {
        interp_call(ctx, sink, state, env, control, n)
    } else if kind == MEMBER_EXPR {
        interp_member(ctx, sink, state, env, control, n)
    } else if kind == INDEX_EXPR {
        interp_index(ctx, sink, state, env, control, n)
    } else if kind == STRUCT_EXPR {
        interp_struct_literal(ctx, sink, state, env, control, n)
    } else if kind == ARRAY_EXPR {
        let kids = t.children(n, Class::Expr);
        let acc = interp_array(ctx, sink, state, env, control, &kids, n);
        match acc {
            Some(a) => Abs::Single(Box::new(a)),
            None => Abs::Single(Box::new(clean_abs())),
        }
    } else if kind == BYTES_EXPR {
        let kids = t.children(n, Class::Expr);
        Abs::Atomic(interp_union(ctx, sink, state, env, control, &kids, n))
    } else if kind == MAP_EXPR {
        interp_map(ctx, sink, state, env, control, n)
    } else if kind == FOLD_EXPR {
        interp_fold(ctx, sink, state, env, control, n)
    } else if kind == SLICE_EXPR {
        fail_closed_expr(ctx, sink, state, env, control, n, "slice projection not modeled")
    } else if kind == PAD_EXPR {
        fail_closed_expr(ctx, sink, state, env, control, n, "pad not modeled")
    } else if kind == SPREAD_EXPR {
        fail_closed_expr(ctx, sink, state, env, control, n, "spread not modeled")
    } else if kind == UNARY_EXPR {
        fail_closed_expr(ctx, sink, state, env, control, n, "unary operator not modeled")
    } else if kind == LAMBDA_EXPR {
        fail_closed_expr(ctx, sink, state, env, control, n, "lambda not modeled")
    } else {
        clean_abs()
    }
}

// ---------------------------------------------------------------------------
// Statements
// ---------------------------------------------------------------------------

fn interp_block(
    ctx: &InterpCtx,
    sink: &mut DisclosureSink,
    state: &mut WalkState,
    env: &mut Env,
    control: &Vec<Witness>,
    kids: &Vec<usize>,
    after: usize,
)
    requires
        ctx.c().ok(),
        old(state).depth <= MAX_CALL_DEPTH,
        after < ctx.c().tree().len(),
        forall|k: int|
            #![trigger kids@[k]]
            0 <= k < kids@.len() ==> after < kids@[k] < ctx.c().tree().len(),
    ensures
        final(state).active@ == old(state).active@,
        final(state).depth == old(state).depth,
        (st_of(*final(sink), *final(state)), final(env)@) == run_block(
            walk_of(*ctx, *old(state)),
            st_of(*old(sink), *old(state)),
            old(env)@,
            witnesses_view(control@),
            ints(kids@),
            0,
            after as int,
        ),
    decreases MAX_CALL_DEPTH - old(state).depth, ctx.c().tree().len() - after, 3int,
{
    let t = ctx.tree();
    let ghost w = walk_of(*ctx, *state);
    let ghost cv = witnesses_view(control@);
    let ghost list = ints(kids@);
    let ghost whole = run_block(w, st_of(*sink, *state), env@, cv, list, 0, after as int);
    let mut k: usize = 0;
    while k < kids.len()
        invariant
            ctx.c().ok(),
            old(state).depth <= MAX_CALL_DEPTH,
            state.active@ == old(state).active@,
            state.depth == old(state).depth,
            w == walk_of(*ctx, *old(state)),
            t@ == w.t(),
            cv == witnesses_view(control@),
            after < t@.len(),
            forall|k: int| #![trigger kids@[k]] 0 <= k < kids@.len() ==> after < kids@[k] < t@.len(),
            list == ints(kids@),
            k <= kids@.len(),
            run_block(w, st_of(*sink, *state), env@, cv, list, k as int, after as int) == whole,
        decreases kids@.len() - k,
    {
        assert(list[k as int] == kids@[k as int]);
        interp_stmt(ctx, sink, state, env, control, kids[k]);
        k = k + 1;
    }
}

fn interp_if(
    ctx: &InterpCtx,
    sink: &mut DisclosureSink,
    state: &mut WalkState,
    env: &Env,
    control: &Vec<Witness>,
    kids: &Vec<usize>,
    after: usize,
)
    requires
        ctx.c().ok(),
        old(state).depth <= MAX_CALL_DEPTH,
        after < ctx.c().tree().len(),
        forall|k: int|
            #![trigger kids@[k]]
            0 <= k < kids@.len() ==> after < kids@[k] < ctx.c().tree().len(),
    ensures
        final(state).active@ == old(state).active@,
        final(state).depth == old(state).depth,
        st_of(*final(sink), *final(state)) == run_if(
            walk_of(*ctx, *old(state)),
            st_of(*old(sink), *old(state)),
            env@,
            witnesses_view(control@),
            ints(kids@),
            0,
            after as int,
            witnesses_view(control@),
        ),
    decreases MAX_CALL_DEPTH - old(state).depth, ctx.c().tree().len() - after, 3int,
{
    let t = ctx.tree();
    let ghost w = walk_of(*ctx, *state);
    let ghost cv = witnesses_view(control@);
    let ghost list = ints(kids@);
    let ghost whole = run_if(w, st_of(*sink, *state), env@, cv, list, 0, after as int, cv);
    let mut branch_control = clone_witnesses(control);
    let mut k: usize = 0;
    while k < kids.len()
        invariant
            ctx.c().ok(),
            old(state).depth <= MAX_CALL_DEPTH,
            state.active@ == old(state).active@,
            state.depth == old(state).depth,
            w == walk_of(*ctx, *old(state)),
            t@ == w.t(),
            cv == witnesses_view(control@),
            after < t@.len(),
            forall|k: int| #![trigger kids@[k]] 0 <= k < kids@.len() ==> after < kids@[k] < t@.len(),
            list == ints(kids@),
            k <= kids@.len(),
            run_if(
                w,
                st_of(*sink, *state),
                env@,
                cv,
                list,
                k as int,
                after as int,
                witnesses_view(branch_control@),
            ) == whole,
        decreases kids@.len() - k,
    {
        let part: usize = kids[k];
        assert(list[k as int] == part);
        if is_in_class(Class::Expr, t.kind(part)) {
            let cond = interp_expr(ctx, sink, state, env, control, part);
            let ws = witnesses_of(&cond);
            branch_control = thread_control(&ws, control, t.range(after));
        } else if is_in_class(Class::Stmt, t.kind(part)) {
            let mut scope = env.clone();
            interp_stmt(ctx, sink, state, &mut scope, &branch_control, part);
        }
        k = k + 1;
    }
}

fn record_assignment(
    ctx: &InterpCtx,
    sink: &mut DisclosureSink,
    control: &Vec<Witness>,
    n: usize,
    target: usize,
    value: usize,
    val: &Abs,
    Ghost(w): Ghost<Walk>,
    Ghost(st): Ghost<St>,
)
    requires
        ctx.c().ok(),
        w.c == ctx.c(),
        n < w.t().len(),
        target < w.t().len(),
        value < w.t().len(),
        st.sink == old(sink)@,
    ensures
        (St { sink: final(sink)@, ..st }) == assigned(
            w,
            st,
            witnesses_view(control@),
            n as int,
            target as int,
            value as int,
            val@,
        ),
{
    let t = ctx.tree();
    let c = ctx.ctx();
    if is_ledger_field(&c, target) {
        let ws = witnesses_of(val);
        sink.record_leak(trimmed_range(t, value), "ledger operation", ws);
        sink.record_leak(
            t.range(n),
            "performing this ledger operation",
            clone_witnesses(control),
        );
    }
}

fn record_return(
    ctx: &InterpCtx,
    sink: &mut DisclosureSink,
    state: &mut WalkState,
    control: &Vec<Witness>,
    n: usize,
    value: usize,
    val: &Abs,
)
    requires
        ctx.c().ok(),
        n < ctx.c().tree().len(),
        value < ctx.c().tree().len(),
    ensures
        final(state).active@ == old(state).active@,
        final(state).depth == old(state).depth,
        st_of(*final(sink), *final(state)) == returned(
            walk_of(*ctx, *old(state)),
            st_of(*old(sink), *old(state)),
            witnesses_view(control@),
            n as int,
            value as int,
            val@,
        ),
{
    let t = ctx.tree();
    let ws = witnesses_of(val);
    state.ret_ws = merge_witnesses(&state.ret_ws, &ws);
    if let Some(name) = ctx.disclosing_fn {
        let data = cat2("the value returned from exported circuit ", name);
        let shown = filter_witnesses(&ws);
        sink.record_leak(trimmed_range(t, value), &data, shown);
        let flow = cat2("returning this value from exported circuit ", name);
        let gating = filter_witnesses(control);
        sink.record_leak(t.range(n), &flow, gating);
    }
}

/// Runs statement `n`: blocks in order, `const` binds, an assignment to a
/// ledger field and a return record what they leak, the condition of an `if`
/// controls its branches, and a `for` loop is walked once and advised about.
pub fn interp_stmt(
    ctx: &InterpCtx,
    sink: &mut DisclosureSink,
    state: &mut WalkState,
    env: &mut Env,
    control: &Vec<Witness>,
    n: usize,
)
    requires
        ctx.c().ok(),
        old(state).depth <= MAX_CALL_DEPTH,
        n < ctx.c().tree().len(),
    ensures
        final(state).active@ == old(state).active@,
        final(state).depth == old(state).depth,
        (st_of(*final(sink), *final(state)), final(env)@) == run(
            walk_of(*ctx, *old(state)),
            st_of(*old(sink), *old(state)),
            old(env)@,
            witnesses_view(control@),
            n as int,
        ),
    decreases MAX_CALL_DEPTH - old(state).depth, ctx.c().tree().len() - n, 9int,
{
    let t = ctx.tree();
    let kind: u16 = t.kind(n);
    if kind == BLOCK {
        let kids = t.children(n, Class::Stmt);
        interp_block(ctx, sink, state, env, control, &kids, n);
    } else if kind == CONST_STMT {
        let val = interp_kid(ctx, sink, state, env, control, n, 0);
        if let Some(p) = t.child(n, Class::Pat) {
            bind_pattern(t, sink, env, p, &val);
        }
    } else if kind == EXPR_STMT || kind == ASSERT_STMT {
        let kids = t.children(n, Class::Expr);
        let _vals = interp_list(ctx, sink, state, env, control, &kids, 0, n);
    } else if kind == ASSIGN_STMT {
        let kids = t.children(n, Class::Expr);
        let ghost list = ints(kids@);
        assert(list.len() == kids@.len());
        if kids.len() == 2 {
            assert(list[0] == kids@[0]);
            assert(list[1] == kids@[1]);
            let val = interp_kid(ctx, sink, state, env, control, n, 1);
            let ghost st = st_of(*sink, *state);
            let ghost w = walk_of(*ctx, *old(state));
            record_assignment(
                ctx,
                sink,
                control,
                n,
                kids[0],
                kids[1],
                &val,
                Ghost(w),
                Ghost(st),
            );
        } else {
            let _vals = interp_list(ctx, sink, state, env, control, &kids, 0, n);
        }
    } else if kind == RETURN_STMT {
        let kids = t.children(n, Class::Expr);
        let ghost list = ints(kids@);
        assert(list.len() == kids@.len());
        if kids.len() > 0 {
            assert(list[0] == kids@[0]);
            let val = interp_kid(ctx, sink, state, env, control, n, 0);
            record_return(ctx, sink, state, control, n, kids[0], &val);
        }
    } else if kind == IF_STMT {
        let kids = t.children(n, Class::Any);
        interp_if(ctx, sink, state, env, control, &kids, n);
    } else if kind == FOR_STMT {
        sink.emit_advisory(t.range(n), "for loop not modeled (fixpoint deferred to A7)");
        let kids = t.children(n, Class::Expr);
        let ws = interp_union(ctx, sink, state, env, control, &kids, n);
        let mut scope = env.clone();
        if let Some(x) = t.child_token(n, IDENT) {
            scope.insert(t.token_text(x).to_owned(), Abs::Atomic(ws));
        }
        if let Some(b) = t.child(n, Class::Kind(BLOCK)) {
            interp_stmt(ctx, sink, state, &mut scope, control, b);
        }
    } else if kind == MULTI_CONST_STMT {
        sink.emit_advisory(t.range(n), "multi-const statement not modeled");
        let kids = t.children(n, Class::Expr);
        let _vals = interp_list(ctx, sink, state, env, control, &kids, 0, n);
    }
}

fn interp_body_stmts(
    ctx: &InterpCtx,
    sink: &mut DisclosureSink,
    state: &mut WalkState,
    env: &mut Env,
    control: &Vec<Witness>,
    kids: &Vec<usize>,
    after: usize,
) -> (r: Option<Abs>)
    requires
        ctx.c().ok(),
        old(state).depth <= MAX_CALL_DEPTH,
        after < ctx.c().tree().len(),
        forall|k: int|
            #![trigger kids@[k]]
            0 <= k < kids@.len() ==> after < kids@[k] < ctx.c().tree().len(),
    ensures
        final(state).active@ == old(state).active@,
        final(state).depth == old(state).depth,
        (st_of(*final(sink), *final(state)), oabs(r)) == run_returning(
            walk_of(*ctx, *old(state)),
            st_of(*old(sink), *old(state)),
            old(env)@,
            witnesses_view(control@),
            ints(kids@),
            0,
            after as int,
            None,
        ),
    decreases MAX_CALL_DEPTH - old(state).depth, ctx.c().tree().len() - after, 3int,
{
    let t = ctx.tree();
    let ghost w = walk_of(*ctx, *state);
    let ghost cv = witnesses_view(control@);
    let ghost list = ints(kids@);
    let ghost whole = run_returning(
        w,
        st_of(*sink, *state),
        env@,
        cv,
        list,
        0,
        after as int,
        None,
    );
    let mut tail: Option<Abs> = None;
    let mut k: usize = 0;
    while k < kids.len()
        invariant
            ctx.c().ok(),
            old(state).depth <= MAX_CALL_DEPTH,
            state.active@ == old(state).active@,
            state.depth == old(state).depth,
            w == walk_of(*ctx, *old(state)),
            t@ == w.t(),
            cv == witnesses_view(control@),
            after < t@.len(),
            forall|k: int| #![trigger kids@[k]] 0 <= k < kids@.len() ==> after < kids@[k] < t@.len(),
            list == ints(kids@),
            k <= kids@.len(),
            run_returning(
                w,
                st_of(*sink, *state),
                env@,
                cv,
                list,
                k as int,
                after as int,
                oabs(tail),
            ) == whole,
        decreases kids@.len() - k,
    {
        let part: usize = kids[k];
        assert(list[k as int] == part);
        if t.kind(part) == RETURN_STMT {
            let val = interp_kid(ctx, sink, state, env, control, part, 0);
            let next = match &tail {
                Some(prev) => combine_abs(prev, &val),
                None => val,
            };
            tail = Some(next);
        } else {
            interp_stmt(ctx, sink, state, env, control, part);
        }
        k = k + 1;
    }
    tail
}

fn interp_body_returning(
    ctx: &InterpCtx,
    sink: &mut DisclosureSink,
    state: &mut WalkState,
    env: &mut Env,
    control: &Vec<Witness>,
    n: usize,
) -> (r: Abs)
    requires
        ctx.c().ok(),
        old(state).depth <= MAX_CALL_DEPTH,
        n < ctx.c().tree().len(),
    ensures
        final(state).active@ == old(state).active@,
        final(state).depth == old(state).depth,
        (st_of(*final(sink), *final(state)), r@) == ev_body(
            walk_of(*ctx, *old(state)),
            st_of(*old(sink), *old(state)),
            old(env)@,
            witnesses_view(control@),
            n as int,
        ),
    decreases MAX_CALL_DEPTH - old(state).depth, ctx.c().tree().len() - n, 8int,
{
    let t = ctx.tree();
    let ghost before = st_of(*sink, *state);
    let mut saved = no_witnesses();
    std::mem::swap(&mut saved, &mut state.ret_ws);
    assert(st_of(*sink, *state) == (St { ret: Seq::empty(), ..before }));
    assert(witnesses_view(saved@) == before.ret);
    let kids = t.children(n, Class::Stmt);
    let tail = interp_body_stmts(ctx, sink, state, env, control, &kids, n);
    let mut nested = saved;
    std::mem::swap(&mut nested, &mut state.ret_ws);
    let result = match tail {
        Some(a) => a,
        None => clean_abs(),
    };
    assert(witnesses_view(nested@).len() == nested@.len());
    if nested.len() == 0 {
        result
    } else {
        add_witnesses(&result, &nested)
    }
}

} // verus!
