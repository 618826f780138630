//! What the disclosure interpreter computes, as a function.
//!
//! A walk threads a state through the program: what the sink has collected,
//! which calls have been walked already, and the witnesses that were returned
//! from inside control flow. Every form of expression and statement has one
//! function here that says what it evaluates to and how it changes the state.

use vstd::prelude::*;

use crate::calls::{call_args, call_receiver};
use crate::db::{resolved, symbol_of_item, CtxView};
use crate::disclosure::abs::{
    all_witnesses, disclosed, equivalent, joined, merged, tagged, with_point, with_witnesses,
    AbsView, InfoView, PointView, WitnessView,
};
use crate::disclosure::leaks::SinkView;
use crate::disclosure::tables::{ledger_flags, native_flags, FlagsView, LedgerOpView};
use crate::infer::decl_named;
use crate::item_tree::{SymbolKind, SymbolView};
use crate::kinds::{
    in_class, Class, AMP_AMP, ARRAY_EXPR, ASSERT_STMT, ASSIGN_STMT, BANG_EQ, BINARY_EXPR, BLOCK,
    BYTES_EXPR, CALL_EXPR, CAST_EXPR, CIRCUIT_DEF, CONST_STMT, DEFAULT_EXPR, DISCLOSE_EXPR, DOT,
    EQ_EQ, EXPR_STMT, FALSE_KW, FOLD_EXPR, FOR_STMT, GT, GT_EQ, IDENT, IDENT_PAT, IF_STMT,
    INDEX_EXPR, LAMBDA_EXPR, LITERAL_EXPR, LT, LT_EQ, MAP_EXPR, MEMBER_EXPR, MINUS,
    MULTI_CONST_STMT, NAME_EXPR, PAD_EXPR, PARAM, PARAM_LIST, PAREN_EXPR, PIPE_PIPE, PLUS,
    RETURN_STMT, SLASH, SLICE_EXPR, SPREAD_EXPR, STAR, STRUCT_EXPR, STRUCT_FIELD_INIT, STRUCT_PAT,
    STRUCT_UPDATE, TERNARY_EXPR, TRUE_KW, TUPLE_PAT, TUPLE_PAT_ELT, UNARY_EXPR, WITNESS_DECL,
    trivia,
};
use crate::resolve::{pattern_tokens, DefView};
use crate::syntax::{child, child_token, children, range_of, Tree};
use crate::text::{decimal, trimmed, TextRange};
use crate::ty::TyView;
use crate::typing::{named_type, resolved_type, type_around};
use crate::vfs::FileId;

verus! {

/// How deep calls from circuit to circuit are followed.
pub const MAX_CALL_DEPTH: u32 = 256;

/// The value of an environment: what each name is bound to.
pub type EnvView = Map<Seq<char>, AbsView>;

/// A call that was walked, with what it came to.
pub struct CallView {
    pub file: FileId,
    pub symbol: u32,
    pub args: Seq<AbsView>,
    pub control: Seq<WitnessView>,
    pub result: AbsView,
}

/// The state that a walk threads through the program.
pub struct St {
    pub sink: SinkView,
    pub cache: Seq<CallView>,
    /// The witnesses of values returned from inside control flow.
    pub ret: Seq<WitnessView>,
}

/// Where a walk stands: the file, the exported circuit whose return values are
/// watched, and the circuits on the path of calls.
pub struct Walk {
    pub c: CtxView,
    pub f: Option<Seq<char>>,
    pub active: Seq<(FileId, u32)>,
    pub depth: int,
}

impl Walk {
    /// The tree of the file.
    pub open spec fn t(self) -> Tree {
        self.c.tree()
    }
}

/// A value without witnesses.
pub open spec fn clean() -> AbsView {
    AbsView::Atomic(Seq::empty())
}

impl St {
    /// The state with an advisory recorded.
    pub open spec fn advised(self, src: TextRange, reason: Seq<char>) -> St {
        St { sink: self.sink.advised(src, reason), ..self }
    }

    /// The state with a leak recorded.
    pub open spec fn leaked(self, src: TextRange, nature: Seq<char>, ws: Seq<WitnessView>) -> St {
        St { sink: self.sink.leaked(src, nature, ws), ..self }
    }
}

// ---------------------------------------------------------------------------
// Shapes of types
// ---------------------------------------------------------------------------

/// The reason given where a type is not known.
pub open spec fn unknown_type_reason() -> Seq<char> {
    "parameter type could not be resolved to a known shape (an Unknown v2b type); treated as tainted rather than silently clean"@
}

/// The value of type `ty` with `seed` at every leaf. Structs and tuples have
/// one child per field, vectors one for all elements. An unknown type is an
/// atomic value and an advisory.
pub open spec fn typed_abs(sink: SinkView, ty: TyView, seed: Seq<WitnessView>) -> (
    SinkView,
    AbsView,
)
    decreases ty, 1int, 0int,
{
    match ty {
        TyView::Struct { fields, .. } => {
            let r = typed_fields(sink, fields, 0, seed);
            (r.0, AbsView::Multiple(r.1))
        },
        TyView::Tuple(elems) => {
            let r = typed_elems(sink, elems, 0, seed);
            (r.0, AbsView::Multiple(r.1))
        },
        TyView::Vector(_, elem) => {
            let r = typed_abs(sink, *elem, seed);
            (r.0, AbsView::Single(Box::new(r.1)))
        },
        TyView::Unknown => (
            sink.advised(
                if seed.len() > 0 {
                    seed[0].src
                } else {
                    TextRange { start: 0, end: 0 }
                },
                unknown_type_reason(),
            ),
            AbsView::Atomic(seed),
        ),
        _ => (sink, AbsView::Atomic(seed)),
    }
}

/// The values of the fields from position `i` on.
pub open spec fn typed_fields(
    sink: SinkView,
    fields: Seq<(Seq<char>, TyView)>,
    i: int,
    seed: Seq<WitnessView>,
) -> (SinkView, Seq<AbsView>)
    decreases fields, 0int, fields.len() - i,
{
    if 0 <= i < fields.len() {
        let a = typed_abs(sink, fields[i].1, seed);
        let r = typed_fields(a.0, fields, i + 1, seed);
        (r.0, seq![a.1] + r.1)
    } else {
        (sink, Seq::empty())
    }
}

/// The values of the elements from position `i` on.
pub open spec fn typed_elems(sink: SinkView, elems: Seq<TyView>, i: int, seed: Seq<WitnessView>)
    -> (SinkView, Seq<AbsView>)
    decreases elems, 0int, elems.len() - i,
{
    if 0 <= i < elems.len() {
        let a = typed_abs(sink, elems[i], seed);
        let r = typed_elems(a.0, elems, i + 1, seed);
        (r.0, seq![a.1] + r.1)
    } else {
        (sink, Seq::empty())
    }
}

// ---------------------------------------------------------------------------
// Descriptions
// ---------------------------------------------------------------------------

/// The word for the `n`-th.
pub open spec fn ordinal_word(n: nat) -> Seq<char> {
    if n == 1 {
        "first"@
    } else if n == 2 {
        "second"@
    } else if n == 3 {
        "third"@
    } else if n == 4 {
        "fourth"@
    } else if n == 5 {
        "fifth"@
    } else if n == 6 {
        "sixth"@
    } else if n == 7 {
        "seventh"@
    } else if n == 8 {
        "eighth"@
    } else {
        decimal(n) + "th"@
    }
}

/// How argument `i` of a call is described; a sole argument has no ordinal.
pub open spec fn arg_words(callee: Seq<char>, i: int, count: nat) -> Seq<char> {
    if count > 1 {
        "the "@ + ordinal_word((i + 1) as nat) + " argument to "@ + callee
    } else {
        "the argument to "@ + callee
    }
}

/// The point on the trail where argument `i` is handed over.
pub open spec fn arg_point(
    src: TextRange,
    callee: Seq<char>,
    i: int,
    count: nat,
    exposure: Seq<char>,
) -> PointView {
    PointView { src, description: arg_words(callee, i, count), exposure }
}

/// The witnesses of a condition, marked as such, together with those that
/// control the branch already.
pub open spec fn threaded(cond: Seq<WitnessView>, control: Seq<WitnessView>, src: TextRange) -> Seq<
    WitnessView,
> {
    merged(
        tagged(
            cond,
            PointView {
                src,
                description: "the conditional branch"@,
                exposure: "the boolean value of"@,
            },
        ),
        control,
    )
}

/// Those witnesses that a witness function returned. Handing back its own
/// argument is no disclosure of a circuit.
pub open spec fn returned_only(ws: Seq<WitnessView>, k: int) -> Seq<WitnessView>
    decreases ws.len() - k,
{
    if 0 <= k < ws.len() {
        let rest = returned_only(ws, k + 1);
        if ws[k].info is WitnessReturn {
            seq![ws[k]] + rest
        } else {
            rest
        }
    } else {
        Seq::empty()
    }
}

// ---------------------------------------------------------------------------
// Patterns
// ---------------------------------------------------------------------------

/// The patterns of the tuple elements `kids` from position `k` on.
pub open spec fn element_patterns(t: Tree, kids: Seq<int>, k: int) -> Seq<int>
    decreases kids.len() - k,
{
    if 0 <= k < kids.len() {
        let rest = element_patterns(t, kids, k + 1);
        match child(t, kids[k], Class::Pat) {
            Some(p) => seq![p] + rest,
            None => rest,
        }
    } else {
        Seq::empty()
    }
}

/// The environment with the names at tokens `toks` from position `k` on bound
/// to `ws`.
pub open spec fn bound_names(t: Tree, env: EnvView, toks: Seq<int>, k: int, ws: Seq<WitnessView>)
    -> EnvView
    decreases toks.len() - k,
{
    if 0 <= k < toks.len() {
        bound_names(t, env.insert(t[toks[k]].text, AbsView::Atomic(ws)), toks, k + 1, ws)
    } else {
        env
    }
}

/// The environment with every name that pattern `p` binds, at whatever depth,
/// bound to `ws`.
pub open spec fn bound_alike(t: Tree, env: EnvView, p: int, ws: Seq<WitnessView>) -> EnvView {
    bound_names(t, env, pattern_tokens(t, p), 0, ws)
}

/// The sink and environment after pattern `p` is bound to `val`. One name is
/// bound exactly, a tuple element by element where the shape fits; otherwise
/// every name gets all witnesses and an advisory is recorded.
pub open spec fn bound(t: Tree, sink: SinkView, env: EnvView, p: int, val: AbsView) -> (
    SinkView,
    EnvView,
)
    decreases t.len() - p, 0int, 0int,
{
    if 0 <= p < t.len() {
        let kind = t[p].kind;
        if kind == IDENT_PAT {
            match child_token(t, p, IDENT) {
                Some(x) => (
                    sink,
                    env.insert(
                        t[x].text,
                        with_point(
                            val,
                            PointView {
                                src: range_of(t, x),
                                description: "the binding of "@ + t[x].text,
                                exposure: Seq::empty(),
                            },
                        ),
                    ),
                ),
                None => (sink, env),
            }
        } else if kind == TUPLE_PAT {
            let pats = element_patterns(t, children(t, p, Class::Kind(TUPLE_PAT_ELT)), 0);
            if val is Multiple && val->Multiple_0.len() == pats.len() {
                all_bound(t, sink, env, pats, 0, val->Multiple_0, p)
            } else {
                (
                    sink.advised(
                        range_of(t, p),
                        "tuple destructuring shape did not match value; conservatively unioned"@,
                    ),
                    bound_alike(t, env, p, all_witnesses(val)),
                )
            }
        } else if kind == STRUCT_PAT {
            (
                sink.advised(
                    range_of(t, p),
                    "struct destructuring not modeled positionally; conservatively unioned"@,
                ),
                bound_alike(t, env, p, all_witnesses(val)),
            )
        } else {
            (sink, env)
        }
    } else {
        (sink, env)
    }
}

/// The sink and environment after the patterns from position `k` on are bound
/// to the values at the same positions.
pub open spec fn all_bound(
    t: Tree,
    sink: SinkView,
    env: EnvView,
    pats: Seq<int>,
    k: int,
    vals: Seq<AbsView>,
    after: int,
) -> (SinkView, EnvView)
    decreases t.len() - after - 1, 1int, pats.len() - k,
{
    if 0 <= k < pats.len() && after < pats[k] < t.len() {
        let r = bound(t, sink, env, pats[k], vals[k]);
        all_bound(t, r.0, r.1, pats, k + 1, vals, after)
    } else {
        (sink, env)
    }
}

// ---------------------------------------------------------------------------
// Looking at the tree
// ---------------------------------------------------------------------------

/// The value of the first boolean keyword among the siblings from `i` up to
/// `end`.
pub open spec fn bool_token_from(t: Tree, i: int, end: int) -> Option<bool>
    decreases t.len() - i,
{
    if 0 <= i < end && i < t.len() && i < t[i].next <= t.len() {
        if t[i].token && t[i].kind == TRUE_KW {
            Some(true)
        } else if t[i].token && t[i].kind == FALSE_KW {
            Some(false)
        } else {
            bool_token_from(t, t[i].next, end)
        }
    } else {
        None
    }
}

/// Whether tokens of `kind` are binary operators.
pub open spec fn binary_operator(kind: u16) -> bool {
    kind == PLUS || kind == MINUS || kind == STAR || kind == SLASH || kind == EQ_EQ || kind
        == BANG_EQ || kind == LT || kind == LT_EQ || kind == GT || kind == GT_EQ || kind == AMP_AMP
        || kind == PIPE_PIPE
}

/// The first binary operator among the siblings from `i` up to `end`.
pub open spec fn operator_from(t: Tree, i: int, end: int) -> Option<u16>
    decreases t.len() - i,
{
    if 0 <= i < end && i < t.len() && i < t[i].next <= t.len() {
        if t[i].token && binary_operator(t[i].kind) {
            Some(t[i].kind)
        } else {
            operator_from(t, t[i].next, end)
        }
    } else {
        None
    }
}

/// `e` without parentheses around it.
pub open spec fn peeled(t: Tree, e: int) -> int
    decreases t.len() - e,
{
    if 0 <= e < t.len() && t[e].kind == PAREN_EXPR {
        match child(t, e, Class::Expr) {
            Some(x) => if e < x < t.len() {
                peeled(t, x)
            } else {
                e
            },
            None => e,
        }
    } else {
        e
    }
}

/// The name token at the root of a place that can be assigned to.
pub open spec fn root_name(t: Tree, e: int) -> Option<int>
    decreases t.len() - e,
{
    let p = peeled(t, e);
    if !(0 <= e <= p < t.len()) {
        None
    } else if t[p].kind == NAME_EXPR {
        child_token(t, p, IDENT)
    } else if t[p].kind == MEMBER_EXPR || t[p].kind == INDEX_EXPR {
        match child(t, p, Class::Expr) {
            Some(b) => if p < b < t.len() {
                root_name(t, b)
            } else {
                None
            },
            None => None,
        }
    } else {
        None
    }
}

/// Whether the place `e` belongs to a ledger field.
pub open spec fn writes_ledger(c: CtxView, e: int) -> bool {
    match root_name(c.tree(), e) {
        Some(x) => match resolved(c, c.tree()[x].start) {
            Some(DefView::Item { file, index }) => match symbol_of_item(c, file, index) {
                Some(sym) => sym.kind == SymbolKind::Ledger,
                None => false,
            },
            _ => false,
        },
        None => false,
    }
}

/// The last token from index `lo` up to `i` that holds more than white space.
pub open spec fn last_text_token(t: Tree, lo: int, i: int) -> Option<int>
    decreases i,
{
    if 0 <= lo < i <= t.len() {
        if t[i - 1].token && trimmed(t[i - 1].text).len() > 0 {
            Some(i - 1)
        } else {
            last_text_token(t, lo, i - 1)
        }
    } else {
        None
    }
}

/// The position of the first field at or after `k` called `name`.
pub open spec fn field_position(
    fields: Seq<(Seq<char>, TyView)>,
    k: int,
    name: Seq<char>,
) -> Option<
    int,
>
    decreases fields.len() - k,
{
    if 0 <= k < fields.len() {
        if fields[k].0 == name {
            Some(k)
        } else {
            field_position(fields, k + 1, name)
        }
    } else {
        None
    }
}

/// The position of field `name` in the struct that expression `e` is of.
pub open spec fn projected(c: CtxView, e: int, name: Seq<char>) -> Option<int> {
    let t = c.tree();
    let p = peeled(t, e);
    let offset = match last_text_token(t, p, t[p].next) {
        Some(x) => t[x].start,
        None => t[p].start,
    };
    match type_around(c, offset) {
        TyView::Struct { fields, .. } => field_position(fields, 0, name),
        _ => None,
    }
}

/// The first token from index `i` up to `end` that is no trivia.
pub open spec fn first_solid(t: Tree, i: int, end: int) -> Option<int>
    decreases end - i,
{
    if 0 <= i < end && i < t.len() {
        if t[i].token && !trivia(t[i].kind) {
            Some(i)
        } else {
            first_solid(t, i + 1, end)
        }
    } else {
        None
    }
}

/// The last token from index `lo` up to `i` that is no trivia.
pub open spec fn last_solid(t: Tree, lo: int, i: int) -> Option<int>
    decreases i,
{
    if 0 <= lo < i <= t.len() {
        if t[i - 1].token && !trivia(t[i - 1].kind) {
            Some(i - 1)
        } else {
            last_solid(t, lo, i - 1)
        }
    } else {
        None
    }
}

/// The range of element `n` without white space and comments at its ends.
pub open spec fn solid_range(t: Tree, n: int) -> TextRange {
    match (first_solid(t, n, t[n].next), last_solid(t, n, t[n].next)) {
        (Some(a), Some(b)) => TextRange { start: t[a].start, end: t[b].end },
        _ => range_of(t, n),
    }
}

/// The name that a child of a parameter list binds, where it is one name.
pub open spec fn param_child_name(t: Tree, n: int) -> Option<Seq<char>> {
    let pat = if t[n].kind == PARAM {
        child(t, n, Class::Pat)
    } else {
        Some(n)
    };
    match pat {
        Some(p) => if t[p].kind == IDENT_PAT {
            match child_token(t, p, IDENT) {
                Some(x) => Some(t[x].text),
                None => None,
            }
        } else {
            None
        },
        None => None,
    }
}

/// The names that the children `kids` of a parameter list bind, from position
/// `k` on; `None` stands for anything but one name.
pub open spec fn param_child_names(t: Tree, kids: Seq<int>, k: int) -> Seq<Option<Seq<char>>>
    decreases kids.len() - k,
{
    if 0 <= k < kids.len() {
        seq![param_child_name(t, kids[k])] + param_child_names(t, kids, k + 1)
    } else {
        Seq::empty()
    }
}

/// The parameters of lambda `n`.
pub open spec fn lambda_params(t: Tree, n: int) -> Seq<Option<Seq<char>>> {
    match child(t, n, Class::Kind(PARAM_LIST)) {
        Some(p) => param_child_names(t, children(t, p, Class::Any), 0),
        None => Seq::empty(),
    }
}

/// The body of lambda `n`, where it is an expression.
pub open spec fn lambda_body(t: Tree, n: int) -> Option<int> {
    let kids = children(t, n, Class::Expr);
    if child(t, n, Class::Kind(BLOCK)) is Some || kids.len() == 0 {
        None
    } else {
        Some(kids.last())
    }
}

/// The lambda that expression `fun` is, where its body is an expression.
pub open spec fn lambda_of(t: Tree, fun: int) -> Option<(int, int)> {
    let p = peeled(t, fun);
    if t[p].kind == LAMBDA_EXPR {
        match lambda_body(t, p) {
            Some(b) => if fun <= p < b < t.len() {
                Some((p, b))
            } else {
                None
            },
            None => None,
        }
    } else {
        None
    }
}

/// The environment with the named parameters from position `k` on bound to
/// the values at the same positions.
pub open spec fn with_params(
    env: EnvView,
    params: Seq<Option<Seq<char>>>,
    vals: Seq<AbsView>,
    k: int,
) -> EnvView
    decreases params.len() - k,
{
    if 0 <= k < params.len() && k < vals.len() {
        let next = match params[k] {
            Some(name) => env.insert(name, vals[k]),
            None => env,
        };
        with_params(next, params, vals, k + 1)
    } else {
        env
    }
}

/// The smallest number of children of those values from position `k` on that
/// have children.
pub open spec fn unroll_len_from(vals: Seq<AbsView>, k: int) -> Option<nat>
    decreases vals.len() - k,
{
    if 0 <= k < vals.len() {
        let rest = unroll_len_from(vals, k + 1);
        match vals[k] {
            AbsView::Multiple(items) => match rest {
                Some(m) => if items.len() <= m {
                    Some(items.len())
                } else {
                    Some(m)
                },
                None => Some(items.len()),
            },
            _ => rest,
        }
    } else {
        None
    }
}

/// The join of the first `n` of `items`.
pub open spec fn joined_upto(items: Seq<AbsView>, n: int) -> AbsView
    decreases n,
{
    if 0 < n <= items.len() {
        joined(joined_upto(items, n - 1), items[n - 1])
    } else {
        clean()
    }
}

/// The value that stands for every element of a sequence.
pub open spec fn element_of(seq: AbsView) -> AbsView {
    match seq {
        AbsView::Single(inner) => *inner,
        AbsView::Multiple(items) => joined_upto(items, items.len() as int),
        _ => seq,
    }
}

/// The value of element `i` of a sequence.
pub open spec fn element_at(seq: AbsView, i: int) -> AbsView {
    match seq {
        AbsView::Multiple(items) => if 0 <= i < items.len() {
            items[i]
        } else {
            clean()
        },
        AbsView::Single(inner) => *inner,
        _ => seq,
    }
}

/// The values of element `i` of each sequence.
pub open spec fn elements_at(seqs: Seq<AbsView>, i: int) -> Seq<AbsView> {
    seqs.map_values(|s: AbsView| element_at(s, i))
}

/// The values that stand for every element of each sequence.
pub open spec fn elements_of(seqs: Seq<AbsView>) -> Seq<AbsView> {
    seqs.map_values(|s: AbsView| element_of(s))
}

/// The witnesses of `init` and of the first `n` of `elems`, merged.
pub open spec fn universe_upto(init: AbsView, elems: Seq<AbsView>, n: int) -> Seq<WitnessView>
    decreases n,
{
    if 0 < n <= elems.len() {
        merged(universe_upto(init, elems, n - 1), all_witnesses(elems[n - 1]))
    } else {
        all_witnesses(init)
    }
}

/// How often the body of a fold is walked at most: once per witness that can
/// reach the accumulator, and twice more.
pub open spec fn fold_bound(init: AbsView, elems: Seq<AbsView>) -> nat {
    universe_upto(init, elems, elems.len() as int).len() + 2
}

// ---------------------------------------------------------------------------
// Callees
// ---------------------------------------------------------------------------

/// What a call goes to.
pub enum CalleeView {
    /// A witness function, with its name and return type.
    Witness { name: Seq<char>, ret: TyView },
    /// A circuit, by its place.
    Circuit { file: FileId, symbol: u32 },
    /// A circuit that cannot be walked.
    Deferred,
    /// A native operation, a method, or something else.
    Native,
}

/// What an unresolved name is called for: a native operation where it is
/// known as one, and else a circuit that cannot be walked.
pub open spec fn unresolved_class(name: Seq<char>) -> CalleeView {
    if native_flags(name) is Some {
        CalleeView::Native
    } else {
        CalleeView::Deferred
    }
}

/// The declared return type of a witness of the same file.
pub open spec fn witness_type(c: CtxView, file: FileId, sym: SymbolView) -> TyView {
    if file != c.file {
        TyView::Unknown
    } else {
        match decl_named(c.tree(), WITNESS_DECL, sym.name_range) {
            Some(n) => match child(c.tree(), n, Class::Type) {
                Some(ty) => resolved_type(c, ty),
                None => TyView::Unknown,
            },
            None => TyView::Unknown,
        }
    }
}

/// What call `n` goes to.
pub open spec fn callee_of(c: CtxView, n: int) -> CalleeView {
    let t = c.tree();
    if child_token(t, n, DOT) is Some {
        CalleeView::Native
    } else {
        match child_token(t, n, IDENT) {
            None => CalleeView::Native,
            Some(x) => match resolved(c, t[x].start) {
                Some(DefView::Item { file, index }) => match symbol_of_item(c, file, index) {
                    None => unresolved_class(t[x].text),
                    Some(sym) => if sym.kind == SymbolKind::Witness {
                        CalleeView::Witness { name: sym.name, ret: witness_type(c, file, sym) }
                    } else if sym.kind == SymbolKind::Circuit {
                        CalleeView::Circuit { file, symbol: index }
                    } else if sym.kind == SymbolKind::CircuitSig || sym.kind
                        == SymbolKind::ContractCircuit {
                        CalleeView::Deferred
                    } else {
                        CalleeView::Native
                    },
                },
                _ => unresolved_class(t[x].text),
            },
        }
    }
}

/// The name token and the type of parameter `p`, where it is one name with a
/// type.
pub open spec fn param_parts(t: Tree, p: int) -> Option<(int, int)> {
    match (child(t, p, Class::Pat), child(t, p, Class::Type)) {
        (Some(q), Some(ty)) => if t[q].kind == IDENT_PAT {
            match child_token(t, q, IDENT) {
                Some(x) => Some((x, ty)),
                None => None,
            }
        } else {
            None
        },
        _ => None,
    }
}

/// The name tokens and types of the parameters `kids` from position `k` on.
pub open spec fn params_parts(t: Tree, kids: Seq<int>, k: int) -> Seq<(int, int)>
    decreases kids.len() - k,
{
    if 0 <= k < kids.len() {
        let rest = params_parts(t, kids, k + 1);
        match param_parts(t, kids[k]) {
            Some(p) => seq![p] + rest,
            None => rest,
        }
    } else {
        Seq::empty()
    }
}

/// A circuit that can be walked.
pub struct CircuitView {
    pub name: Seq<char>,
    pub params: Seq<Seq<char>>,
    pub body: int,
}

/// The circuit with the given place, where it is in the same file and has a
/// body.
pub open spec fn circuit_def(c: CtxView, file: FileId, symbol: u32) -> Option<CircuitView> {
    let t = c.tree();
    if file != c.file || symbol >= c.syms().len() {
        None
    } else {
        let sym = c.syms()[symbol as int];
        match decl_named(t, CIRCUIT_DEF, sym.name_range) {
            Some(n) => match child(t, n, Class::Kind(BLOCK)) {
                Some(b) => Some(
                    CircuitView {
                        name: sym.name,
                        params: params_parts(t, children(t, n, Class::Kind(PARAM)), 0).map_values(
                            |p: (int, int)| t[p.0].text,
                        ),
                        body: b,
                    },
                ),
                None => None,
            },
            None => None,
        }
    }
}

/// The result of the first walked call at or after `k` to the same circuit
/// with the same arguments under the same control.
pub open spec fn cached_from(
    cache: Seq<CallView>,
    k: int,
    file: FileId,
    symbol: u32,
    args: Seq<AbsView>,
    control: Seq<WitnessView>,
) -> Option<AbsView>
    decreases cache.len() - k,
{
    if 0 <= k < cache.len() {
        let e = cache[k];
        if e.file == file && e.symbol == symbol && e.args == args && e.control == control {
            Some(e.result)
        } else {
            cached_from(cache, k + 1, file, symbol, args, control)
        }
    } else {
        None
    }
}

/// The environment of a callee: its parameters from position `k` on bound to
/// the arguments, each marked as handed over at `src`.
pub open spec fn callee_env(
    env: EnvView,
    callee: CircuitView,
    args: Seq<AbsView>,
    k: int,
    src: TextRange,
) -> EnvView
    decreases args.len() - k,
{
    if 0 <= k < args.len() && k < callee.params.len() {
        callee_env(
            env.insert(
                callee.params[k],
                with_point(args[k], arg_point(src, callee.name, k, args.len(), Seq::empty())),
            ),
            callee,
            args,
            k + 1,
            src,
        )
    } else {
        env
    }
}

/// The witnesses that flow through a native operation: for each flagged
/// argument from position `k` on, those of the argument with its exposure.
pub open spec fn conduit_from(
    name: Seq<char>,
    flags: FlagsView,
    args: Seq<AbsView>,
    k: int,
    src: TextRange,
    folded: Seq<WitnessView>,
) -> Seq<WitnessView>
    decreases flags.len() - k,
{
    if 0 <= k < flags.len() && k < args.len() {
        let next = match flags[k] {
            Some(e) => merged(
                folded,
                all_witnesses(with_point(args[k], arg_point(src, name, k, flags.len(), e))),
            ),
            None => folded,
        };
        conduit_from(name, flags, args, k + 1, src, next)
    } else {
        folded
    }
}

/// The witnesses of all arguments from position `k` on, marked as handed over.
pub open spec fn all_conduit_from(
    name: Seq<char>,
    args: Seq<AbsView>,
    k: int,
    src: TextRange,
    folded: Seq<WitnessView>,
) -> Seq<WitnessView>
    decreases args.len() - k,
{
    if 0 <= k < args.len() {
        all_conduit_from(
            name,
            args,
            k + 1,
            src,
            merged(
                folded,
                all_witnesses(
                    with_point(args[k], arg_point(src, name, k, args.len(), Seq::empty())),
                ),
            ),
        )
    } else {
        folded
    }
}

/// The state after one argument of a ledger operation has leaked.
pub open spec fn arg_leaked(
    st: St,
    op: Seq<char>,
    i: int,
    count: nat,
    exposure: Seq<char>,
    arg: AbsView,
    src: TextRange,
) -> St {
    st.leaked(
        src,
        "ledger operation"@,
        all_witnesses(with_point(arg, arg_point(src, op, i, count, exposure))),
    )
}

/// The state after all arguments from position `k` on have leaked.
pub open spec fn all_args_leaked(st: St, op: Seq<char>, args: Seq<AbsView>, k: int, src: TextRange)
    -> St
    decreases args.len() - k,
{
    if 0 <= k < args.len() {
        all_args_leaked(
            arg_leaked(st, op, k, args.len(), Seq::empty(), args[k], src),
            op,
            args,
            k + 1,
            src,
        )
    } else {
        st
    }
}

/// The state after the flagged arguments from position `k` on have leaked.
pub open spec fn flagged_args_leaked(
    st: St,
    op: Seq<char>,
    flags: FlagsView,
    args: Seq<AbsView>,
    k: int,
    src: TextRange,
) -> St
    decreases flags.len() - k,
{
    if 0 <= k < flags.len() && k < args.len() {
        let next = match flags[k] {
            Some(e) => arg_leaked(st, op, k, flags.len(), e, args[k], src),
            None => st,
        };
        flagged_args_leaked(next, op, flags, args, k + 1, src)
    } else {
        st
    }
}

/// The state after method call `n`: a ledger operation leaks what it is told
/// to and what controls it; anything else is advised about.
pub open spec fn ledger_op_done(
    w: Walk,
    st: St,
    control: Seq<WitnessView>,
    n: int,
    name: Seq<char>,
    args: Seq<AbsView>,
    src: TextRange,
) -> St {
    let on_ledger = match call_receiver(w.t(), n) {
        Some(r) => writes_ledger(w.c, r),
        None => false,
    };
    let known = ledger_flags(name);
    if !on_ledger && known is None {
        st.advised(src, "method call on a non-ledger receiver not modeled"@)
    } else {
        let st1 = st.leaked(src, "performing this ledger operation"@, control);
        match known {
            Some(LedgerOpView::AllArgsLeak) => all_args_leaked(st1, name, args, 0, src),
            Some(LedgerOpView::PerArg(flags)) => flagged_args_leaked(
                st1,
                name,
                flags,
                args,
                0,
                src,
            ),
            None => all_args_leaked(st1, name, args, 0, src).advised(
                src,
                "unknown ledger op `"@ + name
                    + "`; leaking all witness args (fail-closed, may be stale)"@,
            ),
        }
    }
}


// ---------------------------------------------------------------------------
// Expressions
// ---------------------------------------------------------------------------

/// Child expression `i` of `n`, evaluated; clean where there is none.
pub open spec fn kid(
    w: Walk,
    st: St,
    env: EnvView,
    control: Seq<WitnessView>,
    n: int,
    i: int,
) -> (St, AbsView)
    decreases MAX_CALL_DEPTH - w.depth, w.t().len() - n, 4int, 0int,
{
    let kids = children(w.t(), n, Class::Expr);
    if 0 <= i < kids.len() && n < kids[i] < w.t().len() {
        ev(w, st, env, control, kids[i])
    } else {
        (st, clean())
    }
}

/// The expressions `kids` from position `k` on, evaluated in order. All of
/// them come after `after`.
pub open spec fn ev_list(
    w: Walk,
    st: St,
    env: EnvView,
    control: Seq<WitnessView>,
    kids: Seq<int>,
    k: int,
    after: int,
) -> (St, Seq<AbsView>)
    decreases MAX_CALL_DEPTH - w.depth, w.t().len() - after, 3int, kids.len() - k,
{
    if 0 <= k < kids.len() && after < kids[k] < w.t().len() {
        let a = ev(w, st, env, control, kids[k]);
        let r = ev_list(w, a.0, env, control, kids, k + 1, after);
        (r.0, seq![a.1] + r.1)
    } else {
        (st, Seq::empty())
    }
}

/// The witnesses of the expressions `kids` from position `k` on, merged into
/// `ws`.
pub open spec fn ev_union(
    w: Walk,
    st: St,
    env: EnvView,
    control: Seq<WitnessView>,
    kids: Seq<int>,
    k: int,
    after: int,
    ws: Seq<WitnessView>,
) -> (St, Seq<WitnessView>)
    decreases MAX_CALL_DEPTH - w.depth, w.t().len() - after, 3int, kids.len() - k,
{
    if 0 <= k < kids.len() && after < kids[k] < w.t().len() {
        let a = ev(w, st, env, control, kids[k]);
        ev_union(w, a.0, env, control, kids, k + 1, after, merged(ws, all_witnesses(a.1)))
    } else {
        (st, ws)
    }
}

/// The join of the expressions `kids` from position `k` on and of `acc`.
pub open spec fn ev_join(
    w: Walk,
    st: St,
    env: EnvView,
    control: Seq<WitnessView>,
    kids: Seq<int>,
    k: int,
    after: int,
    acc: Option<AbsView>,
) -> (St, Option<AbsView>)
    decreases MAX_CALL_DEPTH - w.depth, w.t().len() - after, 3int, kids.len() - k,
{
    if 0 <= k < kids.len() && after < kids[k] < w.t().len() {
        let a = ev(w, st, env, control, kids[k]);
        let next = match acc {
            Some(prev) => joined(prev, a.1),
            None => a.1,
        };
        ev_join(w, a.0, env, control, kids, k + 1, after, Some(next))
    } else {
        (st, acc)
    }
}

/// A form that is not modelled: all witnesses below it, and an advisory.
pub open spec fn ev_unmodelled(
    w: Walk,
    st: St,
    env: EnvView,
    control: Seq<WitnessView>,
    n: int,
    reason: Seq<char>,
) -> (St, AbsView)
    decreases MAX_CALL_DEPTH - w.depth, w.t().len() - n, 4int, 0int,
{
    let r = ev_union(
        w,
        st,
        env,
        control,
        children(w.t(), n, Class::Expr),
        0,
        n,
        Seq::empty(),
    );
    (r.0.advised(range_of(w.t(), n), reason), AbsView::Atomic(r.1))
}

/// The exposure of an arithmetic operator.
pub open spec fn arithmetic_exposure(op: u16) -> Seq<char> {
    if op == PLUS {
        "the result of an addition involving"@
    } else if op == MINUS {
        "the result of a subtraction involving"@
    } else {
        "the result of a multiplication involving"@
    }
}

/// What a binary operator makes of its operands. Arithmetic joins them, a
/// comparison and a connective keep all their witnesses, and anything else is
/// advised about as well.
pub open spec fn combined(
    st: St,
    op: Option<u16>,
    lhs: AbsView,
    rhs: AbsView,
    src: TextRange,
) -> (St, AbsView) {
    let both = AbsView::Atomic(merged(all_witnesses(lhs), all_witnesses(rhs)));
    match op {
        Some(k) => if k == PLUS || k == MINUS || k == STAR {
            (
                st,
                with_point(
                    joined(lhs, rhs),
                    PointView {
                        src,
                        description: "the computation"@,
                        exposure: arithmetic_exposure(k),
                    },
                ),
            )
        } else if k == EQ_EQ || k == BANG_EQ || k == LT || k == LT_EQ || k == GT || k == GT_EQ {
            (
                st,
                with_point(
                    both,
                    PointView {
                        src,
                        description: "the comparison"@,
                        exposure: "the result of a comparison involving"@,
                    },
                ),
            )
        } else if k == AMP_AMP || k == PIPE_PIPE {
            (st, both)
        } else {
            (st.advised(src, "binary operator not modeled"@), both)
        },
        None => (st.advised(src, "binary operator not modeled"@), both),
    }
}

/// A binary expression. The right operand of a connective runs only under the
/// left one, which therefore controls it.
pub open spec fn ev_binary(w: Walk,
    st: St,
    env: EnvView,
    control: Seq<WitnessView>,
    n: int) -> (St, AbsView)
    decreases MAX_CALL_DEPTH - w.depth, w.t().len() - n, 5int, 0int,
{
    let src = range_of(w.t(), n);
    let op = operator_from(w.t(), n + 1, w.t()[n].next);
    let lhs = kid(w, st, env, control, n, 0);
    let inner = if op == Some(AMP_AMP) || op == Some(PIPE_PIPE) {
        threaded(all_witnesses(lhs.1), control, src)
    } else {
        control
    };
    let rhs = kid(w, lhs.0, env, inner, n, 1);
    combined(rhs.0, op, lhs.1, rhs.1, src)
}

/// What a conditional comes to: the branch that a constant takes, and else
/// both branches joined; the witnesses of the condition are in it as well.
pub open spec fn chosen(cond: AbsView, yes: AbsView, no: AbsView, src: TextRange) -> AbsView {
    let taken = match cond {
        AbsView::Boolean { value, .. } => if value {
            yes
        } else {
            no
        },
        _ => joined(yes, no),
    };
    if all_witnesses(cond).len() == 0 {
        taken
    } else {
        with_witnesses(
            taken,
            tagged(
                all_witnesses(cond),
                PointView {
                    src,
                    description: "the conditional expression"@,
                    exposure: "the boolean value of"@,
                },
            ),
        )
    }
}

/// A conditional expression. The condition controls both branches.
pub open spec fn ev_ternary(w: Walk,
    st: St,
    env: EnvView,
    control: Seq<WitnessView>,
    n: int) -> (St, AbsView)
    decreases MAX_CALL_DEPTH - w.depth, w.t().len() - n, 5int, 0int,
{
    let src = range_of(w.t(), n);
    let cond = kid(w, st, env, control, n, 0);
    let inner = threaded(all_witnesses(cond.1), control, src);
    let yes = kid(w, cond.0, env, inner, n, 1);
    let no = kid(w, yes.0, env, inner, n, 2);
    (no.0, chosen(cond.1, yes.1, no.1, src))
}

/// A member access: the field of a struct whose type is known, and else all
/// witnesses and an advisory.
pub open spec fn ev_member(w: Walk,
    st: St,
    env: EnvView,
    control: Seq<WitnessView>,
    n: int) -> (St, AbsView)
    decreases MAX_CALL_DEPTH - w.depth, w.t().len() - n, 5int, 0int,
{
    let t = w.t();
    let kids = children(t, n, Class::Expr);
    if kids.len() == 0 {
        (st, clean())
    } else {
        let base = kid(w, st, env, control, n, 0);
        let index = match child_token(t, n, IDENT) {
            Some(x) => projected(w.c, kids[0], t[x].text),
            None => None,
        };
        let unsure = (
            base.0.advised(
                range_of(t, n),
                "struct/tuple member projection could not be resolved; conservatively unioned"@,
            ),
            AbsView::Atomic(all_witnesses(base.1)),
        );
        match (base.1, index) {
            (AbsView::Multiple(items), Some(i)) => if 0 <= i < items.len() {
                (base.0, items[i])
            } else {
                unsure
            },
            _ => unsure,
        }
    }
}

/// What an index selects out of `base`: the element with the witnesses of the
/// index. Which child of a `Multiple` it is cannot be told.
pub open spec fn indexed(st: St, base: AbsView, index: Seq<WitnessView>, src: TextRange) -> (
    St,
    AbsView,
) {
    match base {
        AbsView::Single(inner) => (
            st,
            with_point(
                with_witnesses(*inner, index),
                PointView {
                    src,
                    description: "the index"@,
                    exposure: "the element selected by"@,
                },
            ),
        ),
        AbsView::Multiple(items) => (
            st.advised(
                src,
                "index into heterogeneous aggregate could not be resolved; conservatively unioned"@,
            ),
            AbsView::Atomic(merged_children(items, items.len() as int, index)),
        ),
        _ => (st, AbsView::Atomic(merged(all_witnesses(base), index))),
    }
}

/// The witnesses of the first `n` of `items`, merged into `ws`.
pub open spec fn merged_children(items: Seq<AbsView>, n: int, ws: Seq<WitnessView>) -> Seq<
    WitnessView,
>
    decreases n,
{
    if 0 < n <= items.len() {
        merged(merged_children(items, n - 1, ws), all_witnesses(items[n - 1]))
    } else {
        ws
    }
}

/// An index expression.
pub open spec fn ev_index(w: Walk,
    st: St,
    env: EnvView,
    control: Seq<WitnessView>,
    n: int) -> (St, AbsView)
    decreases MAX_CALL_DEPTH - w.depth, w.t().len() - n, 5int, 0int,
{
    let base = kid(w, st, env, control, n, 0);
    let index = kid(w, base.0, env, control, n, 1);
    indexed(index.0, base.1, all_witnesses(index.1), range_of(w.t(), n))
}

/// The field initializers `kids` from position `k` on, evaluated in order.
pub open spec fn ev_inits(
    w: Walk,
    st: St,
    env: EnvView,
    control: Seq<WitnessView>,
    kids: Seq<int>,
    k: int,
    after: int,
) -> (St, Seq<(Option<Seq<char>>, AbsView)>)
    decreases MAX_CALL_DEPTH - w.depth, w.t().len() - after, 3int, kids.len() - k,
{
    if 0 <= k < kids.len() && after < kids[k] < w.t().len() {
        let name = match child_token(w.t(), kids[k], IDENT) {
            Some(x) => Some(w.t()[x].text),
            None => None,
        };
        let a = kid(w, st, env, control, kids[k], 0);
        let r = ev_inits(w, a.0, env, control, kids, k + 1, after);
        (r.0, seq![(name, a.1)] + r.1)
    } else {
        (st, Seq::empty())
    }
}

/// The value of the first initializer at or after `k` for field `name`.
pub open spec fn init_for(
    inits: Seq<(Option<Seq<char>>, AbsView)>,
    k: int,
    name: Seq<char>,
) -> AbsView
    decreases inits.len() - k,
{
    if 0 <= k < inits.len() {
        if inits[k].0 == Some(name) {
            inits[k].1
        } else {
            init_for(inits, k + 1, name)
        }
    } else {
        clean()
    }
}

/// What a struct literal comes to: its initializers in the order in which the
/// fields are declared, or as written where the struct is not known.
pub open spec fn built(
    st: St,
    declared: TyView,
    inits: Seq<(Option<Seq<char>>, AbsView)>,
    src: TextRange,
) -> (St, AbsView) {
    match declared {
        TyView::Struct { fields, .. } => (
            st,
            AbsView::Multiple(
                fields.map_values(|f: (Seq<char>, TyView)| init_for(inits, 0, f.0)),
            ),
        ),
        _ => (
            st.advised(
                src,
                "struct literal type could not be resolved; fields kept in source order"@,
            ),
            AbsView::Multiple(inits.map_values(|p: (Option<Seq<char>>, AbsView)| p.1)),
        ),
    }
}

/// A struct literal.
pub open spec fn ev_struct(w: Walk,
    st: St,
    env: EnvView,
    control: Seq<WitnessView>,
    n: int) -> (St, AbsView)
    decreases MAX_CALL_DEPTH - w.depth, w.t().len() - n, 5int, 0int,
{
    let t = w.t();
    if child(t, n, Class::Kind(STRUCT_UPDATE)) is Some {
        ev_unmodelled(
            w,
            st,
            env,
            control,
            n,
            "struct-update (spread) construction not modeled"@,
        )
    } else {
        let r = ev_inits(
            w,
            st,
            env,
            control,
            children(t, n, Class::Kind(STRUCT_FIELD_INIT)),
            0,
            n,
        );
        let declared = match child_token(t, n, IDENT) {
            Some(x) => named_type(w.c, t[x].start, Seq::empty()),
            None => TyView::Unknown,
        };
        built(r.0, declared, r.1, range_of(t, n))
    }
}

/// The lambda body for each of the elements from `i` up to `len`.
pub open spec fn map_unrolled(
    w: Walk,
    st: St,
    env: EnvView,
    control: Seq<WitnessView>,
    body: int,
    params: Seq<Option<Seq<char>>>,
    seqs: Seq<AbsView>,
    i: int,
    len: int,
) -> (St, Seq<AbsView>)
    decreases MAX_CALL_DEPTH - w.depth, w.t().len() - body, 50int, len - i,
{
    if 0 <= i < len {
        let a = ev(w, st, with_params(env, params, elements_at(seqs, i), 0), control, body);
        let r = map_unrolled(w, a.0, env, control, body, params, seqs, i + 1, len);
        (r.0, seq![a.1] + r.1)
    } else {
        (st, Seq::empty())
    }
}

/// A `map`: the lambda for each element of a tuple, or once for all elements
/// of arrays.
pub open spec fn ev_map(w: Walk,
    st: St,
    env: EnvView,
    control: Seq<WitnessView>,
    n: int) -> (St, AbsView)
    decreases MAX_CALL_DEPTH - w.depth, w.t().len() - n, 5int, 0int,
{
    let t = w.t();
    let kids = children(t, n, Class::Expr);
    if kids.len() == 0 {
        ev_unmodelled(w, st, env, control, n, "malformed map"@)
    } else {
        match lambda_of(t, kids[0]) {
            None => ev_unmodelled(
                w,
                st,
                env,
                control,
                n,
                "map with a non-lambda function reference not modeled"@,
            ),
            Some((lambda, body)) => if kids.len() == 1 {
                (st, AbsView::Multiple(Seq::empty()))
            } else {
                let params = lambda_params(t, lambda);
                let seqs = ev_list(w, st, env, control, kids, 1, n);
                if !(n < body < t.len()) {
                    (seqs.0, clean())
                } else {
                    match unroll_len_from(seqs.1, 0) {
                        Some(len) => {
                            let r = map_unrolled(
                                w,
                                seqs.0,
                                env,
                                control,
                                body,
                                params,
                                seqs.1,
                                0,
                                len as int,
                            );
                            (r.0, AbsView::Multiple(r.1))
                        },
                        None => {
                            let r = ev(
                                w,
                                seqs.0,
                                with_params(env, params, elements_of(seqs.1), 0),
                                control,
                                body,
                            );
                            (r.0, AbsView::Single(Box::new(r.1)))
                        },
                    }
                }
            },
        }
    }
}

/// The accumulator after the lambda has run for the elements from `i` up to
/// `len`.
pub open spec fn fold_unrolled(
    w: Walk,
    st: St,
    env: EnvView,
    control: Seq<WitnessView>,
    body: int,
    params: Seq<Option<Seq<char>>>,
    seqs: Seq<AbsView>,
    i: int,
    len: int,
    acc: AbsView,
) -> (St, AbsView)
    decreases MAX_CALL_DEPTH - w.depth, w.t().len() - body, 50int, len - i,
{
    if 0 <= i < len {
        let a = ev(
            w,
            st,
            with_params(env, params, seq![acc] + elements_at(seqs, i), 0),
            control,
            body,
        );
        fold_unrolled(w, a.0, env, control, body, params, seqs, i + 1, len, a.1)
    } else {
        (st, acc)
    }
}

/// The accumulator after the lambda has run until nothing changes any more,
/// from step `k` up to `bound`.
pub open spec fn fold_fixed(
    w: Walk,
    st: St,
    env: EnvView,
    control: Seq<WitnessView>,
    body: int,
    params: Seq<Option<Seq<char>>>,
    elems: Seq<AbsView>,
    k: int,
    bound: int,
    acc: AbsView,
) -> (St, AbsView)
    decreases MAX_CALL_DEPTH - w.depth, w.t().len() - body, 50int, bound - k,
{
    if 0 <= k < bound {
        let a = ev(
            w,
            st,
            with_params(env, params, seq![acc] + elems, 0),
            control,
            body,
        );
        if equivalent(a.1, acc) {
            a
        } else {
            fold_fixed(w, a.0, env, control, body, params, elems, k + 1, bound, a.1)
        }
    } else {
        (st, acc)
    }
}

/// A `fold`: the lambda for each element of a tuple, or over arrays until
/// nothing changes any more.
pub open spec fn ev_fold(w: Walk,
    st: St,
    env: EnvView,
    control: Seq<WitnessView>,
    n: int) -> (St, AbsView)
    decreases MAX_CALL_DEPTH - w.depth, w.t().len() - n, 5int, 0int,
{
    let t = w.t();
    let kids = children(t, n, Class::Expr);
    if kids.len() < 2 {
        ev_unmodelled(
            w,
            st,
            env,
            control,
            n,
            "fold missing its function, init value, or sequence"@,
        )
    } else if kids.len() == 2 {
        ev_unmodelled(w, st, env, control, n, "fold missing its sequence"@)
    } else {
        match lambda_of(t, kids[0]) {
            None => ev_unmodelled(
                w,
                st,
                env,
                control,
                n,
                "fold with a non-lambda function reference not modeled"@,
            ),
            Some((lambda, body)) => {
                let params = lambda_params(t, lambda);
                let init = kid(w, st, env, control, n, 1);
                let seqs = ev_list(w, init.0, env, control, kids, 2, n);
                if !(n < body < t.len()) {
                    (seqs.0, clean())
                } else {
                    match unroll_len_from(seqs.1, 0) {
                        Some(len) => fold_unrolled(
                            w,
                            seqs.0,
                            env,
                            control,
                            body,
                            params,
                            seqs.1,
                            0,
                            len as int,
                            init.1,
                        ),
                        None => fold_fixed(
                            w,
                            seqs.0,
                            env,
                            control,
                            body,
                            params,
                            elements_of(seqs.1),
                            0,
                            fold_bound(init.1, elements_of(seqs.1)) as int,
                            init.1,
                        ),
                    }
                }
            },
        }
    }
}

/// A call of a circuit. Its body is walked with the arguments bound to its
/// parameters, unless the same call was walked before; a circuit on the path
/// of calls is not entered again.
pub open spec fn ev_circuit_call(
    w: Walk,
    st: St,
    env: EnvView,
    control: Seq<WitnessView>,
    n: int,
    file: FileId,
    symbol: u32,
) -> (St, AbsView)
    decreases MAX_CALL_DEPTH - w.depth, w.t().len() - n, 4int, 0int,
{
    let t = w.t();
    let src = range_of(t, n);
    let args = ev_list(w, st, env, control, call_args(t, n), 0, n);
    if w.depth >= MAX_CALL_DEPTH || w.active.contains((file, symbol)) {
        (args.0.advised(src, "recursive or deeply-nested circuit call not analyzed"@), clean())
    } else {
        match circuit_def(w.c, file, symbol) {
            None => (
                args.0.advised(
                    src,
                    "cross-circuit call target could not be resolved (cross-module deferred to v3b)"@,
                ),
                clean(),
            ),
            Some(callee) => if args.1.len() != callee.params.len() {
                (args.0.advised(src, "circuit call arity mismatch not analyzed"@), clean())
            } else {
                match cached_from(args.0.cache, 0, file, symbol, args.1, control) {
                    Some(a) => (args.0, a),
                    None => {
                        let inner = Walk {
                            c: CtxView { file, ..w.c },
                            f: None,
                            active: w.active.push((file, symbol)),
                            depth: w.depth + 1,
                        };
                        let r = ev_body(
                            inner,
                            args.0,
                            callee_env(Map::empty(), callee, args.1, 0, src),
                            control,
                            callee.body,
                        );
                        (
                            St {
                                cache: r.0.cache.push(
                                    CallView {
                                        file,
                                        symbol,
                                        args: args.1,
                                        control,
                                        result: r.1,
                                    },
                                ),
                                ..r.0
                            },
                            r.1,
                        )
                    },
                }
            },
        }
    }
}

/// A call: of a witness function, whose result is a new witness; of a circuit;
/// of a method; or of a native operation.
pub open spec fn ev_call(w: Walk,
    st: St,
    env: EnvView,
    control: Seq<WitnessView>,
    n: int) -> (St, AbsView)
    decreases MAX_CALL_DEPTH - w.depth, w.t().len() - n, 5int, 0int,
{
    let t = w.t();
    let src = range_of(t, n);
    let name = match child_token(t, n, IDENT) {
        Some(x) => t[x].text,
        None => Seq::empty(),
    };
    match callee_of(w.c, n) {
        CalleeView::Witness { name: function, ret } => {
            let witness = WitnessView {
                uid: st.sink.next_uid,
                src: match child_token(t, n, IDENT) {
                    Some(x) => range_of(t, x),
                    None => src,
                },
                info: InfoView::WitnessReturn { function },
                path: Seq::empty(),
            };
            let r = typed_abs(st.sink.counted(), ret, seq![witness]);
            (St { sink: r.0, ..st }, r.1)
        },
        CalleeView::Circuit { file, symbol } => ev_circuit_call(
            w,
            st,
            env,
            control,
            n,
            file,
            symbol,
        ),
        CalleeView::Deferred => {
            let args = ev_list(w, st, env, control, call_args(t, n), 0, n);
            (args.0.advised(src, "cross-circuit call not interpreted (v3b)"@), clean())
        },
        CalleeView::Native => {
            let args = ev_list(w, st, env, control, call_args(t, n), 0, n);
            if child_token(t, n, DOT) is Some {
                (ledger_op_done(w, args.0, control, n, name, args.1, src), clean())
            } else {
                match native_flags(name) {
                    Some(flags) => (
                        args.0,
                        AbsView::Atomic(
                            conduit_from(name, flags, args.1, 0, src, Seq::empty()),
                        ),
                    ),
                    None => (
                        args.0.advised(
                            src,
                            "unknown native `"@ + name
                                + "` not in the conduit table; conduit-tainting all args (fail-closed, may be stale)"@,
                        ),
                        AbsView::Atomic(all_conduit_from(name, args.1, 0, src, Seq::empty())),
                    ),
                }
            }
        },
    }
}

/// Expression `n`.
pub open spec fn ev(w: Walk,
    st: St,
    env: EnvView,
    control: Seq<WitnessView>,
    n: int) -> (St, AbsView)
    decreases MAX_CALL_DEPTH - w.depth, w.t().len() - n, 9int, 0int,
{
    let t = w.t();
    let kind = t[n].kind;
    if !(0 <= n < t.len()) {
        (st, clean())
    } else if kind == LITERAL_EXPR {
        match bool_token_from(t, n + 1, t[n].next) {
            Some(value) => (st, AbsView::Boolean { value, witnesses: Seq::empty() }),
            None => (st, clean()),
        }
    } else if kind == NAME_EXPR {
        match child_token(t, n, IDENT) {
            Some(x) => if env.contains_key(t[x].text) {
                (st, env[t[x].text])
            } else {
                (st, clean())
            },
            None => (st, clean()),
        }
    } else if kind == PAREN_EXPR || kind == CAST_EXPR {
        kid(w, st, env, control, n, 0)
    } else if kind == DISCLOSE_EXPR {
        let r = kid(w, st, env, control, n, 0);
        (r.0, disclosed(r.1))
    } else if kind == DEFAULT_EXPR {
        match child(t, n, Class::Type) {
            Some(ty) => {
                let r = typed_abs(st.sink, resolved_type(w.c, ty), Seq::empty());
                (St { sink: r.0, ..st }, r.1)
            },
            None => (st, clean()),
        }
    } else if kind == BINARY_EXPR {
        ev_binary(w, st, env, control, n)
    } else if kind == TERNARY_EXPR {
        ev_ternary(w, st, env, control, n)
    } else if kind == CALL_EXPR {
        ev_call(w, st, env, control, n)
    } else if kind == MEMBER_EXPR {
        ev_member(w, st, env, control, n)
    } else if kind == INDEX_EXPR {
        ev_index(w, st, env, control, n)
    } else if kind == STRUCT_EXPR {
        ev_struct(w, st, env, control, n)
    } else if kind == ARRAY_EXPR {
        let r = ev_join(w, st, env, control, children(t, n, Class::Expr), 0, n, None);
        (
            r.0,
            AbsView::Single(
                Box::new(
                    match r.1 {
                        Some(a) => a,
                        None => clean(),
                    },
                ),
            ),
        )
    } else if kind == BYTES_EXPR {
        let r = ev_union(
            w,
            st,
            env,
            control,
            children(t, n, Class::Expr),
            0,
            n,
            Seq::empty(),
        );
        (r.0, AbsView::Atomic(r.1))
    } else if kind == MAP_EXPR {
        ev_map(w, st, env, control, n)
    } else if kind == FOLD_EXPR {
        ev_fold(w, st, env, control, n)
    } else if kind == SLICE_EXPR {
        ev_unmodelled(w, st, env, control, n, "slice projection not modeled"@)
    } else if kind == PAD_EXPR {
        ev_unmodelled(w, st, env, control, n, "pad not modeled"@)
    } else if kind == SPREAD_EXPR {
        ev_unmodelled(w, st, env, control, n, "spread not modeled"@)
    } else if kind == UNARY_EXPR {
        ev_unmodelled(w, st, env, control, n, "unary operator not modeled"@)
    } else if kind == LAMBDA_EXPR {
        ev_unmodelled(w, st, env, control, n, "lambda not modeled"@)
    } else {
        (st, clean())
    }
}

// ---------------------------------------------------------------------------
// Statements
// ---------------------------------------------------------------------------

/// The statements `kids` from position `k` on, in order.
pub open spec fn run_block(
    w: Walk,
    st: St,
    env: EnvView,
    control: Seq<WitnessView>,
    kids: Seq<int>,
    k: int,
    after: int,
) -> (St, EnvView)
    decreases MAX_CALL_DEPTH - w.depth, w.t().len() - after, 3int, kids.len() - k,
{
    if 0 <= k < kids.len() && after < kids[k] < w.t().len() {
        let r = run(w, st, env, control, kids[k]);
        run_block(w, r.0, r.1, control, kids, k + 1, after)
    } else {
        (st, env)
    }
}

/// The parts `kids` of an `if` from position `k` on. The condition controls
/// the branches behind it; what a branch binds stays in it.
pub open spec fn run_if(
    w: Walk,
    st: St,
    env: EnvView,
    control: Seq<WitnessView>,
    kids: Seq<int>,
    k: int,
    after: int,
    inner: Seq<WitnessView>,
) -> St
    decreases MAX_CALL_DEPTH - w.depth, w.t().len() - after, 3int, kids.len() - k,
{
    let t = w.t();
    if 0 <= k < kids.len() && after < kids[k] < t.len() {
        if in_class(Class::Expr, t[kids[k]].kind) {
            let cond = ev(w, st, env, control, kids[k]);
            run_if(
                w,
                cond.0,
                env,
                control,
                kids,
                k + 1,
                after,
                threaded(all_witnesses(cond.1), control, range_of(t, after)),
            )
        } else if in_class(Class::Stmt, t[kids[k]].kind) {
            let r = run(w, st, env, inner, kids[k]);
            run_if(w, r.0, env, control, kids, k + 1, after, inner)
        } else {
            run_if(w, st, env, control, kids, k + 1, after, inner)
        }
    } else {
        st
    }
}

/// The state after a value was written to place `target`.
pub open spec fn assigned(
    w: Walk,
    st: St,
    control: Seq<WitnessView>,
    n: int,
    target: int,
    value: int,
    val: AbsView,
) -> St {
    if writes_ledger(w.c, target) {
        st.leaked(solid_range(w.t(), value), "ledger operation"@, all_witnesses(val)).leaked(
            range_of(w.t(), n),
            "performing this ledger operation"@,
            control,
        )
    } else {
        st
    }
}

/// The state after `val` was returned by statement `n`, where `value` is the
/// returned expression. An exported circuit discloses what it returns.
pub open spec fn returned(
    w: Walk,
    st: St,
    control: Seq<WitnessView>,
    n: int,
    value: int,
    val: AbsView,
) -> St {
    let st1 = St { ret: merged(st.ret, all_witnesses(val)), ..st };
    match w.f {
        Some(f) => st1.leaked(
            solid_range(w.t(), value),
            "the value returned from exported circuit "@ + f,
            returned_only(all_witnesses(val), 0),
        ).leaked(
            range_of(w.t(), n),
            "returning this value from exported circuit "@ + f,
            returned_only(control, 0),
        ),
        None => st1,
    }
}

/// Statement `n`.
pub open spec fn run(w: Walk,
    st: St,
    env: EnvView,
    control: Seq<WitnessView>,
    n: int) -> (St, EnvView)
    decreases MAX_CALL_DEPTH - w.depth, w.t().len() - n, 9int, 0int,
{
    let t = w.t();
    let kind = t[n].kind;
    let kids = children(t, n, Class::Expr);
    if !(0 <= n < t.len()) {
        (st, env)
    } else if kind == BLOCK {
        run_block(w, st, env, control, children(t, n, Class::Stmt), 0, n)
    } else if kind == CONST_STMT {
        let val = kid(w, st, env, control, n, 0);
        match child(t, n, Class::Pat) {
            Some(p) => {
                let r = bound(t, val.0.sink, env, p, val.1);
                (St { sink: r.0, ..val.0 }, r.1)
            },
            None => (val.0, env),
        }
    } else if kind == EXPR_STMT || kind == ASSERT_STMT {
        (ev_list(w, st, env, control, kids, 0, n).0, env)
    } else if kind == ASSIGN_STMT {
        if kids.len() == 2 {
            let val = kid(w, st, env, control, n, 1);
            (assigned(w, val.0, control, n, kids[0], kids[1], val.1), env)
        } else {
            (ev_list(w, st, env, control, kids, 0, n).0, env)
        }
    } else if kind == RETURN_STMT {
        if kids.len() == 0 {
            (st, env)
        } else {
            let val = kid(w, st, env, control, n, 0);
            (returned(w, val.0, control, n, kids[0], val.1), env)
        }
    } else if kind == IF_STMT {
        (run_if(w, st, env, control, children(t, n, Class::Any), 0, n, control), env)
    } else if kind == FOR_STMT {
        let st1 = st.advised(
            range_of(t, n),
            "for loop not modeled (fixpoint deferred to A7)"@,
        );
        let r = ev_union(w, st1, env, control, kids, 0, n, Seq::empty());
        let scope = match child_token(t, n, IDENT) {
            Some(x) => env.insert(t[x].text, AbsView::Atomic(r.1)),
            None => env,
        };
        match child(t, n, Class::Kind(BLOCK)) {
            Some(b) => if n < b < t.len() {
                (run(w, r.0, scope, control, b).0, env)
            } else {
                (r.0, env)
            },
            None => (r.0, env),
        }
    } else if kind == MULTI_CONST_STMT {
        let st1 = st.advised(range_of(t, n), "multi-const statement not modeled"@);
        (ev_list(w, st1, env, control, kids, 0, n).0, env)
    } else {
        (st, env)
    }
}

/// The statements `kids` of a callee's body from position `k` on, with the
/// join of what its own return statements return.
pub open spec fn run_returning(
    w: Walk,
    st: St,
    env: EnvView,
    control: Seq<WitnessView>,
    kids: Seq<int>,
    k: int,
    after: int,
    tail: Option<AbsView>,
) -> (St, Option<AbsView>)
    decreases MAX_CALL_DEPTH - w.depth, w.t().len() - after, 3int, kids.len() - k,
{
    let t = w.t();
    if 0 <= k < kids.len() && after < kids[k] < t.len() {
        if t[kids[k]].kind == RETURN_STMT {
            let val = kid(w, st, env, control, kids[k], 0);
            let next = match tail {
                Some(prev) => joined(prev, val.1),
                None => val.1,
            };
            run_returning(w, val.0, env, control, kids, k + 1, after, Some(next))
        } else {
            let r = run(w, st, env, control, kids[k]);
            run_returning(w, r.0, r.1, control, kids, k + 1, after, tail)
        }
    } else {
        (st, tail)
    }
}

/// The body of a callee: what it returns, together with the witnesses of what
/// it returns from inside control flow.
pub open spec fn ev_body(w: Walk,
    st: St,
    env: EnvView,
    control: Seq<WitnessView>,
    n: int) -> (St, AbsView)
    decreases MAX_CALL_DEPTH - w.depth, w.t().len() - n, 8int, 0int,
{
    let r = run_returning(
        w,
        St { ret: Seq::empty(), ..st },
        env,
        control,
        children(w.t(), n, Class::Stmt),
        0,
        n,
        None,
    );
    let value = match r.1 {
        Some(a) => a,
        None => clean(),
    };
    (
        St { ret: st.ret, ..r.0 },
        if r.0.ret.len() == 0 {
            value
        } else {
            with_witnesses(value, r.0.ret)
        },
    )
}

} // verus!
