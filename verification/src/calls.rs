//! The parts of a call expression.

use vstd::prelude::*;

use crate::kinds::{Class, DOT, L_PAREN};
use crate::syntax::{child_token, children, ints, oint, well_formed, SyntaxTree, Tree};

verus! {

/// Those of `kids` from position `k` on that start at or behind `start`.
pub open spec fn starting_at(t: Tree, kids: Seq<int>, k: int, start: u32) -> Seq<int>
    decreases kids.len() - k,
{
    if 0 <= k < kids.len() {
        let rest = starting_at(t, kids, k + 1, start);
        if t[kids[k]].start >= start {
            seq![kids[k]] + rest
        } else {
            rest
        }
    } else {
        Seq::empty()
    }
}

/// The arguments of call `n`: the expressions behind its opening parenthesis.
pub open spec fn call_args(t: Tree, n: int) -> Seq<int> {
    match child_token(t, n, L_PAREN) {
        Some(p) => starting_at(t, children(t, n, Class::Expr), 0, t[p].start),
        None => Seq::empty(),
    }
}

/// The first of `kids` from position `k` on that starts before `start`.
pub open spec fn starting_before(t: Tree, kids: Seq<int>, k: int, start: u32) -> Option<int>
    decreases kids.len() - k,
{
    if 0 <= k < kids.len() {
        if t[kids[k]].start < start {
            Some(kids[k])
        } else {
            starting_before(t, kids, k + 1, start)
        }
    } else {
        None
    }
}

/// The receiver of method call `n`: the expression before its opening
/// parenthesis.
pub open spec fn call_receiver(t: Tree, n: int) -> Option<int> {
    match child_token(t, n, L_PAREN) {
        Some(p) => starting_before(t, children(t, n, Class::Expr), 0, t[p].start),
        None => None,
    }
}

/// The arguments of call `n`.
pub fn arg_exprs(t: &SyntaxTree, n: usize) -> (r: Vec<usize>)
    requires
        well_formed(t@),
        n < t@.len(),
    ensures
        ints(r@) == call_args(t@, n as int),
        forall|k: int| #![trigger r@[k]] 0 <= k < r@.len() ==> n < r@[k] < t@.len(),
{
    let mut out: Vec<usize> = Vec::new();
    let p = match t.child_token(n, L_PAREN) {
        Some(p) => p,
        None => {
            assert(ints(out@) =~= Seq::<int>::empty());
            return out;
        },
    };
    let start: u32 = t.range(p).start;
    let kids = t.children(n, Class::Expr);
    let ghost list = ints(kids@);
    let ghost whole = starting_at(t@, list, 0, start);
    let mut k: usize = 0;
    assert(ints(out@) + whole =~= whole);
    while k < kids.len()
        invariant
            k <= kids@.len(),
            list == ints(kids@),
            forall|k: int| #![trigger kids@[k]] 0 <= k < kids@.len() ==> n < kids@[k] < t@.len(),
            forall|k: int| #![trigger out@[k]] 0 <= k < out@.len() ==> n < out@[k] < t@.len(),
            ints(out@) + starting_at(t@, list, k as int, start) == whole,
        decreases kids@.len() - k,
    {
        let e: usize = kids[k];
        assert(list[k as int] == e);
        if t.range(e).start >= start {
            let ghost before = ints(out@);
            let ghost rest = starting_at(t@, list, k + 1, start);
            out.push(e);
            assert(ints(out@) =~= before.push(e as int));
            assert(before + (seq![e as int] + rest) =~= before.push(e as int) + rest);
        }
        k = k + 1;
    }
    assert(ints(out@) + Seq::<int>::empty() =~= ints(out@));
    out
}

/// The receiver of method call `n`.
pub fn method_receiver(t: &SyntaxTree, n: usize) -> (r: Option<usize>)
    requires
        well_formed(t@),
        n < t@.len(),
    ensures
        oint(r) == call_receiver(t@, n as int),
        r matches Some(x) ==> n < x < t@.len(),
{
    let p = match t.child_token(n, L_PAREN) {
        Some(p) => p,
        None => {
            return None;
        },
    };
    let start: u32 = t.range(p).start;
    let kids = t.children(n, Class::Expr);
    let ghost list = ints(kids@);
    let mut k: usize = 0;
    while k < kids.len()
        invariant
            k <= kids@.len(),
            list == ints(kids@),
            forall|k: int| #![trigger kids@[k]] 0 <= k < kids@.len() ==> n < kids@[k] < t@.len(),
            call_receiver(t@, n as int) == starting_before(t@, list, k as int, start),
        decreases kids@.len() - k,
    {
        let e: usize = kids[k];
        assert(list[k as int] == e);
        if t.range(e).start < start {
            return Some(e);
        }
        k = k + 1;
    }
    None
}

/// Whether call `n` is a method call: it has a dot.
pub fn is_method_call(t: &SyntaxTree, n: usize) -> (r: bool)
    requires
        well_formed(t@),
        n < t@.len(),
    ensures
        r == (child_token(t@, n as int, DOT) is Some),
{
    t.child_token(n, DOT).is_some()
}

} // verus!
