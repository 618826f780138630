//! Laws of syntax trees.

use vstd::prelude::*;

use crate::kinds::{in_class, Class};
use crate::syntax::{
    child, child_token, child_tokens, children, close_all, closed, lemma_closed_ok,
    lemma_nodes_from, lemma_step_ok, nearest, node_from, nodes_from, opened, partial_ok, run_from,
    step, token_from, tokens_from, tree_of, well_formed, Partial, Tree, WalkView,
};

verus! {

/// Whether element `n` is `i` or one of its ancestors.
pub open spec fn encloses(t: Tree, n: int, i: int) -> bool
    decreases i,
{
    i == n || (0 <= i < t.len() && (t[i].parent matches Some(p) && 0 <= p < i && encloses(t, n, p)))
}

/// Whether elements are nested: what lies between an element and the index
/// behind its last descendant has its parent there, and a child ends no later
/// than its parent.
pub open spec fn nested(t: Tree) -> bool {
    &&& well_formed(t)
    &&& forall|k: int, j: int|
        #![trigger t[k], t[j]]
        0 <= k < j < t.len() && j < t[k].next ==> (t[j].parent matches Some(q) && k <= q < j)
    &&& forall|j: int|
        #![trigger t[j]]
        0 <= j < t.len() ==> (t[j].parent matches Some(q) ==> j < t[q].next && t[j].next
            <= t[q].next)
}

// ---------------------------------------------------------------------------
// Trees under construction
// ---------------------------------------------------------------------------

/// The index behind the last descendant so far.
spec fn reach(p: Partial, i: int) -> int {
    if p.open.contains(i) {
        p.elems.len() as int
    } else {
        p.elems[i].next
    }
}

spec fn nesting(p: Partial) -> bool {
    &&& well_formed(p.elems)
    &&& forall|a: int| #![trigger p.open[a]] 0 <= a < p.open.len() ==> 0 <= p.open[a] < p.elems.len()
    &&& forall|a: int, b: int|
        #![trigger p.open[a], p.open[b]]
        0 <= a < b < p.open.len() ==> p.open[a] < p.open[b]
    &&& forall|a: int|
        #![trigger p.open[a]]
        0 < a < p.open.len() ==> p.elems[p.open[a]].parent == Some(p.open[a - 1])
    &&& p.open.len() > 0 ==> p.elems[p.open[0]].parent is None
    &&& forall|k: int, j: int|
        #![trigger reach(p, k), p.elems[j]]
        0 <= k < j < p.elems.len() && j < reach(p, k) ==> (p.elems[j].parent matches Some(q) && k
            <= q < j)
    &&& forall|j: int|
        #![trigger p.elems[j]]
        0 <= j < p.elems.len() ==> (p.elems[j].parent matches Some(q) ==> j < reach(p, q) && reach(
            p,
            j,
        ) <= reach(p, q))
}

proof fn lemma_opened_nests(p: Partial, kind: u16, token: bool, text: Seq<char>)
    requires
        nesting(p),
    ensures
        nesting(opened(p, kind, token, text)),
{
    let q = opened(p, kind, token, text);
    let last = p.elems.len() as int;
    assert(q.open[p.open.len() as int] == last);
    assert forall|i: int| #![trigger reach(q, i)] 0 <= i < last implies reach(q, i) == (
    if p.open.contains(i) {
        last + 1
    } else {
        p.elems[i].next
    }) by {
        if p.open.contains(i) {
            let a = p.open.index_of(i);
            assert(q.open[a] == i);
        }
        if q.open.contains(i) {
            let a = q.open.index_of(i);
            assert(p.open[a] == i);
        }
    }
    assert(reach(q, last) == last + 1);
    if p.open.len() > 0 {
        let a = p.open.len() - 1;
        assert(p.open[a] == p.open.last());
        assert(0 <= p.open.last() < last);
        assert(p.open.contains(p.open.last()));
        assert(reach(q, p.open.last()) == last + 1);
    }
    assert(well_formed(q.elems)) by {
        assert forall|i: int| #![trigger q.elems[i]] 0 <= i < q.elems.len() implies {
            &&& i < q.elems[i].next <= q.elems.len()
            &&& q.elems[i].start <= q.elems[i].end
            &&& q.elems[i].parent matches Some(x) ==> 0 <= x < i
        } by {
            if i < last {
                assert(q.elems[i] == p.elems[i]);
            }
        }
    }
    assert forall|a: int| #![trigger q.open[a]] 0 <= a < q.open.len() implies 0 <= q.open[a]
        < q.elems.len() by {
        if a < p.open.len() {
            assert(q.open[a] == p.open[a]);
        }
    }
    assert forall|a: int, b: int|
        #![trigger q.open[a], q.open[b]]
        0 <= a < b < q.open.len() implies q.open[a] < q.open[b] by {
        assert(q.open[a] == p.open[a]);
        if b < p.open.len() {
            assert(q.open[b] == p.open[b]);
        }
    }
    assert forall|a: int| #![trigger q.open[a]] 0 < a < q.open.len() implies q.elems[q.open[a]].parent
        == Some(q.open[a - 1]) by {
        assert(q.open[a - 1] == p.open[a - 1]);
        if a < p.open.len() {
            assert(q.open[a] == p.open[a]);
            assert(q.elems[p.open[a]] == p.elems[p.open[a]]);
        }
    }
    if p.open.len() > 0 {
        assert(q.open[0] == p.open[0]);
        assert(q.elems[q.open[0]] == p.elems[p.open[0]]);
    }
    assert forall|k: int, j: int|
        #![trigger reach(q, k), q.elems[j]]
        0 <= k < j < q.elems.len() && j < reach(q, k) implies (q.elems[j].parent matches Some(x)
        && k <= x < j) by {
        if j < last {
            assert(q.elems[j] == p.elems[j]);
            assert(j < reach(p, k));
        } else {
            assert(p.elems[k].next <= p.elems.len());
            assert(p.open.contains(k));
            let a = p.open.index_of(k);
            let b = p.open.len() - 1;
            if a < b {
                assert(p.open[a] < p.open[b]);
            }
            assert(k <= p.open.last());
        }
    }
    assert forall|j: int| #![trigger q.elems[j]] 0 <= j < q.elems.len() implies (
    q.elems[j].parent matches Some(x) ==> j < reach(q, x) && reach(q, j) <= reach(q, x)) by {
        if j < last {
            assert(q.elems[j] == p.elems[j]);
            if let Some(x) = p.elems[j].parent {
                assert(0 <= x < j);
                assert(j < reach(p, x) && reach(p, j) <= reach(p, x));
                if p.open.contains(j) {
                    let a = p.open.index_of(j);
                    assert(a > 0);
                    assert(p.open[a - 1] == x);
                    assert(p.open.contains(x));
                }
                assert(reach(q, x) >= reach(p, x));
                assert(p.elems[j].next <= p.elems.len());
                assert(reach(q, j) <= reach(q, x));
            }
        }
    }
}

proof fn lemma_closed_nests(p: Partial)
    requires
        nesting(p),
        partial_ok(p),
    ensures
        nesting(closed(p)),
{
    if p.open.len() > 0 {
        let q = closed(p);
        let c = p.open.last();
        let top = p.open.len() - 1;
        assert(p.open[top] == c);
        assert(p.open.contains(c));
        assert forall|i: int| #![trigger reach(q, i)] 0 <= i < p.elems.len() implies reach(q, i)
            == reach(p, i) by {
            if q.open.contains(i) {
                let a = q.open.index_of(i);
                assert(p.open[a] == i);
            } else if p.open.contains(i) {
                let a = p.open.index_of(i);
                if a < top {
                    assert(q.open[a] == i);
                }
                assert(i == c);
            }
        }
        assert(well_formed(q.elems)) by {
            assert forall|i: int| #![trigger q.elems[i]] 0 <= i < q.elems.len() implies {
                &&& i < q.elems[i].next <= q.elems.len()
                &&& q.elems[i].start <= q.elems[i].end
                &&& q.elems[i].parent matches Some(x) ==> 0 <= x < i
            } by {
                assert(p.elems[i].start <= p.elems[i].end);
                assert(p.elems[c].start <= p.elems[c].end && p.elems[c].end <= p.offset);
            }
        }
        assert forall|a: int| #![trigger q.open[a]] 0 <= a < q.open.len() implies 0 <= q.open[a]
            < q.elems.len() by {
            assert(q.open[a] == p.open[a]);
        }
        assert forall|a: int, b: int|
            #![trigger q.open[a], q.open[b]]
            0 <= a < b < q.open.len() implies q.open[a] < q.open[b] by {
            assert(q.open[a] == p.open[a] && q.open[b] == p.open[b]);
        }
        assert forall|a: int| #![trigger q.open[a]] 0 < a < q.open.len() implies q.elems[q.open[a]].parent
            == Some(q.open[a - 1]) by {
            assert(q.open[a] == p.open[a] && q.open[a - 1] == p.open[a - 1]);
            assert(q.elems[p.open[a]].parent == p.elems[p.open[a]].parent);
        }
        if q.open.len() > 0 {
            assert(q.open[0] == p.open[0]);
            assert(q.elems[p.open[0]].parent == p.elems[p.open[0]].parent);
        }
        assert forall|k: int, j: int|
            #![trigger reach(q, k), q.elems[j]]
            0 <= k < j < q.elems.len() && j < reach(q, k) implies (
        q.elems[j].parent matches Some(x) && k <= x < j) by {
            assert(q.elems[j].parent == p.elems[j].parent);
            assert(j < reach(p, k));
        }
        assert forall|j: int| #![trigger q.elems[j]] 0 <= j < q.elems.len() implies (
        q.elems[j].parent matches Some(x) ==> j < reach(q, x) && reach(q, j) <= reach(q, x)) by {
            assert(q.elems[j].parent == p.elems[j].parent);
            if let Some(x) = p.elems[j].parent {
                assert(0 <= x < j);
                assert(reach(q, x) == reach(p, x) && reach(q, j) == reach(p, j));
            }
        }
    }
}

proof fn lemma_run_nests(p: Partial, events: Seq<WalkView>, i: int)
    requires
        nesting(p),
        partial_ok(p),
    ensures
        nesting(run_from(p, events, i)),
        partial_ok(run_from(p, events, i)),
    decreases events.len() - i,
{
    if 0 <= i < events.len() {
        match events[i] {
            WalkView::Enter(k) => lemma_opened_nests(p, k, false, Seq::empty()),
            WalkView::Token(k, s) => lemma_opened_nests(p, k, true, s),
            WalkView::Leave => lemma_closed_nests(p),
        }
        lemma_step_ok(p, events[i]);
        lemma_run_nests(step(p, events[i]), events, i + 1);
    }
}

proof fn lemma_close_all_nests(p: Partial)
    requires
        nesting(p),
        partial_ok(p),
    ensures
        nesting(close_all(p)),
        close_all(p).open.len() == 0,
    decreases p.open.len(),
{
    if p.open.len() > 0 {
        lemma_closed_nests(p);
        lemma_closed_ok(p);
        lemma_close_all_nests(closed(p));
    }
}

/// The elements of every tree that a walk describes are nested.
pub proof fn law_trees_are_nested(events: Seq<WalkView>)
    ensures
        nested(tree_of(events)),
{
    let start = Partial { elems: Seq::empty(), open: Seq::empty(), offset: 0 };
    lemma_run_nests(start, events, 0);
    let p = run_from(start, events, 0);
    lemma_close_all_nests(p);
    let q = close_all(p);
    let t = q.elems;
    assert forall|k: int, j: int|
        #![trigger t[k], t[j]]
        0 <= k < j < t.len() && j < t[k].next implies (t[j].parent matches Some(x) && k <= x
        < j) by {
        assert(reach(q, k) == t[k].next);
    }
    assert forall|j: int| #![trigger t[j]] 0 <= j < t.len() implies (t[j].parent matches Some(x)
        ==> j < t[x].next && t[j].next <= t[x].next) by {
        if let Some(x) = t[j].parent {
            assert(reach(q, x) == t[x].next);
            assert(reach(q, j) == t[j].next);
        }
    }
}

// ---------------------------------------------------------------------------
// Children
// ---------------------------------------------------------------------------

/// What lies inside an element ends inside it.
pub proof fn lemma_inside(t: Tree, k: int, j: int)
    requires
        nested(t),
        0 <= k <= j < t.len(),
        j < t[k].next,
    ensures
        t[j].next <= t[k].next,
        encloses(t, k, j),
    decreases j,
{
    if j > k {
        let q = t[j].parent->0;
        assert(k <= q < j);
        assert(j < t[q].next && t[j].next <= t[q].next);
        lemma_inside(t, k, q);
    }
}

/// An element lies inside each of its ancestors.
pub proof fn lemma_below(t: Tree, k: int, j: int)
    requires
        nested(t),
        encloses(t, k, j),
        0 <= k < t.len(),
        0 <= j < t.len(),
    ensures
        k <= j < t[k].next,
        t[j].next <= t[k].next,
    decreases j,
{
    if j != k {
        let p = t[j].parent->0;
        lemma_below(t, k, p);
        assert(j < t[p].next && t[j].next <= t[p].next);
    }
}

/// Behind a child comes its next sibling, or the end of the parent.
proof fn lemma_sibling(t: Tree, n: int, i: int)
    requires
        nested(t),
        0 <= n < i < t.len(),
        t[i].parent == Some(n),
        t[i].next < t[n].next,
    ensures
        t[i].next < t.len(),
        t[t[i].next].parent == Some(n),
{
    let m = t[i].next;
    assert(t[n].next <= t.len());
    assert(n < m < t[n].next);
    let q = t[m].parent->0;
    assert(n <= q < m);
    assert(m < t[q].next);
    if q != n {
        if q < i {
            assert(i < t[q].next);
            assert(q <= t[i].parent->0);
        } else if q == i {
        } else {
            assert(q < t[i].next);
            lemma_inside(t, i, q);
        }
    }
}

/// Between a child and what follows it there is no other child.
proof fn lemma_gap(t: Tree, n: int, i: int, j: int)
    requires
        nested(t),
        0 <= n < i < j < t.len(),
        t[i].parent == Some(n),
        t[j].parent == Some(n),
    ensures
        t[i].next <= j,
{
    if j < t[i].next {
        assert(i <= t[j].parent->0);
    }
}

proof fn lemma_walk(t: Tree, n: int, i: int, class: Class, kind: u16, j: int)
    requires
        nested(t),
        0 <= n < t.len(),
        n < i <= t[n].next,
        i < t[n].next ==> t[i].parent == Some(n),
    ensures
        nodes_from(t, i, t[n].next, class).contains(j) <==> i <= j < t.len() && t[j].parent == Some(
            n,
        ) && !t[j].token && in_class(class, t[j].kind),
        tokens_from(t, i, t[n].next, kind).contains(j) <==> i <= j < t.len() && t[j].parent == Some(
            n,
        ) && t[j].token && t[j].kind == kind,
        match node_from(t, i, t[n].next, class) {
            Some(x) => nodes_from(t, i, t[n].next, class).len() > 0 && nodes_from(
                t,
                i,
                t[n].next,
                class,
            )[0] == x,
            None => nodes_from(t, i, t[n].next, class).len() == 0,
        },
        match token_from(t, i, t[n].next, kind) {
            Some(x) => tokens_from(t, i, t[n].next, kind).len() > 0 && tokens_from(
                t,
                i,
                t[n].next,
                kind,
            )[0] == x,
            None => tokens_from(t, i, t[n].next, kind).len() == 0,
        },
    decreases t.len() - i,
{
    let end = t[n].next;
    assert(end <= t.len());
    if 0 <= j < t.len() && t[j].parent == Some(n) {
        assert(j < end);
    }
    if i < end {
        assert(i < t[i].next <= end);
        let next = t[i].next;
        if next < end {
            lemma_sibling(t, n, i);
        }
        lemma_walk(t, n, next, class, kind, j);
        let nodes = nodes_from(t, next, end, class);
        let tokens = tokens_from(t, next, end, kind);
        if i < j < t.len() && t[j].parent == Some(n) {
            lemma_gap(t, n, i, j);
        }
        let all = nodes_from(t, i, end, class);
        let every = tokens_from(t, i, end, kind);
        if !t[i].token && in_class(class, t[i].kind) {
            assert(all == seq![i] + nodes);
            assert(all[0] == i);
            if nodes.contains(j) {
                let a = nodes.index_of(j);
                assert(all[a + 1] == j);
            }
            if all.contains(j) && j != i {
                let a = all.index_of(j);
                assert(nodes[a - 1] == j);
            }
        }
        if t[i].token && t[i].kind == kind {
            assert(every == seq![i] + tokens);
            assert(every[0] == i);
            if tokens.contains(j) {
                let a = tokens.index_of(j);
                assert(every[a + 1] == j);
            }
            if every.contains(j) && j != i {
                let a = every.index_of(j);
                assert(tokens[a - 1] == j);
            }
        }
    }
}

proof fn lemma_first(t: Tree, n: int)
    requires
        nested(t),
        0 <= n < t.len(),
    ensures
        n + 1 <= t[n].next,
        n + 1 < t[n].next ==> t[n + 1].parent == Some(n),
{
    if n + 1 < t[n].next {
        assert(t[n + 1].parent matches Some(q) && n <= q < n + 1);
    }
}

/// The children of a node that belong to a class are exactly the nodes of that
/// class whose parent it is, and the first child is the first of them.
pub proof fn law_children(t: Tree, n: int, class: Class, j: int)
    requires
        nested(t),
        0 <= n < t.len(),
    ensures
        children(t, n, class).contains(j) <==> 0 <= j < t.len() && t[j].parent == Some(n)
            && !t[j].token && in_class(class, t[j].kind),
        child(t, n, class) is Some <==> children(t, n, class).len() > 0,
        child(t, n, class) matches Some(x) ==> x == children(t, n, class)[0],
{
    lemma_first(t, n);
    lemma_walk(t, n, n + 1, class, 0, j);
    if 0 <= j < t.len() && t[j].parent == Some(n) {
        assert(n < j);
    }
}

/// The tokens of a kind directly under a node are exactly those whose parent it
/// is, and the first is the first of them.
pub proof fn law_child_tokens(t: Tree, n: int, kind: u16, j: int)
    requires
        nested(t),
        0 <= n < t.len(),
    ensures
        child_tokens(t, n, kind).contains(j) <==> 0 <= j < t.len() && t[j].parent == Some(n)
            && t[j].token && t[j].kind == kind,
        child_token(t, n, kind) is Some <==> child_tokens(t, n, kind).len() > 0,
        child_token(t, n, kind) matches Some(x) ==> x == child_tokens(t, n, kind)[0],
{
    lemma_first(t, n);
    lemma_walk(t, n, n + 1, Class::Any, kind, j);
    if 0 <= j < t.len() && t[j].parent == Some(n) {
        assert(n < j);
    }
}

/// Children stand in the order of their indices.
pub proof fn law_children_in_order(t: Tree, n: int, class: Class, a: int, b: int)
    requires
        well_formed(t),
        0 <= n,
        0 <= a < b < children(t, n, class).len(),
    ensures
        n < children(t, n, class)[a] < children(t, n, class)[b] < t[n].next,
{
    lemma_in_order(t, n + 1, t[n].next, class, a, b);
}

proof fn lemma_in_order(t: Tree, i: int, end: int, class: Class, a: int, b: int)
    requires
        well_formed(t),
        0 <= i,
        0 <= a < b < nodes_from(t, i, end, class).len(),
    ensures
        i <= nodes_from(t, i, end, class)[a] < nodes_from(t, i, end, class)[b] < end,
    decreases t.len() - i,
{
    let all = nodes_from(t, i, end, class);
    let rest = nodes_from(t, t[i].next, end, class);
    if !t[i].token && in_class(class, t[i].kind) {
        assert(all == seq![i] + rest);
        assert(all[b] == rest[b - 1]);
        lemma_nodes_from(t, t[i].next, end, class);
        if a > 0 {
            assert(all[a] == rest[a - 1]);
            lemma_in_order(t, t[i].next, end, class, a - 1, b - 1);
        }
    } else {
        lemma_in_order(t, t[i].next, end, class, a, b);
    }
}

/// The nearest node of a class is the innermost of those of the class that
/// enclose an element, and there is one wherever one of them does.
pub proof fn law_nearest_is_innermost(t: Tree, i: int, class: Class, j: int)
    requires
        well_formed(t),
        0 <= i < t.len(),
    ensures
        nearest(t, i, class) matches Some(n) ==> 0 <= n <= i && encloses(t, n, i) && !t[n].token
            && in_class(class, t[n].kind),
        0 <= j < t.len() && encloses(t, j, i) && !t[j].token && in_class(class, t[j].kind) ==> (
        nearest(t, i, class) matches Some(n) && j <= n),
    decreases i,
{
    if !t[i].token && in_class(class, t[i].kind) {
        if encloses(t, j, i) {
            lemma_encloses_before(t, j, i);
        }
    } else if let Some(p) = t[i].parent {
        assert(0 <= p < i);
        law_nearest_is_innermost(t, p, class, j);
    }
}

proof fn lemma_encloses_before(t: Tree, j: int, i: int)
    requires
        encloses(t, j, i),
    ensures
        j <= i,
    decreases i,
{
    if j != i {
        lemma_encloses_before(t, j, t[i].parent->0);
    }
}

} // verus!
