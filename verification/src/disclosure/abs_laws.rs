//! Laws of the abstract-value lattice.

use vstd::prelude::*;
use vstd::seq_lib::*;

use crate::disclosure::abs::{
    absorb, absorb_from, all_witnesses, disclosed, equivalent, insert_by_uid, joined, merged,
    sort_by_uid, uid_index, witnesses_upto, AbsView, PointView, WitnessView,
};

verus! {

/// Whether some witness of `s` has `uid`.
pub open spec fn has_uid(s: Seq<WitnessView>, uid: u32) -> bool {
    exists|i: int| 0 <= i < s.len() && (#[trigger] s[i]).uid == uid
}

/// No two witnesses of `s` share a uid.
pub open spec fn distinct_uids(s: Seq<WitnessView>) -> bool {
    forall|i: int, j: int|
        0 <= i < j < s.len() ==> (#[trigger] s[i]).uid != (#[trigger] s[j]).uid
}

/// The uids of `s` never go down.
pub open spec fn ascending_uids(s: Seq<WitnessView>) -> bool {
    forall|i: int, j: int|
        0 <= i < j < s.len() ==> (#[trigger] s[i]).uid <= (#[trigger] s[j]).uid
}

/// The paths of all witnesses of `s` with `uid`, joined in order.
pub open spec fn trail(s: Seq<WitnessView>, uid: u32) -> Seq<PointView>
    decreases s.len(),
{
    if s.len() == 0 {
        Seq::empty()
    } else if s.last().uid == uid {
        trail(s.drop_last(), uid) + s.last().path
    } else {
        trail(s.drop_last(), uid)
    }
}

proof fn lemma_uid_index(s: Seq<WitnessView>, uid: u32, i: int)
    requires
        0 <= i <= s.len(),
    ensures
        i <= uid_index(s, uid, i) <= s.len(),
        uid_index(s, uid, i) < s.len() ==> s[uid_index(s, uid, i)].uid == uid,
        forall|j: int| i <= j < uid_index(s, uid, i) ==> (#[trigger] s[j]).uid != uid,
    decreases s.len() - i,
{
    if i < s.len() && s[i].uid != uid {
        lemma_uid_index(s, uid, i + 1);
    }
}

proof fn lemma_absorb_uids(s: Seq<WitnessView>, w: WitnessView, u: u32)
    ensures
        has_uid(absorb(s, w), u) <==> (has_uid(s, u) || w.uid == u),
        distinct_uids(s) ==> distinct_uids(absorb(s, w)),
{
    lemma_uid_index(s, w.uid, 0);
    let k = uid_index(s, w.uid, 0);
    let r = absorb(s, w);
    if k < s.len() {
        assert(forall|i: int| 0 <= i < s.len() ==> (#[trigger] r[i]).uid == s[i].uid);
        if has_uid(s, u) {
            let i = choose|i: int| 0 <= i < s.len() && (#[trigger] s[i]).uid == u;
            assert(r[i].uid == u);
        }
        if w.uid == u {
            assert(r[k].uid == u);
        }
    } else {
        if has_uid(s, u) {
            let i = choose|i: int| 0 <= i < s.len() && (#[trigger] s[i]).uid == u;
            assert(r[i].uid == u);
        }
        assert(r[s.len() as int] == w);
        if has_uid(r, u) {
            let i = choose|i: int| 0 <= i < r.len() && (#[trigger] r[i]).uid == u;
            if i < s.len() {
                assert(s[i].uid == u);
            }
        }
    }
}

proof fn lemma_absorb_from_uids(s: Seq<WitnessView>, more: Seq<WitnessView>, i: int, u: u32)
    requires
        0 <= i <= more.len(),
    ensures
        has_uid(absorb_from(s, more, i), u) <==> (has_uid(s, u) || has_uid(more.skip(i), u)),
        distinct_uids(s) ==> distinct_uids(absorb_from(s, more, i)),
    decreases more.len() - i,
{
    if i < more.len() {
        lemma_absorb_uids(s, more[i], u);
        lemma_absorb_from_uids(absorb(s, more[i]), more, i + 1, u);
        let rest = more.skip(i);
        let next = more.skip(i + 1);
        assert(rest[0] == more[i]);
        assert(forall|j: int| 0 <= j < next.len() ==> #[trigger] next[j] == rest[j + 1]);
        if has_uid(next, u) {
            let j = choose|j: int| 0 <= j < next.len() && (#[trigger] next[j]).uid == u;
            assert(rest[j + 1].uid == u);
        }
        if has_uid(rest, u) && more[i].uid != u {
            let j = choose|j: int| 0 <= j < rest.len() && (#[trigger] rest[j]).uid == u;
            assert(next[j - 1].uid == u);
        }
    }
}

proof fn lemma_insert(s: Seq<WitnessView>, w: WitnessView)
    ensures
        insert_by_uid(s, w).to_multiset() == s.to_multiset().insert(w),
        insert_by_uid(s, w).len() == s.len() + 1,
        ascending_uids(s) ==> ascending_uids(insert_by_uid(s, w)),
    decreases s.len(),
{
    broadcast use group_to_multiset_ensures;

    if s.len() == 0 || s.last().uid <= w.uid {
        if ascending_uids(s) {
            let r = s.push(w);
            assert forall|i: int, j: int| 0 <= i < j < r.len() implies (#[trigger] r[i]).uid <= (
            #[trigger] r[j]).uid by {
                if j == s.len() && i < s.len() - 1 {
                    assert(s[i].uid <= s[s.len() - 1].uid);
                }
            }
        }
    } else {
        let t = s.drop_last();
        lemma_insert(t, w);
        assert(s =~= t.push(s.last()));
        let r = insert_by_uid(t, w);
        assert(insert_by_uid(s, w).to_multiset() =~= s.to_multiset().insert(w));
        if ascending_uids(s) {
            assert(ascending_uids(t));
            let full = r.push(s.last());
            assert forall|i: int, j: int| 0 <= i < j < full.len() implies (#[trigger] full[i]).uid
                <= (#[trigger] full[j]).uid by {
                if j == r.len() {
                    assert(r.to_multiset().contains(r[i])) by {
                        assert(r.contains(r[i]));
                    }
                    assert(r[i] == w || t.to_multiset().contains(r[i]));
                    if r[i] != w {
                        assert(t.contains(r[i]));
                        let k = choose|k: int| 0 <= k < t.len() && t[k] == r[i];
                        assert(s[k].uid <= s[s.len() - 1].uid);
                    }
                }
            }
        }
    }
}

proof fn lemma_sort(s: Seq<WitnessView>)
    ensures
        sort_by_uid(s).to_multiset() == s.to_multiset(),
        sort_by_uid(s).len() == s.len(),
        ascending_uids(sort_by_uid(s)),
    decreases s.len(),
{
    broadcast use group_to_multiset_ensures;

    if s.len() > 0 {
        lemma_sort(s.drop_last());
        lemma_insert(sort_by_uid(s.drop_last()), s.last());
        assert(s =~= s.drop_last().push(s.last()));
    }
}

proof fn lemma_sort_contains(s: Seq<WitnessView>, w: WitnessView)
    ensures
        sort_by_uid(s).contains(w) <==> s.contains(w),
{
    broadcast use group_to_multiset_ensures;

    lemma_sort(s);
    assert(sort_by_uid(s).contains(w) <==> sort_by_uid(s).to_multiset().contains(w));
    assert(s.contains(w) <==> s.to_multiset().contains(w));
}

proof fn lemma_sort_uids(s: Seq<WitnessView>, u: u32)
    ensures
        has_uid(sort_by_uid(s), u) <==> has_uid(s, u),
{
    let r = sort_by_uid(s);
    if has_uid(s, u) {
        let i = choose|i: int| 0 <= i < s.len() && (#[trigger] s[i]).uid == u;
        lemma_sort_contains(s, s[i]);
        assert(s.contains(s[i]));
        let j = choose|j: int| 0 <= j < r.len() && r[j] == s[i];
        assert(r[j].uid == u);
    }
    if has_uid(r, u) {
        let i = choose|i: int| 0 <= i < r.len() && (#[trigger] r[i]).uid == u;
        lemma_sort_contains(s, r[i]);
        assert(r.contains(r[i]));
        let j = choose|j: int| 0 <= j < s.len() && s[j] == r[i];
        assert(s[j].uid == u);
    }
}

proof fn lemma_insert_distinct(s: Seq<WitnessView>, w: WitnessView)
    requires
        distinct_uids(s),
        !has_uid(s, w.uid),
    ensures
        distinct_uids(insert_by_uid(s, w)),
        forall|u: u32| has_uid(insert_by_uid(s, w), u) <==> (has_uid(s, u) || u == w.uid),
    decreases s.len(),
{
    let r = insert_by_uid(s, w);
    if s.len() == 0 || s.last().uid <= w.uid {
        assert forall|u: u32| has_uid(r, u) <==> (has_uid(s, u) || u == w.uid) by {
            if has_uid(s, u) {
                let i = choose|i: int| 0 <= i < s.len() && (#[trigger] s[i]).uid == u;
                assert(r[i].uid == u);
            }
            assert(r[s.len() as int] == w);
            if has_uid(r, u) {
                let i = choose|i: int| 0 <= i < r.len() && (#[trigger] r[i]).uid == u;
                if i < s.len() {
                    assert(s[i].uid == u);
                }
            }
        }
        assert forall|i: int, j: int| 0 <= i < j < r.len() implies (#[trigger] r[i]).uid != (
        #[trigger] r[j]).uid by {
            if j == s.len() {
                assert(s[i].uid != w.uid);
            }
        }
    } else {
        let t = s.drop_last();
        assert forall|u: u32| has_uid(s, u) <==> (has_uid(t, u) || u == s.last().uid) by {
            if has_uid(t, u) {
                let i = choose|i: int| 0 <= i < t.len() && (#[trigger] t[i]).uid == u;
                assert(s[i].uid == u);
            }
            assert(s[s.len() - 1] == s.last());
            if has_uid(s, u) {
                let i = choose|i: int| 0 <= i < s.len() && (#[trigger] s[i]).uid == u;
                if i < t.len() {
                    assert(t[i].uid == u);
                }
            }
        }
        assert(!has_uid(t, s.last().uid)) by {
            if has_uid(t, s.last().uid) {
                let i = choose|i: int| 0 <= i < t.len() && (#[trigger] t[i]).uid == s.last().uid;
                assert(s[i].uid == s[s.len() - 1].uid);
            }
        }
        lemma_insert_distinct(t, w);
        let q = insert_by_uid(t, w);
        assert(s.last().uid != w.uid);
        assert(!has_uid(q, s.last().uid));
        assert forall|u: u32| has_uid(r, u) <==> (has_uid(s, u) || u == w.uid) by {
            if has_uid(q, u) {
                let i = choose|i: int| 0 <= i < q.len() && (#[trigger] q[i]).uid == u;
                assert(r[i].uid == u);
            }
            assert(r[q.len() as int] == s.last());
            if has_uid(r, u) {
                let i = choose|i: int| 0 <= i < r.len() && (#[trigger] r[i]).uid == u;
                if i < q.len() {
                    assert(q[i].uid == u);
                }
            }
        }
        assert forall|i: int, j: int| 0 <= i < j < r.len() implies (#[trigger] r[i]).uid != (
        #[trigger] r[j]).uid by {
            if j == q.len() {
                assert(q[i] == r[i]);
                assert(q[i].uid != s.last().uid);
            }
        }
    }
}

proof fn lemma_sort_distinct(s: Seq<WitnessView>)
    requires
        distinct_uids(s),
    ensures
        distinct_uids(sort_by_uid(s)),
    decreases s.len(),
{
    if s.len() > 0 {
        let t = s.drop_last();
        lemma_sort_distinct(t);
        lemma_sort_uids(t, s.last().uid);
        assert(!has_uid(t, s.last().uid)) by {
            if has_uid(t, s.last().uid) {
                let i = choose|i: int| 0 <= i < t.len() && (#[trigger] t[i]).uid == s.last().uid;
                assert(s[i].uid == s[s.len() - 1].uid);
            }
        }
        lemma_insert_distinct(sort_by_uid(t), s.last());
    }
}

/// Merging unites: a uid occurs in the merged list exactly when it occurs in
/// one of the two lists, so no witness is ever dropped.
pub proof fn law_merge_unites(w1: Seq<WitnessView>, w2: Seq<WitnessView>, uid: u32)
    ensures
        has_uid(merged(w1, w2), uid) <==> (has_uid(w1, uid) || has_uid(w2, uid)),
{
    let first = absorb_from(Seq::empty(), w1, 0);
    lemma_absorb_from_uids(Seq::empty(), w1, 0, uid);
    lemma_absorb_from_uids(first, w2, 0, uid);
    assert(w1.skip(0) =~= w1);
    assert(w2.skip(0) =~= w2);
    lemma_sort_uids(absorb_from(first, w2, 0), uid);
}

/// A merged list is ascending by uid and names each uid once.
pub proof fn law_merge_sorts_and_dedups(w1: Seq<WitnessView>, w2: Seq<WitnessView>)
    ensures
        ascending_uids(merged(w1, w2)),
        distinct_uids(merged(w1, w2)),
{
    let first = absorb_from(Seq::empty(), w1, 0);
    lemma_absorb_from_uids(Seq::empty(), w1, 0, 0);
    lemma_absorb_from_uids(first, w2, 0, 0);
    lemma_sort(absorb_from(first, w2, 0));
    lemma_sort_distinct(absorb_from(first, w2, 0));
}

proof fn lemma_trail_push(s: Seq<WitnessView>, w: WitnessView, uid: u32)
    ensures
        trail(s.push(w), uid) == (if w.uid == uid {
            trail(s, uid) + w.path
        } else {
            trail(s, uid)
        }),
{
    assert(s.push(w).drop_last() =~= s);
}

proof fn lemma_trail_none(s: Seq<WitnessView>, uid: u32)
    requires
        !has_uid(s, uid),
    ensures
        trail(s, uid) == Seq::<PointView>::empty(),
    decreases s.len(),
{
    if s.len() > 0 {
        assert(s[s.len() - 1] == s.last());
        let t = s.drop_last();
        assert(!has_uid(t, uid)) by {
            if has_uid(t, uid) {
                let i = choose|i: int| 0 <= i < t.len() && (#[trigger] t[i]).uid == uid;
                assert(s[i].uid == uid);
            }
        }
        lemma_trail_none(t, uid);
    }
}

proof fn lemma_trail_one(s: Seq<WitnessView>, k: int)
    requires
        distinct_uids(s),
        0 <= k < s.len(),
    ensures
        trail(s, s[k].uid) == s[k].path,
    decreases s.len(),
{
    let t = s.drop_last();
    let u = s[k].uid;
    if k == s.len() - 1 {
        assert(!has_uid(t, u)) by {
            if has_uid(t, u) {
                let i = choose|i: int| 0 <= i < t.len() && (#[trigger] t[i]).uid == u;
                assert(s[i].uid == s[k].uid);
            }
        }
        lemma_trail_none(t, u);
        assert(trail(s, u) =~= s[k].path);
    } else {
        assert(s[k].uid != s[s.len() - 1].uid);
        assert(t[k] == s[k]);
        lemma_trail_one(t, k);
    }
}

proof fn lemma_absorb_trail(s: Seq<WitnessView>, w: WitnessView, uid: u32)
    requires
        distinct_uids(s),
    ensures
        trail(absorb(s, w), uid) == (if w.uid == uid {
            trail(s, uid) + w.path
        } else {
            trail(s, uid)
        }),
{
    lemma_uid_index(s, w.uid, 0);
    lemma_absorb_uids(s, w, uid);
    let k = uid_index(s, w.uid, 0);
    let r = absorb(s, w);
    if k < s.len() {
        if has_uid(s, uid) {
            let i = choose|i: int| 0 <= i < s.len() && (#[trigger] s[i]).uid == uid;
            lemma_trail_one(s, i);
            assert(r[i].uid == uid);
            lemma_trail_one(r, i);
            if w.uid == uid {
                assert(i == k);
            }
        } else {
            assert(s[k].uid == w.uid);
            lemma_trail_none(s, uid);
            lemma_trail_none(r, uid);
        }
    } else {
        lemma_trail_push(s, w, uid);
    }
}

proof fn lemma_absorb_all_trail(s: Seq<WitnessView>, more: Seq<WitnessView>, uid: u32)
    requires
        distinct_uids(s),
    ensures
        trail(absorb_from(s, more, 0), uid) == trail(s, uid) + trail(more, uid),
    decreases more.len(),
{
    if more.len() == 0 {
        assert(trail(s, uid) + trail(more, uid) =~= trail(s, uid));
    } else {
        let init = more.drop_last();
        lemma_absorb_all_trail(s, init, uid);
        lemma_absorb_split(s, more, 0);
        lemma_absorb_from_uids(s, init, 0, uid);
        lemma_absorb_trail(absorb_from(s, init, 0), more.last(), uid);
        if more.last().uid == uid {
            assert(trail(s, uid) + trail(init, uid) + more.last().path =~= trail(s, uid) + (trail(
                init,
                uid,
            ) + more.last().path));
        }
    }
}

proof fn lemma_absorb_split(s: Seq<WitnessView>, more: Seq<WitnessView>, i: int)
    requires
        more.len() > 0,
        0 <= i <= more.len() - 1,
    ensures
        absorb_from(s, more, i) == absorb(absorb_from(s, more.drop_last(), i), more.last()),
    decreases more.len() - i,
{
    let init = more.drop_last();
    if i < init.len() {
        assert(init[i] == more[i]);
        lemma_absorb_split(absorb(s, more[i]), more, i + 1);
    } else {
        assert(absorb_from(s, init, i) == s);
        assert(absorb_from(absorb(s, more[i]), more, i + 1) == absorb(s, more[i]));
    }
}

proof fn lemma_insert_trail(s: Seq<WitnessView>, w: WitnessView, uid: u32)
    requires
        ascending_uids(s),
    ensures
        trail(insert_by_uid(s, w), uid) == trail(s.push(w), uid),
    decreases s.len(),
{
    lemma_trail_push(s, w, uid);
    if s.len() > 0 && s.last().uid > w.uid {
        let t = s.drop_last();
        lemma_insert_trail(t, w, uid);
        lemma_trail_push(t, w, uid);
        lemma_trail_push(insert_by_uid(t, w), s.last(), uid);
    }
}

proof fn lemma_sort_trail(s: Seq<WitnessView>, uid: u32)
    ensures
        trail(sort_by_uid(s), uid) == trail(s, uid),
    decreases s.len(),
{
    if s.len() > 0 {
        let t = s.drop_last();
        lemma_sort(t);
        lemma_sort_trail(t, uid);
        lemma_insert_trail(sort_by_uid(t), s.last(), uid);
        lemma_trail_push(sort_by_uid(t), s.last(), uid);
        lemma_trail_push(t, s.last(), uid);
        assert(t.push(s.last()) =~= s);
    }
}

/// Merging keeps every trail: the path of a uid in the merged list is its path
/// in the first list followed by its path in the second.
pub proof fn law_merge_keeps_trails(w1: Seq<WitnessView>, w2: Seq<WitnessView>, uid: u32)
    ensures
        trail(merged(w1, w2), uid) == trail(w1, uid) + trail(w2, uid),
{
    let first = absorb_from(Seq::empty(), w1, 0);
    lemma_absorb_from_uids(Seq::empty(), w1, 0, uid);
    lemma_absorb_all_trail(Seq::empty(), w1, uid);
    assert(Seq::<PointView>::empty() + trail(w1, uid) =~= trail(w1, uid));
    lemma_absorb_all_trail(first, w2, uid);
    lemma_sort_trail(absorb_from(first, w2, 0), uid);
}

proof fn lemma_merge_empty()
    ensures
        merged(Seq::empty(), Seq::empty()) == Seq::<WitnessView>::empty(),
{
    assert(absorb_from(Seq::empty(), Seq::empty(), 0) == Seq::<WitnessView>::empty());
}

proof fn lemma_disclosed_upto(items: Seq<AbsView>, n: int)
    requires
        0 <= n <= items.len(),
        forall|i: int|
            0 <= i < items.len() ==> all_witnesses(#[trigger] items[i]) == Seq::<
                WitnessView,
            >::empty(),
    ensures
        witnesses_upto(items, n) == Seq::<WitnessView>::empty(),
    decreases n,
{
    if n > 0 {
        lemma_disclosed_upto(items, n - 1);
        lemma_merge_empty();
    }
}

/// `disclose` removes every witness, at every level.
pub proof fn law_disclose_clears(a: AbsView)
    ensures
        all_witnesses(disclosed(a)) == Seq::<WitnessView>::empty(),
    decreases a,
{
    match a {
        AbsView::Multiple(items) => {
            let out = disclosed(a)->Multiple_0;
            assert forall|i: int| 0 <= i < out.len() implies all_witnesses(#[trigger] out[i])
                == Seq::<WitnessView>::empty() by {
                law_disclose_clears(items[i]);
            }
            lemma_disclosed_upto(out, out.len() as int);
        },
        AbsView::Single(inner) => law_disclose_clears(*inner),
        _ => {},
    }
}

/// Disclosing twice is disclosing once.
pub proof fn law_disclose_idempotent(a: AbsView)
    ensures
        disclosed(disclosed(a)) == disclosed(a),
    decreases a,
{
    match a {
        AbsView::Multiple(items) => {
            let once = disclosed(a)->Multiple_0;
            let twice = disclosed(disclosed(a))->Multiple_0;
            assert forall|i: int| 0 <= i < items.len() implies twice[i] == once[i] by {
                law_disclose_idempotent(items[i]);
            }
            assert(twice =~= once);
        },
        AbsView::Single(inner) => law_disclose_idempotent(*inner),
        _ => {},
    }
}

/// Shapes that typing lets meet at a join: equal arities, and `Single` against
/// a `Multiple` that has children.
pub open spec fn compatible(a: AbsView, b: AbsView) -> bool
    decreases a, b,
{
    match (a, b) {
        (AbsView::Multiple(a1), AbsView::Multiple(a2)) => a1.len() == a2.len() && forall|i: int|
            0 <= i < a1.len() ==> compatible(#[trigger] a1[i], a2[i]),
        (AbsView::Single(a1), AbsView::Single(a2)) => compatible(*a1, *a2),
        (AbsView::Multiple(a1), AbsView::Single(a2)) => a1.len() > 0 && forall|i: int|
            0 <= i < a1.len() ==> compatible(#[trigger] a1[i], *a2),
        (AbsView::Single(a1), AbsView::Multiple(a2)) => a2.len() > 0 && forall|i: int|
            0 <= i < a2.len() ==> compatible(*a1, #[trigger] a2[i]),
        _ => true,
    }
}

/// A uid is among the witnesses of the first `n` values exactly where it is
/// among those of one of them.
pub proof fn lemma_upto_uids(items: Seq<AbsView>, n: int, uid: u32)
    requires
        0 <= n <= items.len(),
    ensures
        has_uid(witnesses_upto(items, n), uid) <==> exists|i: int|
            0 <= i < n && has_uid(all_witnesses(#[trigger] items[i]), uid),
    decreases n,
{
    if n > 0 {
        lemma_upto_uids(items, n - 1, uid);
        law_merge_unites(witnesses_upto(items, n - 1), all_witnesses(items[n - 1]), uid);
        if has_uid(all_witnesses(items[n - 1]), uid) {
            assert(0 <= n - 1 < n && has_uid(all_witnesses(items[n - 1]), uid));
        }
    }
}

/// A join keeps all taint: a uid is reachable from the join exactly when it is
/// reachable from one of the two values.
pub proof fn law_join_unites(a: AbsView, b: AbsView, uid: u32)
    requires
        compatible(a, b),
    ensures
        has_uid(all_witnesses(joined(a, b)), uid) <==> (has_uid(all_witnesses(a), uid) || has_uid(
            all_witnesses(b),
            uid,
        )),
    decreases a, b,
{
    match (a, b) {
        (AbsView::Multiple(a1), AbsView::Multiple(a2)) => {
            let r = joined(a, b)->Multiple_0;
            lemma_upto_uids(a1, a1.len() as int, uid);
            lemma_upto_uids(a2, a2.len() as int, uid);
            lemma_upto_uids(r, r.len() as int, uid);
            assert forall|i: int| 0 <= i < r.len() implies (has_uid(
                all_witnesses(#[trigger] r[i]),
                uid,
            ) <==> (has_uid(all_witnesses(a1[i]), uid) || has_uid(all_witnesses(a2[i]), uid))) by {
                law_join_unites(a1[i], a2[i], uid);
            }
            assert(forall|i: int| 0 <= i < a1.len() ==> has_uid(all_witnesses(#[trigger] a1[i]), uid)
                ==> has_uid(all_witnesses(r[i]), uid));
            assert(forall|i: int| 0 <= i < a2.len() ==> has_uid(all_witnesses(#[trigger] a2[i]), uid)
                ==> has_uid(all_witnesses(r[i]), uid));
        },
        (AbsView::Single(a1), AbsView::Single(a2)) => law_join_unites(*a1, *a2, uid),
        (AbsView::Multiple(a1), AbsView::Single(a2)) => {
            let r = joined(a, b)->Multiple_0;
            lemma_upto_uids(a1, a1.len() as int, uid);
            lemma_upto_uids(r, r.len() as int, uid);
            assert forall|i: int| 0 <= i < r.len() implies (has_uid(
                all_witnesses(#[trigger] r[i]),
                uid,
            ) <==> (has_uid(all_witnesses(a1[i]), uid) || has_uid(all_witnesses(*a2), uid))) by {
                law_join_unites(a1[i], *a2, uid);
            }
            assert(forall|i: int| 0 <= i < a1.len() ==> has_uid(all_witnesses(#[trigger] a1[i]), uid)
                ==> has_uid(all_witnesses(r[i]), uid));
            if has_uid(all_witnesses(*a2), uid) {
                assert(has_uid(all_witnesses(r[0]), uid));
            }
        },
        (AbsView::Single(a1), AbsView::Multiple(a2)) => {
            let r = joined(a, b)->Multiple_0;
            lemma_upto_uids(a2, a2.len() as int, uid);
            lemma_upto_uids(r, r.len() as int, uid);
            assert forall|i: int| 0 <= i < r.len() implies (has_uid(
                all_witnesses(#[trigger] r[i]),
                uid,
            ) <==> (has_uid(all_witnesses(*a1), uid) || has_uid(all_witnesses(a2[i]), uid))) by {
                law_join_unites(*a1, a2[i], uid);
            }
            assert(forall|i: int| 0 <= i < a2.len() ==> has_uid(all_witnesses(#[trigger] a2[i]), uid)
                ==> has_uid(all_witnesses(r[i]), uid));
            if has_uid(all_witnesses(*a1), uid) {
                assert(has_uid(all_witnesses(r[0]), uid));
            }
        },
        (AbsView::Atomic(w2), AbsView::Boolean { witnesses: w1, .. }) => {
            law_merge_unites(w1, w2, uid);
        },
        _ => {
            law_merge_unites(all_witnesses(a), all_witnesses(b), uid);
        },
    }
}

/// Equivalence of abstract values is reflexive.
pub proof fn law_equivalent_reflexive(a: AbsView)
    ensures
        equivalent(a, a),
    decreases a,
{
    match a {
        AbsView::Multiple(items) => {
            assert forall|i: int| 0 <= i < items.len() implies equivalent(
                #[trigger] items[i],
                items[i],
            ) by {
                law_equivalent_reflexive(items[i]);
            }
        },
        AbsView::Single(inner) => law_equivalent_reflexive(*inner),
        _ => {},
    }
}

/// Equivalence of abstract values is symmetric.
pub proof fn law_equivalent_symmetric(a: AbsView, b: AbsView)
    requires
        equivalent(a, b),
    ensures
        equivalent(b, a),
    decreases a,
{
    match (a, b) {
        (AbsView::Multiple(a1), AbsView::Multiple(a2)) => {
            assert forall|i: int| 0 <= i < a2.len() implies equivalent(#[trigger] a2[i], a1[i]) by {
                assert(equivalent(a1[i], a2[i]));
                law_equivalent_symmetric(a1[i], a2[i]);
            }
        },
        (AbsView::Single(a1), AbsView::Single(a2)) => law_equivalent_symmetric(*a1, *a2),
        _ => {},
    }
}

/// Equivalence of abstract values is transitive.
pub proof fn law_equivalent_transitive(a: AbsView, b: AbsView, c: AbsView)
    requires
        equivalent(a, b),
        equivalent(b, c),
    ensures
        equivalent(a, c),
    decreases a,
{
    match (a, b, c) {
        (AbsView::Multiple(a1), AbsView::Multiple(a2), AbsView::Multiple(a3)) => {
            assert forall|i: int| 0 <= i < a1.len() implies equivalent(#[trigger] a1[i], a3[i]) by {
                assert(equivalent(a1[i], a2[i]));
                assert(equivalent(a2[i], a3[i]));
                law_equivalent_transitive(a1[i], a2[i], a3[i]);
            }
        },
        (AbsView::Single(a1), AbsView::Single(a2), AbsView::Single(a3)) => {
            law_equivalent_transitive(*a1, *a2, *a3);
        },
        _ => {},
    }
}

/// Whether two values have the same shape: the same variants at every level,
/// the same constants and the same numbers of children.
pub open spec fn same_shape(a: AbsView, b: AbsView) -> bool
    decreases a,
{
    match (a, b) {
        (AbsView::Atomic(_), AbsView::Atomic(_)) => true,
        (AbsView::Boolean { value: t1, .. }, AbsView::Boolean { value: t2, .. }) => t1 == t2,
        (AbsView::Multiple(a1), AbsView::Multiple(a2)) => a1.len() == a2.len() && forall|i: int|
            0 <= i < a1.len() ==> same_shape(#[trigger] a1[i], a2[i]),
        (AbsView::Single(a1), AbsView::Single(a2)) => same_shape(*a1, *a2),
        _ => false,
    }
}

/// Values of different shapes, or with different uids in them, are not
/// equivalent.
pub proof fn law_equivalent_keeps_shape_and_uids(a: AbsView, b: AbsView, uid: u32)
    requires
        equivalent(a, b),
    ensures
        same_shape(a, b),
        has_uid(all_witnesses(a), uid) <==> has_uid(all_witnesses(b), uid),
    decreases a,
{
    match (a, b) {
        (AbsView::Multiple(a1), AbsView::Multiple(a2)) => {
            assert forall|i: int| 0 <= i < a1.len() implies same_shape(#[trigger] a1[i], a2[i]) && (
            has_uid(all_witnesses(a1[i]), uid) <==> has_uid(all_witnesses(a2[i]), uid)) by {
                assert(equivalent(a1[i], a2[i]));
                law_equivalent_keeps_shape_and_uids(a1[i], a2[i], uid);
            }
            lemma_upto_uids(a1, a1.len() as int, uid);
            lemma_upto_uids(a2, a2.len() as int, uid);
            if has_uid(all_witnesses(a), uid) {
                let i = choose|i: int|
                    0 <= i < a1.len() && has_uid(all_witnesses(#[trigger] a1[i]), uid);
                assert(has_uid(all_witnesses(a2[i]), uid));
            }
            if has_uid(all_witnesses(b), uid) {
                let i = choose|i: int|
                    0 <= i < a2.len() && has_uid(all_witnesses(#[trigger] a2[i]), uid);
                assert(has_uid(all_witnesses(a1[i]), uid));
            }
        },
        (AbsView::Single(a1), AbsView::Single(a2)) => {
            law_equivalent_keeps_shape_and_uids(*a1, *a2, uid);
        },
        _ => {
            lemma_sort_uids(all_witnesses(a), uid);
            lemma_sort_uids(all_witnesses(b), uid);
        },
    }
}

proof fn lemma_sorted_same(s: Seq<WitnessView>, t: Seq<WitnessView>)
    requires
        ascending_uids(s),
        distinct_uids(s),
        ascending_uids(t),
        distinct_uids(t),
        forall|w: WitnessView| s.contains(w) <==> t.contains(w),
    ensures
        s == t,
    decreases s.len(),
{
    if s.len() == 0 {
        if t.len() > 0 {
            assert(t.contains(t[0]));
        }
        assert(s =~= t);
    } else {
        assert(s.contains(s.last()));
        assert(t.contains(s.last()));
        let k = choose|k: int| 0 <= k < t.len() && t[k] == s.last();
        assert(t.contains(t.last()));
        let m = choose|m: int| 0 <= m < s.len() && s[m] == t.last();
        assert(s[m].uid <= s[s.len() - 1].uid);
        assert(t[k].uid <= t[t.len() - 1].uid);
        assert(m == s.len() - 1);
        assert(s.last() == t.last());
        let s1 = s.drop_last();
        let t1 = t.drop_last();
        assert forall|w: WitnessView| s1.contains(w) <==> t1.contains(w) by {
            if s1.contains(w) {
                let i = choose|i: int| 0 <= i < s1.len() && s1[i] == w;
                assert(s[i] == w && s.contains(w));
                assert(s[i].uid != s[s.len() - 1].uid);
                let j = choose|j: int| 0 <= j < t.len() && t[j] == w;
                assert(j != t.len() - 1);
                assert(t1[j] == w);
            }
            if t1.contains(w) {
                let i = choose|i: int| 0 <= i < t1.len() && t1[i] == w;
                assert(t[i] == w && t.contains(w));
                assert(t[i].uid != t[t.len() - 1].uid);
                let j = choose|j: int| 0 <= j < s.len() && s[j] == w;
                assert(j != s.len() - 1);
                assert(s1[j] == w);
            }
        }
        lemma_sorted_same(s1, t1);
        assert(s =~= s1.push(s.last()));
        assert(t =~= t1.push(t.last()));
    }
}

/// Equivalence does not look at the order in which witnesses came in: two
/// lists of the same witnesses, one per uid, are equivalent.
pub proof fn law_equivalent_ignores_order(w1: Seq<WitnessView>, w2: Seq<WitnessView>)
    requires
        distinct_uids(w1),
        distinct_uids(w2),
        forall|w: WitnessView| w1.contains(w) <==> w2.contains(w),
    ensures
        equivalent(AbsView::Atomic(w1), AbsView::Atomic(w2)),
{
    lemma_sort(w1);
    lemma_sort(w2);
    lemma_sort_distinct(w1);
    lemma_sort_distinct(w2);
    assert forall|w: WitnessView|
        sort_by_uid(w1).contains(w) <==> sort_by_uid(w2).contains(w) by {
        lemma_sort_contains(w1, w);
        lemma_sort_contains(w2, w);
    }
    lemma_sorted_same(sort_by_uid(w1), sort_by_uid(w2));
}

} // verus!
