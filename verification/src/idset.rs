//! Sets of files that are listed in ascending order.

use vstd::prelude::*;

use crate::vfs::FileId;

verus! {

/// Whether every number is greater than those before it.
pub open spec fn increasing(s: Seq<usize>) -> bool {
    forall|i: int, j: int| #![trigger s[i], s[j]] 0 <= i < j < s.len() ==> s[i] < s[j]
}

/// The members of a set in ascending order.
pub open spec fn ascending(s: Set<usize>) -> Seq<usize> {
    choose|q: Seq<usize>| #[trigger] increasing(q) && q.to_set() == s
}

/// The files with the given numbers.
pub open spec fn file_ids(s: Seq<usize>) -> Seq<FileId> {
    s.map_values(|raw: usize| FileId { raw })
}

proof fn lemma_unique(a: Seq<usize>, b: Seq<usize>)
    requires
        increasing(a),
        increasing(b),
        a.to_set() == b.to_set(),
    ensures
        a == b,
    decreases a.len(),
{
    assert forall|x: usize| a.contains(x) == b.contains(x) by {
        assert(a.to_set().contains(x) == a.contains(x));
        assert(b.to_set().contains(x) == b.contains(x));
    }
    if a.len() == 0 {
        if b.len() > 0 {
            assert(b.contains(b[0]));
        }
        assert(a =~= b);
    } else {
        assert(a.contains(a[0]));
        let x = a.last();
        let y = b.last();
        assert(a.contains(x) && b.contains(y));
        let i = choose|i: int| 0 <= i < b.len() && b[i] == x;
        let j = choose|j: int| 0 <= j < a.len() && a[j] == y;
        assert(x == y) by {
            if i < b.len() - 1 && j < a.len() - 1 {
                assert(b[i] < b[b.len() - 1]);
                assert(a[j] < a[a.len() - 1]);
            }
        }
        let c = a.drop_last();
        let d = b.drop_last();
        assert forall|z: usize| c.to_set().contains(z) == d.to_set().contains(z) by {
            if c.contains(z) {
                let k = choose|k: int| 0 <= k < c.len() && c[k] == z;
                assert(a[k] == z && a[k] < a[a.len() - 1]);
                assert(a.contains(z));
                let l = choose|l: int| 0 <= l < b.len() && b[l] == z;
                assert(d[l] == z);
            }
            if d.contains(z) {
                let k = choose|k: int| 0 <= k < d.len() && d[k] == z;
                assert(b[k] == z && b[k] < b[b.len() - 1]);
                assert(b.contains(z));
                let l = choose|l: int| 0 <= l < a.len() && a[l] == z;
                assert(c[l] == z);
            }
        }
        assert(c.to_set() =~= d.to_set());
        lemma_unique(c, d);
        assert(a =~= c.push(x));
        assert(b =~= d.push(y));
    }
}

/// A list in ascending order is the ascending list of its members.
pub proof fn lemma_ascending(q: Seq<usize>)
    requires
        increasing(q),
    ensures
        ascending(q.to_set()) == q,
{
    lemma_unique(ascending(q.to_set()), q);
}

/// The members of a set below `n`, in ascending order.
spec fn ascending_below(s: Set<usize>, n: int) -> Seq<usize>
    decreases n,
{
    if 0 < n <= usize::MAX + 1 {
        let rest = ascending_below(s, n - 1);
        if s.contains((n - 1) as usize) {
            rest.push((n - 1) as usize)
        } else {
            rest
        }
    } else {
        Seq::empty()
    }
}

proof fn lemma_ascending_below(s: Set<usize>, n: int)
    requires
        0 <= n <= usize::MAX + 1,
    ensures
        increasing(ascending_below(s, n)),
        forall|x: usize|
            #![trigger ascending_below(s, n).contains(x)]
            ascending_below(s, n).contains(x) <==> s.contains(x) && x < n,
    decreases n,
{
    if n > 0 {
        lemma_ascending_below(s, n - 1);
        let rest = ascending_below(s, n - 1);
        let all = ascending_below(s, n);
        let y = (n - 1) as usize;
        assert forall|x: usize| #![trigger all.contains(x)] all.contains(x) <==> s.contains(x) && x
            < n by {
            assert(rest.contains(x) <==> s.contains(x) && x < n - 1);
            if all.contains(x) {
                let i = choose|i: int| 0 <= i < all.len() && all[i] == x;
                if i < rest.len() {
                    assert(rest[i] == x);
                }
            }
            if rest.contains(x) {
                let i = choose|i: int| 0 <= i < rest.len() && rest[i] == x;
                assert(all[i] == x);
            }
            if s.contains(y) {
                assert(all[rest.len() as int] == y);
            }
        }
        assert forall|i: int, j: int| #![trigger all[i], all[j]] 0 <= i < j < all.len() implies all[i]
            < all[j] by {
            assert(rest[i] == all[i]);
            assert(rest.contains(rest[i]));
            if j < rest.len() {
                assert(rest[j] == all[j]);
            }
        }
    }
}

/// Every set of files has an ascending list of its members.
pub proof fn lemma_ascending_lists(s: Set<usize>)
    ensures
        increasing(ascending(s)),
        ascending(s).to_set() == s,
{
    let q = ascending_below(s, usize::MAX + 1);
    lemma_ascending_below(s, usize::MAX + 1);
    assert forall|x: usize| q.to_set().contains(x) == s.contains(x) by {
        assert(q.to_set().contains(x) == q.contains(x));
    }
    assert(q.to_set() =~= s);
    assert(increasing(q) && q.to_set() == s);
}

/// A set of files.
pub struct IdSet {
    ids: Vec<usize>,
}

impl View for IdSet {
    type V = Set<usize>;

    closed spec fn view(&self) -> Set<usize> {
        self.ids@.to_set()
    }
}

fn with_id(ids: &Vec<usize>, x: usize) -> (r: Vec<usize>)
    requires
        increasing(ids@),
    ensures
        increasing(r@),
        r@.to_set() == ids@.to_set().insert(x),
{
    let mut out: Vec<usize> = Vec::new();
    let mut i: usize = 0;
    while i < ids.len() && ids[i] < x
        invariant
            i <= ids@.len(),
            increasing(ids@),
            out@ == ids@.take(i as int),
            forall|k: int| 0 <= k < i ==> ids@[k] < x,
        decreases ids@.len() - i,
    {
        out.push(ids[i]);
        assert(out@ =~= ids@.take(i + 1));
        i = i + 1;
    }
    let ghost before = i as int;
    out.push(x);
    if i < ids.len() && ids[i] == x {
        i = i + 1;
    }
    let ghost from = i as int;
    let ghost head = ids@.take(before).push(x);
    assert(out@ =~= head + ids@.subrange(from, from));
    while i < ids.len()
        invariant
            from <= i <= ids@.len(),
            0 <= before <= from,
            increasing(ids@),
            out@ == head + ids@.subrange(from, i as int),
        decreases ids@.len() - i,
    {
        out.push(ids[i]);
        assert(out@ =~= head + ids@.subrange(from, i + 1));
        i = i + 1;
    }
    proof {
        let tail = ids@.subrange(from, ids@.len() as int);
        assert(out@ == head + tail);
        assert forall|j: int| 0 <= j < tail.len() implies tail[j] > x by {
            assert(tail[j] == ids@[from + j]);
            assert(from < ids@.len());
            if j > 0 {
                assert(ids@[from] < ids@[from + j]);
            }
            if from == before + 1 {
                assert(ids@[before] < ids@[from]);
            }
        }
        assert(increasing(out@)) by {
            assert forall|a: int, b: int|
                #![trigger out@[a], out@[b]]
                0 <= a < b < out@.len() implies out@[a] < out@[b] by {
                if b < before {
                    assert(ids@[a] < ids@[b]);
                } else if a > before {
                    assert(ids@[from + a - before - 1] < ids@[from + b - before - 1]);
                } else if b > before {
                    assert(out@[b] == tail[b - before - 1]);
                }
            }
        }
        assert forall|z: usize| out@.to_set().contains(z) == ids@.to_set().insert(x).contains(z) by {
            if out@.contains(z) {
                let k = choose|k: int| 0 <= k < out@.len() && out@[k] == z;
                if k < before {
                    assert(ids@[k] == z);
                } else if k > before {
                    assert(ids@[from + k - before - 1] == z);
                }
            }
            if ids@.contains(z) {
                let k = choose|k: int| 0 <= k < ids@.len() && ids@[k] == z;
                if k < before {
                    assert(out@[k] == z);
                } else if k >= from {
                    assert(out@[k - from + before + 1] == z);
                } else {
                    assert(out@[before] == x);
                }
            }
            if z == x {
                assert(out@[before] == x);
            }
        }
        assert(out@.to_set() =~= ids@.to_set().insert(x));
    }
    out
}

fn without_id(ids: &Vec<usize>, x: usize) -> (r: Vec<usize>)
    requires
        increasing(ids@),
    ensures
        increasing(r@),
        r@.to_set() == ids@.to_set().remove(x),
{
    let mut out: Vec<usize> = Vec::new();
    let mut i: usize = 0;
    while i < ids.len()
        invariant
            i <= ids@.len(),
            increasing(ids@),
            increasing(out@),
            out@.len() > 0 ==> i > 0 && out@.last() <= ids@[i - 1],
            forall|z: usize|
                #![trigger out@.contains(z)]
                out@.contains(z) == (z != x && ids@.take(i as int).contains(z)),
        decreases ids@.len() - i,
    {
        let y: usize = ids[i];
        let ghost before = out@;
        proof {
            if i > 0 {
                assert(ids@[i - 1] < ids@[i as int]);
            }
            assert(ids@.take(i + 1) =~= ids@.take(i as int).push(y));
            assert forall|z: usize|
                #![trigger ids@.take(i + 1).contains(z)]
                ids@.take(i + 1).contains(z) == (ids@.take(i as int).contains(z) || z == y) by {
                let a = ids@.take(i as int);
                if a.contains(z) {
                    let k = choose|k: int| 0 <= k < a.len() && a[k] == z;
                    assert(a.push(y)[k] == z);
                }
                assert(a.push(y)[a.len() as int] == y);
            }
        }
        if y != x {
            out.push(y);
            proof {
                assert forall|z: usize|
                    #![trigger out@.contains(z)]
                    out@.contains(z) == (before.contains(z) || z == y) by {
                    if before.contains(z) {
                        let k = choose|k: int| 0 <= k < before.len() && before[k] == z;
                        assert(out@[k] == z);
                    }
                    assert(out@[before.len() as int] == y);
                }
            }
        }
        proof {
            assert forall|z: usize|
                #![trigger out@.contains(z)]
                out@.contains(z) == (z != x && ids@.take(i + 1).contains(z)) by {
                assert(before.contains(z) == (z != x && ids@.take(i as int).contains(z)));
                assert(ids@.take(i + 1).contains(z) == (ids@.take(i as int).contains(z) || z == y));
            }
        }
        i = i + 1;
    }
    proof {
        assert(ids@.take(ids@.len() as int) =~= ids@);
        assert forall|z: usize| out@.to_set().contains(z) == ids@.to_set().remove(x).contains(z) by {
            assert(out@.contains(z) == (z != x && ids@.contains(z)));
        }
        assert(out@.to_set() =~= ids@.to_set().remove(x));
    }
    out
}

impl IdSet {
    #[verifier::type_invariant]
    closed spec fn listed(&self) -> bool {
        increasing(self.ids@)
    }

    /// No files.
    pub fn new() -> (r: IdSet)
        ensures
            r@ == Set::<usize>::empty(),
    {
        let r = IdSet { ids: Vec::new() };
        assert(r@ =~= Set::<usize>::empty());
        r
    }

    /// Adds a file.
    pub fn insert(&mut self, file: FileId)
        ensures
            final(self)@ == old(self)@.insert(file.raw),
    {
        proof {
            use_type_invariant(&*self);
        }
        let ids = with_id(&self.ids, file.raw);
        self.ids = ids;
    }

    /// Takes a file out.
    pub fn remove(&mut self, file: FileId)
        ensures
            final(self)@ == old(self)@.remove(file.raw),
    {
        proof {
            use_type_invariant(&*self);
        }
        let ids = without_id(&self.ids, file.raw);
        self.ids = ids;
    }

    /// Whether a file is in the set.
    pub fn contains(&self, file: FileId) -> (r: bool)
        ensures
            r == self@.contains(file.raw),
    {
        let mut k: usize = 0;
        while k < self.ids.len()
            invariant
                k <= self.ids@.len(),
                forall|j: int| 0 <= j < k ==> self.ids@[j] != file.raw,
            decreases self.ids@.len() - k,
        {
            if self.ids[k] == file.raw {
                assert(self.ids@[k as int] == file.raw);
                return true;
            }
            k = k + 1;
        }
        false
    }

    /// The files in ascending order.
    pub fn files(&self) -> (r: Vec<FileId>)
        ensures
            r@ == file_ids(ascending(self@)),
            increasing(ascending(self@)),
            ascending(self@).to_set() == self@,
    {
        proof {
            use_type_invariant(self);
            lemma_ascending(self.ids@);
        }
        let mut out: Vec<FileId> = Vec::new();
        let mut k: usize = 0;
        while k < self.ids.len()
            invariant
                k <= self.ids@.len(),
                out@ == file_ids(self.ids@.take(k as int)),
            decreases self.ids@.len() - k,
        {
            out.push(FileId { raw: self.ids[k] });
            assert(out@ =~= file_ids(self.ids@.take(k + 1)));
            k = k + 1;
        }
        assert(self.ids@.take(k as int) =~= self.ids@);
        out
    }
}

} // verus!
