//! Environments and the state of a walk.

use vstd::prelude::*;

use crate::disclosure::abs::{
    abses_view, same_abses, same_witnesses, witnesses_view, Abs, AbsView, Witness, WitnessView,
};
use crate::disclosure::model::{cached_from, CallView, EnvView};
use crate::text::same_text;
use crate::vfs::FileId;

verus! {

/// What each name is bound to. A later binding of a name hides an earlier one.
#[derive(Debug)]
pub struct Env {
    entries: Vec<(String, Abs)>,
}

/// The bindings of the first `n` entries.
pub open spec fn bindings_upto(entries: Seq<(String, Abs)>, n: int) -> EnvView
    decreases n,
{
    if 0 < n <= entries.len() {
        bindings_upto(entries, n - 1).insert(entries[n - 1].0@, entries[n - 1].1@)
    } else {
        Map::empty()
    }
}

proof fn lemma_bindings_prefix(a: Seq<(String, Abs)>, b: Seq<(String, Abs)>, n: int)
    requires
        n <= a.len(),
        n <= b.len(),
        forall|i: int| 0 <= i < n ==> a[i].0@ == b[i].0@ && a[i].1@ == b[i].1@,
    ensures
        bindings_upto(a, n) == bindings_upto(b, n),
    decreases n,
{
    if n > 0 {
        lemma_bindings_prefix(a, b, n - 1);
    }
}

impl View for Env {
    type V = EnvView;

    closed spec fn view(&self) -> EnvView {
        bindings_upto(self.entries@, self.entries@.len() as int)
    }
}

impl Env {
    /// An environment without bindings.
    pub fn new() -> (r: Env)
        ensures
            r@ == Map::<Seq<char>, AbsView>::empty(),
    {
        Env { entries: Vec::new() }
    }

    /// Binds a name.
    pub fn insert(&mut self, name: String, value: Abs)
        ensures
            final(self)@ == old(self)@.insert(name@, value@),
    {
        let ghost before = self.entries@;
        self.entries.push((name, value));
        proof {
            lemma_bindings_prefix(before, self.entries@, before.len() as int);
        }
    }

    /// What a name is bound to.
    pub fn get(&self, name: &str) -> (r: Option<&Abs>)
        ensures
            match r {
                Some(a) => self@.contains_key(name@) && a@ == self@[name@],
                None => !self@.contains_key(name@),
            },
    {
        let mut n: usize = self.entries.len();
        while n > 0
            invariant
                n <= self.entries@.len(),
                self@.contains_key(name@) <==> bindings_upto(
                    self.entries@,
                    n as int,
                ).contains_key(name@),
                self@.contains_key(name@) ==> self@[name@] == bindings_upto(
                    self.entries@,
                    n as int,
                )[name@],
            decreases n,
        {
            if same_text(&self.entries[n - 1].0, name) {
                return Some(&self.entries[n - 1].1);
            }
            n = n - 1;
        }
        None
    }
}

impl Clone for Env {
    fn clone(&self) -> (r: Self)
        ensures
            r@ == self@,
    {
        let mut entries: Vec<(String, Abs)> = Vec::new();
        let mut i: usize = 0;
        while i < self.entries.len()
            invariant
                i <= self.entries@.len(),
                entries@.len() == i,
                forall|j: int|
                    0 <= j < i ==> (#[trigger] entries@[j]).0@ == self.entries@[j].0@
                        && entries@[j].1@ == self.entries@[j].1@,
            decreases self.entries@.len() - i,
        {
            entries.push((self.entries[i].0.clone(), self.entries[i].1.clone()));
            i = i + 1;
        }
        proof {
            lemma_bindings_prefix(entries@, self.entries@, i as int);
        }
        Env { entries }
    }
}

/// A call that was walked, with what it came to.
pub struct CachedCall {
    pub file: FileId,
    pub symbol: u32,
    pub args: Vec<Abs>,
    pub control: Vec<Witness>,
    pub result: Abs,
}

impl View for CachedCall {
    type V = CallView;

    open spec fn view(&self) -> CallView {
        CallView {
            file: self.file,
            symbol: self.symbol,
            args: abses_view(self.args@),
            control: witnesses_view(self.control@),
            result: self.result@,
        }
    }
}

/// The values of a list of walked calls.
pub open spec fn calls_view(s: Seq<CachedCall>) -> Seq<CallView> {
    s.map_values(|c: CachedCall| c@)
}

/// The state of one walk over a root.
pub struct WalkState {
    /// The calls that were walked.
    pub cache: Vec<CachedCall>,
    /// The circuits on the path of calls.
    pub active: Vec<(FileId, u32)>,
    /// How deep the walk is in calls.
    pub depth: u32,
    /// The witnesses of values returned from inside control flow.
    pub ret_ws: Vec<Witness>,
}

impl WalkState {
    /// The state at the start of a walk.
    pub fn new() -> (r: WalkState)
        ensures
            calls_view(r.cache@) == Seq::<CallView>::empty(),
            r.active@ == Seq::<(FileId, u32)>::empty(),
            r.depth == 0,
            witnesses_view(r.ret_ws@) == Seq::<WitnessView>::empty(),
    {
        let r = WalkState {
            cache: Vec::new(),
            active: Vec::new(),
            depth: 0,
            ret_ws: Vec::new(),
        };
        assert(calls_view(r.cache@) =~= Seq::<CallView>::empty());
        assert(witnesses_view(r.ret_ws@) =~= Seq::<WitnessView>::empty());
        r
    }

    /// Whether a circuit is on the path of calls.
    pub fn is_active(&self, file: FileId, symbol: u32) -> (r: bool)
        ensures
            r == self.active@.contains((file, symbol)),
    {
        let mut i: usize = 0;
        while i < self.active.len()
            invariant
                i <= self.active@.len(),
                forall|j: int| 0 <= j < i ==> self.active@[j] != (file, symbol),
            decreases self.active@.len() - i,
        {
            if self.active[i].0 == file && self.active[i].1 == symbol {
                assert(self.active@[i as int] == (file, symbol));
                return true;
            }
            i = i + 1;
        }
        false
    }

    /// What the same call came to, where it was walked before.
    pub fn cached(&self, file: FileId, symbol: u32, args: &Vec<Abs>, control: &Vec<Witness>) -> (r:
        Option<&Abs>)
        ensures
            match r {
                Some(a) => cached_from(
                    calls_view(self.cache@),
                    0,
                    file,
                    symbol,
                    abses_view(args@),
                    witnesses_view(control@),
                ) == Some(a@),
                None => cached_from(
                    calls_view(self.cache@),
                    0,
                    file,
                    symbol,
                    abses_view(args@),
                    witnesses_view(control@),
                ) is None,
            },
    {
        let ghost list = calls_view(self.cache@);
        let ghost a = abses_view(args@);
        let ghost w = witnesses_view(control@);
        let mut k: usize = 0;
        while k < self.cache.len()
            invariant
                k <= self.cache@.len(),
                list == calls_view(self.cache@),
                a == abses_view(args@),
                w == witnesses_view(control@),
                cached_from(list, 0, file, symbol, a, w) == cached_from(
                    list,
                    k as int,
                    file,
                    symbol,
                    a,
                    w,
                ),
            decreases self.cache@.len() - k,
        {
            let e = &self.cache[k];
            assert(list[k as int] == e@);
            if e.file == file && e.symbol == symbol && same_abses(&e.args, args) && same_witnesses(
                &e.control,
                control,
            ) {
                return Some(&e.result);
            }
            k = k + 1;
        }
        None
    }
}

} // verus!
