//! The leak table and the advisories of one analysis run.

use vstd::prelude::*;
use vstd::string::*;

use crate::diagnostics::{plain_diag, DiagView, Diagnostic, DiagnosticCode, Severity};
use crate::disclosure::abs::{
    merge_witnesses, merged, witnesses_view, Witness, WitnessView,
};
use crate::disclosure::abs_laws::{has_uid, law_merge_unites};
use crate::text::{cat2, same_text, TextRange};

verus! {

/// A point that could not be decided.
#[derive(Debug, PartialEq, Eq)]
pub struct Advisory {
    pub src: TextRange,
    pub reason: String,
}

/// A confirmed leak at a sink. The table holds one entry per place and nature,
/// with the union of all witnesses recorded there.
#[derive(Debug, PartialEq, Eq)]
pub struct DisclosureLeak {
    pub src: TextRange,
    pub nature: String,
    pub witnesses: Vec<Witness>,
}

/// What an analysis run collects: advisories, the leak table and the counter
/// of witness uids.
#[derive(Debug)]
pub struct DisclosureSink {
    advisories: Vec<Advisory>,
    next_uid: u32,
    leaks: Vec<DisclosureLeak>,
}

/// The value of an [`Advisory`].
pub struct AdvisoryView {
    pub src: TextRange,
    pub reason: Seq<char>,
}

/// The value of a [`DisclosureLeak`].
pub struct LeakView {
    pub src: TextRange,
    pub nature: Seq<char>,
    pub witnesses: Seq<WitnessView>,
}

/// The value of a [`DisclosureSink`].
pub struct SinkView {
    pub advisories: Seq<AdvisoryView>,
    pub next_uid: u32,
    pub leaks: Seq<LeakView>,
}

impl View for Advisory {
    type V = AdvisoryView;

    open spec fn view(&self) -> AdvisoryView {
        AdvisoryView { src: self.src, reason: self.reason@ }
    }
}

impl View for DisclosureLeak {
    type V = LeakView;

    open spec fn view(&self) -> LeakView {
        LeakView {
            src: self.src,
            nature: self.nature@,
            witnesses: witnesses_view(self.witnesses@),
        }
    }
}

/// The values of a list of advisories.
pub open spec fn advisories_view(s: Seq<Advisory>) -> Seq<AdvisoryView> {
    s.map_values(|a: Advisory| a@)
}

/// The values of a list of leaks.
pub open spec fn leaks_view(s: Seq<DisclosureLeak>) -> Seq<LeakView> {
    s.map_values(|l: DisclosureLeak| l@)
}

impl View for DisclosureSink {
    type V = SinkView;

    closed spec fn view(&self) -> SinkView {
        SinkView {
            advisories: advisories_view(self.advisories@),
            next_uid: self.next_uid,
            leaks: leaks_view(self.leaks@),
        }
    }
}

/// The first entry at or after `i` for this place and nature, or the length.
pub open spec fn leak_index(leaks: Seq<LeakView>, i: int, src: TextRange, nature: Seq<char>) -> int
    decreases leaks.len() - i,
{
    if 0 <= i < leaks.len() {
        if leaks[i].src == src && leaks[i].nature == nature {
            i
        } else {
            leak_index(leaks, i + 1, src, nature)
        }
    } else {
        leaks.len() as int
    }
}

/// The table with one more hit: the witnesses are merged into the entry of the
/// same place and nature, or become a new entry. Without witnesses nothing
/// leaks.
pub open spec fn with_leak(
    leaks: Seq<LeakView>,
    src: TextRange,
    nature: Seq<char>,
    witnesses: Seq<WitnessView>,
) -> Seq<LeakView> {
    let k = leak_index(leaks, 0, src, nature);
    if witnesses.len() == 0 {
        leaks
    } else if k < leaks.len() {
        leaks.update(
            k,
            LeakView { witnesses: merged(leaks[k].witnesses, witnesses), ..leaks[k] },
        )
    } else {
        leaks.push(LeakView { src, nature, witnesses })
    }
}

/// `s` without the advisories from position `i` on that it holds already.
pub open spec fn distinct_from(
    all: Seq<AdvisoryView>,
    i: int,
    kept: Seq<AdvisoryView>,
) -> Seq<AdvisoryView>
    decreases all.len() - i,
{
    if 0 <= i < all.len() {
        if kept.contains(all[i]) {
            distinct_from(all, i + 1, kept)
        } else {
            distinct_from(all, i + 1, kept.push(all[i]))
        }
    } else {
        kept
    }
}

impl SinkView {
    /// The sink with an advisory added.
    pub open spec fn advised(self, src: TextRange, reason: Seq<char>) -> SinkView {
        SinkView { advisories: self.advisories.push(AdvisoryView { src, reason }), ..self }
    }

    /// The sink with a leak recorded.
    pub open spec fn leaked(
        self,
        src: TextRange,
        nature: Seq<char>,
        witnesses: Seq<WitnessView>,
    ) -> SinkView {
        SinkView { leaks: with_leak(self.leaks, src, nature, witnesses), ..self }
    }

    /// The sink with its next uid handed out.
    pub open spec fn counted(self) -> SinkView {
        SinkView { next_uid: uid_after(self.next_uid), ..self }
    }
}

/// The uid behind `uid`; the counter wraps around.
pub open spec fn uid_after(uid: u32) -> u32 {
    if uid < u32::MAX {
        (uid + 1) as u32
    } else {
        0
    }
}

/// A sink that has collected nothing.
pub open spec fn empty_sink() -> SinkView {
    SinkView { advisories: Seq::empty(), next_uid: 0, leaks: Seq::empty() }
}

impl DisclosureSink {
    /// A sink that has collected nothing.
    pub fn new() -> (r: DisclosureSink)
        ensures
            r@ == empty_sink(),
    {
        let r = DisclosureSink { advisories: Vec::new(), next_uid: 0, leaks: Vec::new() };
        assert(r@.advisories =~= Seq::<AdvisoryView>::empty());
        assert(r@.leaks =~= Seq::<LeakView>::empty());
        r
    }

    /// Records a point that could not be decided.
    pub fn emit_advisory(&mut self, src: TextRange, reason: &str)
        ensures
            final(self)@ == old(self)@.advised(src, reason@),
    {
        let ghost before = self@;
        self.advisories.push(Advisory { src, reason: reason.to_owned() });
        assert(self@.advisories =~= before.advisories.push(AdvisoryView { src, reason: reason@ }));
    }

    /// The advisories recorded so far.
    pub fn advisories(&self) -> (r: &Vec<Advisory>)
        ensures
            advisories_view(r@) == self@.advisories,
    {
        &self.advisories
    }

    /// Takes all advisories out, each place and reason once.
    pub fn drain_advisories(&mut self) -> (r: Vec<Advisory>)
        ensures
            advisories_view(r@) == distinct_from(old(self)@.advisories, 0, Seq::empty()),
            final(self)@ == (SinkView { advisories: Seq::empty(), ..old(self)@ }),
    {
        let ghost all = self@.advisories;
        let mut out: Vec<Advisory> = Vec::new();
        let mut i: usize = 0;
        assert(advisories_view(out@) =~= Seq::<AdvisoryView>::empty());
        while i < self.advisories.len()
            invariant
                i <= self.advisories@.len(),
                all == advisories_view(self.advisories@),
                self@ == old(self)@,
                distinct_from(all, 0, Seq::empty()) == distinct_from(
                    all,
                    i as int,
                    advisories_view(out@),
                ),
            decreases self.advisories@.len() - i,
        {
            let a = &self.advisories[i];
            assert(all[i as int] == a@);
            if !contains_advisory(&out, a) {
                let ghost before = advisories_view(out@);
                let copy = Advisory { src: a.src, reason: a.reason.clone() };
                out.push(copy);
                assert(advisories_view(out@) =~= before.push(all[i as int]));
            }
            i = i + 1;
        }
        self.advisories = Vec::new();
        assert(self@.advisories =~= Seq::<AdvisoryView>::empty());
        out
    }

    /// Records a leak at a sink. A second hit at the same place and of the
    /// same nature unites the witnesses; without witnesses nothing happens.
    pub fn record_leak(&mut self, src: TextRange, nature: &str, witnesses: Vec<Witness>)
        ensures
            final(self)@ == old(self)@.leaked(src, nature@, witnesses_view(witnesses@)),
    {
        let ghost before = self@;
        let ghost ws = witnesses_view(witnesses@);
        assert(ws.len() == witnesses@.len());
        if witnesses.len() == 0 {
            return;
        }
        let mut k: usize = 0;
        while k < self.leaks.len() && !(self.leaks[k].src == src && same_text(
            &self.leaks[k].nature,
            nature,
        ))
            invariant
                k <= self.leaks@.len(),
                before.leaks == leaks_view(self.leaks@),
                self@ == before,
                leak_index(before.leaks, 0, src, nature@) == leak_index(
                    before.leaks,
                    k as int,
                    src,
                    nature@,
                ),
            decreases self.leaks@.len() - k,
        {
            assert(before.leaks[k as int] == self.leaks@[k as int]@);
            k = k + 1;
        }
        if k < self.leaks.len() {
            assert(before.leaks[k as int] == self.leaks@[k as int]@);
            let united = merge_witnesses(&self.leaks[k].witnesses, &witnesses);
            let entry = DisclosureLeak { src, nature: nature.to_owned(), witnesses: united };
            self.leaks.set(k, entry);
        } else {
            self.leaks.push(DisclosureLeak { src, nature: nature.to_owned(), witnesses });
        }
        assert(self@.leaks =~= with_leak(before.leaks, src, nature@, ws));
    }

    /// Takes the leak table out.
    pub fn drain_leaks(&mut self) -> (r: Vec<DisclosureLeak>)
        ensures
            leaks_view(r@) == old(self)@.leaks,
            final(self)@ == (SinkView { leaks: Seq::empty(), ..old(self)@ }),
    {
        let mut out: Vec<DisclosureLeak> = Vec::new();
        std::mem::swap(&mut out, &mut self.leaks);
        assert(self@.leaks =~= Seq::<LeakView>::empty());
        out
    }

    /// The next uid. Uids go up by one from call to call.
    pub fn next_witness_uid(&mut self) -> (r: u32)
        ensures
            r == old(self)@.next_uid,
            final(self)@ == old(self)@.counted(),
    {
        let uid: u32 = self.next_uid;
        self.next_uid = if uid < u32::MAX {
            uid + 1
        } else {
            0
        };
        uid
    }
}

fn contains_advisory(list: &Vec<Advisory>, a: &Advisory) -> (r: bool)
    ensures
        r == advisories_view(list@).contains(a@),
{
    let mut i: usize = 0;
    while i < list.len()
        invariant
            i <= list@.len(),
            forall|j: int| 0 <= j < i ==> list@[j]@ != a@,
        decreases list@.len() - i,
    {
        if list[i].src == a.src && same_text(&list[i].reason, &a.reason) {
            assert(advisories_view(list@)[i as int] == a@);
            return true;
        }
        i = i + 1;
    }
    assert forall|j: int| 0 <= j < advisories_view(list@).len() implies advisories_view(list@)[j]
        != a@ by {
        assert(list@[j]@ != a@);
    }
    false
}

/// The warning that an advisory is shown as.
pub open spec fn advisory_diag(a: AdvisoryView) -> DiagView {
    plain_diag(
        Severity::Warning,
        "U"@,
        3100,
        "unverified (advisory — a clean editor is not a proof of privacy; compile is authoritative): "@
            + a.reason,
        a.src,
    )
}

/// Shows an advisory as a warning.
pub fn advisory_to_diagnostic(a: &Advisory) -> (r: Diagnostic)
    ensures
        r@ == advisory_diag(a@),
{
    let m = cat2(
        "unverified (advisory — a clean editor is not a proof of privacy; compile is authoritative): ",
        &a.reason,
    );
    Diagnostic::warning(DiagnosticCode::new("U", 3100), m, a.src)
}

// ---------------------------------------------------------------------------
// Laws
// ---------------------------------------------------------------------------

/// No two entries share place and nature.
pub open spec fn distinct_leaks(leaks: Seq<LeakView>) -> bool {
    forall|i: int, j: int|
        0 <= i < j < leaks.len() ==> !((#[trigger] leaks[i]).src == (#[trigger] leaks[j]).src
            && leaks[i].nature == leaks[j].nature)
}

/// Every entry of the table has a witness.
pub open spec fn tainted_leaks(leaks: Seq<LeakView>) -> bool {
    forall|i: int| 0 <= i < leaks.len() ==> (#[trigger] leaks[i]).witnesses.len() > 0
}

proof fn lemma_leak_index(leaks: Seq<LeakView>, i: int, src: TextRange, nature: Seq<char>)
    requires
        0 <= i <= leaks.len(),
    ensures
        i <= leak_index(leaks, i, src, nature) <= leaks.len(),
        forall|j: int|
            i <= j < leak_index(leaks, i, src, nature) ==> !((#[trigger] leaks[j]).src == src
                && leaks[j].nature == nature),
        leak_index(leaks, i, src, nature) < leaks.len() ==> {
            let k = leak_index(leaks, i, src, nature);
            leaks[k].src == src && leaks[k].nature == nature
        },
    decreases leaks.len() - i,
{
    if i < leaks.len() && !(leaks[i].src == src && leaks[i].nature == nature) {
        lemma_leak_index(leaks, i + 1, src, nature);
    }
}

/// Recording keeps the table free of duplicates: one entry per place and
/// nature, and each of them tainted.
pub proof fn law_leak_table_dedups(
    leaks: Seq<LeakView>,
    src: TextRange,
    nature: Seq<char>,
    witnesses: Seq<WitnessView>,
)
    requires
        distinct_leaks(leaks),
        tainted_leaks(leaks),
    ensures
        distinct_leaks(with_leak(leaks, src, nature, witnesses)),
        tainted_leaks(with_leak(leaks, src, nature, witnesses)),
{
    lemma_leak_index(leaks, 0, src, nature);
    let k = leak_index(leaks, 0, src, nature);
    let r = with_leak(leaks, src, nature, witnesses);
    if witnesses.len() > 0 && k < leaks.len() {
        lemma_merge_nonempty(leaks[k].witnesses, witnesses);
        assert(forall|i: int|
            0 <= i < leaks.len() ==> (#[trigger] r[i]).src == leaks[i].src && r[i].nature
                == leaks[i].nature);
        assert forall|i: int, j: int| 0 <= i < j < r.len() implies !((#[trigger] r[i]).src == (
        #[trigger] r[j]).src && r[i].nature == r[j].nature) by {
            assert(!(leaks[i].src == leaks[j].src && leaks[i].nature == leaks[j].nature));
        }
        assert forall|i: int| 0 <= i < r.len() implies (#[trigger] r[i]).witnesses.len() > 0 by {
            assert(leaks[i].witnesses.len() > 0);
        }
    } else if witnesses.len() > 0 {
        assert forall|i: int, j: int| 0 <= i < j < r.len() implies !((#[trigger] r[i]).src == (
        #[trigger] r[j]).src && r[i].nature == r[j].nature) by {
            if j < leaks.len() {
                assert(!(leaks[i].src == leaks[j].src && leaks[i].nature == leaks[j].nature));
            } else {
                assert(!(leaks[i].src == src && leaks[i].nature == nature));
            }
        }
        assert forall|i: int| 0 <= i < r.len() implies (#[trigger] r[i]).witnesses.len() > 0 by {
            if i < leaks.len() {
                assert(leaks[i].witnesses.len() > 0);
            }
        }
    }
}

proof fn lemma_merge_nonempty(a: Seq<WitnessView>, b: Seq<WitnessView>)
    requires
        a.len() > 0,
    ensures
        merged(a, b).len() > 0,
{
    law_merge_unites(a, b, a[0].uid);
    assert(has_uid(a, a[0].uid));
}

/// Recording never loses anything: every entry stays, with at least its
/// witnesses.
pub proof fn law_leaks_are_kept(
    leaks: Seq<LeakView>,
    src: TextRange,
    nature: Seq<char>,
    witnesses: Seq<WitnessView>,
    i: int,
    uid: u32,
)
    requires
        0 <= i < leaks.len(),
    ensures
        with_leak(leaks, src, nature, witnesses).len() >= leaks.len(),
        with_leak(leaks, src, nature, witnesses)[i].src == leaks[i].src,
        with_leak(leaks, src, nature, witnesses)[i].nature == leaks[i].nature,
        has_uid(leaks[i].witnesses, uid) ==> has_uid(
            with_leak(leaks, src, nature, witnesses)[i].witnesses,
            uid,
        ),
{
    lemma_leak_index(leaks, 0, src, nature);
    law_merge_unites(leaks[i].witnesses, witnesses, uid);
}

/// Whatever is recorded with a witness is in the table afterwards, with that
/// witness.
pub proof fn law_recorded_leak_is_found(
    leaks: Seq<LeakView>,
    src: TextRange,
    nature: Seq<char>,
    witnesses: Seq<WitnessView>,
    uid: u32,
)
    requires
        has_uid(witnesses, uid),
    ensures
        exists|i: int|
            0 <= i < with_leak(leaks, src, nature, witnesses).len() && (#[trigger] with_leak(
                leaks,
                src,
                nature,
                witnesses,
            )[i]).src == src && with_leak(leaks, src, nature, witnesses)[i].nature == nature
                && has_uid(with_leak(leaks, src, nature, witnesses)[i].witnesses, uid),
{
    lemma_leak_index(leaks, 0, src, nature);
    let k = leak_index(leaks, 0, src, nature);
    let r = with_leak(leaks, src, nature, witnesses);
    if k < leaks.len() {
        law_merge_unites(leaks[k].witnesses, witnesses, uid);
    }
    assert(r[k].src == src && r[k].nature == nature && has_uid(r[k].witnesses, uid));
}

proof fn lemma_distinct(all: Seq<AdvisoryView>, i: int, kept: Seq<AdvisoryView>)
    requires
        0 <= i <= all.len(),
        kept.no_duplicates(),
        forall|j: int| 0 <= j < i ==> kept.contains(#[trigger] all[j]),
        forall|j: int| 0 <= j < kept.len() ==> all.contains(#[trigger] kept[j]),
    ensures
        distinct_from(all, i, kept).no_duplicates(),
        forall|a: AdvisoryView|
            #![trigger all.contains(a)]
            distinct_from(all, i, kept).contains(a) <==> all.contains(a),
    decreases all.len() - i,
{
    if i < all.len() {
        if kept.contains(all[i]) {
            lemma_distinct(all, i + 1, kept);
        } else {
            let more = kept.push(all[i]);
            assert forall|j: int| 0 <= j < i + 1 implies more.contains(#[trigger] all[j]) by {
                if j < i {
                    let k = choose|k: int| 0 <= k < kept.len() && kept[k] == all[j];
                    assert(more[k] == all[j]);
                } else {
                    assert(more[kept.len() as int] == all[i]);
                }
            }
            assert forall|j: int| 0 <= j < more.len() implies all.contains(#[trigger] more[j]) by {
                if j < kept.len() {
                    assert(all.contains(kept[j]));
                } else {
                    assert(all[i] == more[j]);
                }
            }
            lemma_distinct(all, i + 1, more);
        }
    } else {
        assert forall|a: AdvisoryView|
            #![trigger all.contains(a)]
            kept.contains(a) <==> all.contains(a) by {
            if kept.contains(a) {
                let k = choose|k: int| 0 <= k < kept.len() && kept[k] == a;
                assert(all.contains(kept[k]));
            }
            if all.contains(a) {
                let k = choose|k: int| 0 <= k < all.len() && all[k] == a;
                assert(kept.contains(all[k]));
            }
        }
    }
}

/// Draining gives back each recorded advisory exactly once.
pub proof fn law_drained_advisories(all: Seq<AdvisoryView>)
    ensures
        distinct_from(all, 0, Seq::empty()).no_duplicates(),
        forall|a: AdvisoryView|
            #![trigger all.contains(a)]
            distinct_from(all, 0, Seq::empty()).contains(a) <==> all.contains(a),
{
    lemma_distinct(all, 0, Seq::empty());
}

} // verus!
