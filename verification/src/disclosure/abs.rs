//! The abstract-value lattice of the disclosure analysis.
//!
//! Struct and tuple fields are tracked one by one (`Multiple`), arrays as a
//! whole (`Single`), `Boolean` stands for compile-time constants only, and
//! everything else is `Atomic`.

use vstd::prelude::*;

use crate::text::{same_text, TextRange};

verus! {

/// Where a witness value entered the program.
#[derive(Debug, PartialEq, Eq)]
pub enum WitnessInfo {
    WitnessReturn { function: String },
    ConstructorArg { arg: String },
    CircuitArg { function: String, arg: String },
}

/// A point on the trail from a witness to a sink.
#[derive(Debug, PartialEq, Eq)]
pub struct PathPoint {
    pub src: TextRange,
    pub description: String,
    /// Empty when the value reaches the point unmodified.
    pub exposure: String,
}

/// One tracked witness value: where it entered and the path it has taken.
#[derive(Debug, PartialEq, Eq)]
pub struct Witness {
    pub uid: u32,
    pub src: TextRange,
    pub info: WitnessInfo,
    pub path: Vec<PathPoint>,
}

/// An abstract value.
#[derive(Debug, PartialEq, Eq)]
pub enum Abs {
    Atomic(Vec<Witness>),
    Boolean { value: bool, witnesses: Vec<Witness> },
    Multiple(Vec<Abs>),
    Single(Box<Abs>),
}

/// The value of a [`WitnessInfo`].
pub enum InfoView {
    WitnessReturn { function: Seq<char> },
    ConstructorArg { arg: Seq<char> },
    CircuitArg { function: Seq<char>, arg: Seq<char> },
}

/// The value of a [`PathPoint`].
pub struct PointView {
    pub src: TextRange,
    pub description: Seq<char>,
    pub exposure: Seq<char>,
}

/// The value of a [`Witness`].
pub struct WitnessView {
    pub uid: u32,
    pub src: TextRange,
    pub info: InfoView,
    pub path: Seq<PointView>,
}

/// The value of an [`Abs`].
pub enum AbsView {
    Atomic(Seq<WitnessView>),
    Boolean { value: bool, witnesses: Seq<WitnessView> },
    Multiple(Seq<AbsView>),
    Single(Box<AbsView>),
}

impl View for WitnessInfo {
    type V = InfoView;

    open spec fn view(&self) -> InfoView {
        match self {
            WitnessInfo::WitnessReturn { function } => InfoView::WitnessReturn {
                function: function@,
            },
            WitnessInfo::ConstructorArg { arg } => InfoView::ConstructorArg { arg: arg@ },
            WitnessInfo::CircuitArg { function, arg } => InfoView::CircuitArg {
                function: function@,
                arg: arg@,
            },
        }
    }
}

impl View for PathPoint {
    type V = PointView;

    open spec fn view(&self) -> PointView {
        PointView { src: self.src, description: self.description@, exposure: self.exposure@ }
    }
}

/// The values of a sequence of path points.
pub open spec fn points_view(s: Seq<PathPoint>) -> Seq<PointView> {
    s.map_values(|p: PathPoint| p@)
}

impl View for Witness {
    type V = WitnessView;

    open spec fn view(&self) -> WitnessView {
        WitnessView {
            uid: self.uid,
            src: self.src,
            info: self.info@,
            path: points_view(self.path@),
        }
    }
}

/// The values of a sequence of witnesses.
pub open spec fn witnesses_view(s: Seq<Witness>) -> Seq<WitnessView> {
    s.map_values(|w: Witness| w@)
}

impl Abs {
    pub open spec fn model(&self) -> AbsView
        decreases self,
    {
        match self {
            Abs::Atomic(ws) => AbsView::Atomic(witnesses_view(ws@)),
            Abs::Boolean { value, witnesses } => AbsView::Boolean {
                value: *value,
                witnesses: witnesses_view(witnesses@),
            },
            Abs::Multiple(items) => AbsView::Multiple(
                Seq::new(
                    items@.len(),
                    |i: int|
                        if 0 <= i < items@.len() {
                            items@[i].model()
                        } else {
                            arbitrary()
                        },
                ),
            ),
            Abs::Single(inner) => AbsView::Single(Box::new(inner.model())),
        }
    }
}

impl View for Abs {
    type V = AbsView;

    open spec fn view(&self) -> AbsView {
        self.model()
    }
}


/// A list of abstract values seen as a list of their models.
pub open spec fn abses_view(s: Seq<Abs>) -> Seq<AbsView> {
    s.map_values(|a: Abs| a@)
}

/// The model of a `Multiple` lists the models of its children.
pub proof fn lemma_multiple_view(items: Vec<Abs>)
    ensures
        Abs::Multiple(items)@ == AbsView::Multiple(abses_view(items@)),
{
    assert(Abs::Multiple(items)@->Multiple_0 =~= abses_view(items@));
}

impl Clone for WitnessInfo {
    fn clone(&self) -> (r: Self)
        ensures
            r@ == self@,
    {
        match self {
            WitnessInfo::WitnessReturn { function } => WitnessInfo::WitnessReturn {
                function: function.clone(),
            },
            WitnessInfo::ConstructorArg { arg } => WitnessInfo::ConstructorArg { arg: arg.clone() },
            WitnessInfo::CircuitArg { function, arg } => WitnessInfo::CircuitArg {
                function: function.clone(),
                arg: arg.clone(),
            },
        }
    }
}

impl Clone for PathPoint {
    fn clone(&self) -> (r: Self)
        ensures
            r@ == self@,
    {
        PathPoint {
            src: self.src,
            description: self.description.clone(),
            exposure: self.exposure.clone(),
        }
    }
}

impl Clone for Witness {
    fn clone(&self) -> (r: Self)
        ensures
            r@ == self@,
    {
        let mut path: Vec<PathPoint> = Vec::new();
        extend_points(&mut path, &self.path);
        assert(points_view(path@) =~= points_view(self.path@));
        Witness { uid: self.uid, src: self.src, info: self.info.clone(), path }
    }
}

impl Clone for Abs {
    fn clone(&self) -> (r: Self)
        ensures
            r@ == self@,
        decreases self,
    {
        match self {
            Abs::Atomic(ws) => Abs::Atomic(clone_witnesses(ws)),
            Abs::Boolean { value, witnesses } => Abs::Boolean {
                value: *value,
                witnesses: clone_witnesses(witnesses),
            },
            Abs::Multiple(items) => {
                let mut out: Vec<Abs> = Vec::new();
                let mut i: usize = 0;
                while i < items.len()
                    invariant
                        i <= items@.len(),
                        *self is Multiple,
                        self->Multiple_0 == *items,
                        abses_view(out@) == abses_view(items@.take(i as int)),
                    decreases items@.len() - i,
                {
                    assert(decreases_to!(*items => items@[i as int]));
                    let a = items[i].clone();
                    proof {
                        assert(items@.take(i + 1) =~= items@.take(i as int).push(items@[i as int]));
                        assert(abses_view(out@.push(a)) =~= abses_view(out@).push(a@));
                        assert(abses_view(items@.take(i + 1)) =~= abses_view(
                            items@.take(i as int),
                        ).push(items@[i as int]@));
                    }
                    out.push(a);
                    i = i + 1;
                }
                proof {
                    assert(items@.take(i as int) =~= items@);
                    lemma_multiple_view(*items);
                    lemma_multiple_view(out);
                }
                Abs::Multiple(out)
            },
            Abs::Single(inner) => Abs::Single(Box::new((**inner).clone())),
        }
    }
}

/// Appends copies of `more` to `out`.
pub fn extend_points(out: &mut Vec<PathPoint>, more: &Vec<PathPoint>)
    ensures
        points_view(final(out)@) == points_view(old(out)@) + points_view(more@),
{
    let mut i: usize = 0;
    assert(points_view(old(out)@) =~= points_view(old(out)@) + points_view(more@.take(0)));
    while i < more.len()
        invariant
            i <= more@.len(),
            points_view(out@) == points_view(old(out)@) + points_view(more@.take(i as int)),
        decreases more@.len() - i,
    {
        let p = more[i].clone();
        proof {
            assert(more@.take(i + 1) =~= more@.take(i as int).push(more@[i as int]));
            assert(points_view(out@.push(p)) =~= points_view(out@).push(p@));
            assert(points_view(more@.take(i + 1)) =~= points_view(more@.take(i as int)).push(
                more@[i as int]@,
            ));
        }
        out.push(p);
        i = i + 1;
    }
    assert(more@.take(i as int) =~= more@);
}

/// A copy of a list of witnesses.
pub fn clone_witnesses(ws: &Vec<Witness>) -> (r: Vec<Witness>)
    ensures
        witnesses_view(r@) == witnesses_view(ws@),
{
    let mut out: Vec<Witness> = Vec::new();
    let mut i: usize = 0;
    while i < ws.len()
        invariant
            i <= ws@.len(),
            witnesses_view(out@) == witnesses_view(ws@.take(i as int)),
        decreases ws@.len() - i,
    {
        let w = ws[i].clone();
        proof {
            assert(ws@.take(i + 1) =~= ws@.take(i as int).push(ws@[i as int]));
            assert(witnesses_view(out@.push(w)) =~= witnesses_view(out@).push(w@));
            assert(witnesses_view(ws@.take(i + 1)) =~= witnesses_view(ws@.take(i as int)).push(
                ws@[i as int]@,
            ));
        }
        out.push(w);
        i = i + 1;
    }
    assert(ws@.take(i as int) =~= ws@);
    out
}


// ---------------------------------------------------------------------------
// Comparing witnesses
// ---------------------------------------------------------------------------

fn same_info(a: &WitnessInfo, b: &WitnessInfo) -> (r: bool)
    ensures
        r == (a@ == b@),
{
    match (a, b) {
        (
            WitnessInfo::WitnessReturn { function: f },
            WitnessInfo::WitnessReturn { function: g },
        ) => same_text(f, g),
        (WitnessInfo::ConstructorArg { arg: x }, WitnessInfo::ConstructorArg { arg: y }) =>
            same_text(x, y),
        (
            WitnessInfo::CircuitArg { function: f, arg: x },
            WitnessInfo::CircuitArg { function: g, arg: y },
        ) => same_text(f, g) && same_text(x, y),
        _ => false,
    }
}

/// Whether two path points are equal in every field.
pub fn same_point(a: &PathPoint, b: &PathPoint) -> (r: bool)
    ensures
        r == (a@ == b@),
{
    a.src == b.src && same_text(&a.description, &b.description) && same_text(
        &a.exposure,
        &b.exposure,
    )
}

fn same_path(a: &Vec<PathPoint>, b: &Vec<PathPoint>) -> (r: bool)
    ensures
        r == (points_view(a@) == points_view(b@)),
{
    if a.len() != b.len() {
        assert(points_view(a@).len() != points_view(b@).len());
        return false;
    }
    let mut i: usize = 0;
    while i < a.len()
        invariant
            i <= a@.len(),
            a@.len() == b@.len(),
            forall|j: int| 0 <= j < i ==> a@[j]@ == b@[j]@,
        decreases a@.len() - i,
    {
        if !same_point(&a[i], &b[i]) {
            assert(points_view(a@)[i as int] != points_view(b@)[i as int]);
            return false;
        }
        i = i + 1;
    }
    assert(points_view(a@) =~= points_view(b@));
    true
}

fn same_witness(a: &Witness, b: &Witness) -> (r: bool)
    ensures
        r == (a@ == b@),
{
    a.uid == b.uid && a.src == b.src && same_info(&a.info, &b.info) && same_path(&a.path, &b.path)
}

/// Whether two lists hold equal witnesses in the same order.
pub fn same_witnesses(a: &Vec<Witness>, b: &Vec<Witness>) -> (r: bool)
    ensures
        r == (witnesses_view(a@) == witnesses_view(b@)),
{
    if a.len() != b.len() {
        assert(witnesses_view(a@).len() != witnesses_view(b@).len());
        return false;
    }
    let mut i: usize = 0;
    while i < a.len()
        invariant
            i <= a@.len(),
            a@.len() == b@.len(),
            forall|j: int| 0 <= j < i ==> a@[j]@ == b@[j]@,
        decreases a@.len() - i,
    {
        if !same_witness(&a[i], &b[i]) {
            assert(witnesses_view(a@)[i as int] != witnesses_view(b@)[i as int]);
            return false;
        }
        i = i + 1;
    }
    assert(witnesses_view(a@) =~= witnesses_view(b@));
    true
}

/// Whether two abstract values are equal, witness order included.
pub fn same_abs(a: &Abs, b: &Abs) -> (r: bool)
    ensures
        r == (a@ == b@),
    decreases a,
{
    match (a, b) {
        (Abs::Atomic(w1), Abs::Atomic(w2)) => same_witnesses(w1, w2),
        (
            Abs::Boolean { value: t1, witnesses: w1 },
            Abs::Boolean { value: t2, witnesses: w2 },
        ) => *t1 == *t2 && same_witnesses(w1, w2),
        (Abs::Multiple(a1), Abs::Multiple(a2)) => {
            proof {
                lemma_multiple_view(*a1);
                lemma_multiple_view(*a2);
            }
            if a1.len() != a2.len() {
                assert(abses_view(a1@).len() != abses_view(a2@).len());
                return false;
            }
            let mut i: usize = 0;
            while i < a1.len()
                invariant
                    i <= a1@.len(),
                    a1@.len() == a2@.len(),
                    a is Multiple,
                    a->Multiple_0 == *a1,
                    a@ == AbsView::Multiple(abses_view(a1@)),
                    b@ == AbsView::Multiple(abses_view(a2@)),
                    forall|j: int| 0 <= j < i ==> a1@[j]@ == a2@[j]@,
                decreases a1@.len() - i,
            {
                assert(decreases_to!(*a1 => a1@[i as int]));
                if !same_abs(&a1[i], &a2[i]) {
                    assert(abses_view(a1@)[i as int] != abses_view(a2@)[i as int]);
                    return false;
                }
                i = i + 1;
            }
            assert(abses_view(a1@) =~= abses_view(a2@));
            true
        },
        (Abs::Single(a1), Abs::Single(a2)) => same_abs(a1, a2),
        _ => false,
    }
}

/// Whether two lists hold equal abstract values in the same order.
pub fn same_abses(a: &Vec<Abs>, b: &Vec<Abs>) -> (r: bool)
    ensures
        r == (abses_view(a@) == abses_view(b@)),
{
    if a.len() != b.len() {
        assert(abses_view(a@).len() != abses_view(b@).len());
        return false;
    }
    let mut i: usize = 0;
    while i < a.len()
        invariant
            i <= a@.len(),
            a@.len() == b@.len(),
            forall|j: int| 0 <= j < i ==> a@[j]@ == b@[j]@,
        decreases a@.len() - i,
    {
        if !same_abs(&a[i], &b[i]) {
            assert(abses_view(a@)[i as int] != abses_view(b@)[i as int]);
            return false;
        }
        i = i + 1;
    }
    assert(abses_view(a@) =~= abses_view(b@));
    true
}

// ---------------------------------------------------------------------------
// Merging witness lists
// ---------------------------------------------------------------------------

/// The first position at or after `i` whose witness has `uid`, or the length
/// of the list.
pub open spec fn uid_index(s: Seq<WitnessView>, uid: u32, i: int) -> int
    decreases s.len() - i,
{
    if i < 0 || i >= s.len() {
        s.len() as int
    } else if s[i].uid == uid {
        i
    } else {
        uid_index(s, uid, i + 1)
    }
}

/// `s` with one more witness: its path extends the path of the entry with the
/// same uid, and where there is none it becomes a new entry at the end.
pub open spec fn absorb(s: Seq<WitnessView>, w: WitnessView) -> Seq<WitnessView> {
    let k = uid_index(s, w.uid, 0);
    if k < s.len() {
        s.update(k, WitnessView { path: s[k].path + w.path, ..s[k] })
    } else {
        s.push(w)
    }
}

/// `s` with every witness of `more` from position `i` on absorbed, in order.
pub open spec fn absorb_from(s: Seq<WitnessView>, more: Seq<WitnessView>, i: int) -> Seq<
    WitnessView,
>
    decreases more.len() - i,
{
    if i < 0 || i >= more.len() {
        s
    } else {
        absorb_from(absorb(s, more[i]), more, i + 1)
    }
}

/// `s` with `w` put in behind every trailing entry of a smaller or equal uid.
pub open spec fn insert_by_uid(s: Seq<WitnessView>, w: WitnessView) -> Seq<WitnessView>
    decreases s.len(),
{
    if s.len() == 0 || s.last().uid <= w.uid {
        s.push(w)
    } else {
        insert_by_uid(s.drop_last(), w).push(s.last())
    }
}

/// `s` in ascending order of uid; entries of one uid keep their order.
pub open spec fn sort_by_uid(s: Seq<WitnessView>) -> Seq<WitnessView>
    decreases s.len(),
{
    if s.len() == 0 {
        s
    } else {
        insert_by_uid(sort_by_uid(s.drop_last()), s.last())
    }
}

/// The union of two witness lists: one entry per uid, ascending, the paths of
/// entries with one uid joined.
pub open spec fn merged(w1: Seq<WitnessView>, w2: Seq<WitnessView>) -> Seq<WitnessView> {
    sort_by_uid(absorb_from(absorb_from(Seq::empty(), w1, 0), w2, 0))
}

proof fn lemma_insert_at(s: Seq<WitnessView>, w: WitnessView, p: int)
    requires
        0 <= p <= s.len(),
        p > 0 ==> s[p - 1].uid <= w.uid,
        forall|j: int| p <= j < s.len() ==> s[j].uid > w.uid,
    ensures
        insert_by_uid(s, w) == s.insert(p, w),
    decreases s.len(),
{
    if p == s.len() {
        assert(s.insert(p, w) =~= s.push(w));
    } else {
        assert(s.last().uid > w.uid);
        lemma_insert_at(s.drop_last(), w, p);
        assert(s.insert(p, w) =~= s.drop_last().insert(p, w).push(s.last()));
    }
}

fn position_of_uid(ws: &Vec<Witness>, uid: u32) -> (r: usize)
    ensures
        r == uid_index(witnesses_view(ws@), uid, 0),
        r <= ws@.len(),
{
    let mut i: usize = 0;
    while i < ws.len()
        invariant
            i <= ws@.len(),
            uid_index(witnesses_view(ws@), uid, 0) == uid_index(witnesses_view(ws@), uid, i as int),
        decreases ws@.len() - i,
    {
        if ws[i].uid == uid {
            return i;
        }
        i = i + 1;
    }
    i
}

fn sort_witnesses(ws: &mut Vec<Witness>)
    ensures
        witnesses_view(final(ws)@) == sort_by_uid(witnesses_view(old(ws)@)),
{
    let ghost orig = witnesses_view(ws@);
    let n: usize = ws.len();
    let mut i: usize = 0;
    assert(orig.take(0) =~= Seq::<WitnessView>::empty());
    assert(witnesses_view(ws@).take(0) =~= Seq::<WitnessView>::empty());
    while i < n
        invariant
            i <= n,
            ws@.len() == n,
            orig.len() == n,
            witnesses_view(ws@).take(i as int) == sort_by_uid(orig.take(i as int)),
            witnesses_view(ws@).skip(i as int) == orig.skip(i as int),
        decreases n - i,
    {
        let ghost before = witnesses_view(ws@);
        let uid: u32 = ws[i].uid;
        let mut p: usize = i;
        while p > 0 && ws[p - 1].uid > uid
            invariant
                p <= i < n,
                ws@.len() == n,
                uid == ws@[i as int].uid,
                forall|j: int| p <= j < i ==> ws@[j].uid > uid,
            decreases p,
        {
            p = p - 1;
        }
        let ghost w = ws@[i as int]@;
        let x = ws.remove(i);
        ws.insert(p, x);
        proof {
            let pre = before.take(i as int);
            assert(orig.skip(i as int)[0] == before.skip(i as int)[0]);
            assert(w == orig[i as int]);
            assert(orig.take(i + 1).drop_last() =~= orig.take(i as int));
            assert(orig.take(i + 1).last() == w);
            lemma_insert_at(pre, w, p as int);
            assert(witnesses_view(ws@).take(i + 1) =~= pre.insert(p as int, w));
            assert(witnesses_view(ws@).skip(i + 1) =~= before.skip(i as int).skip(1));
            assert(orig.skip(i + 1) =~= orig.skip(i as int).skip(1));
        }
        i = i + 1;
    }
    assert(orig.take(n as int) =~= orig);
    assert(witnesses_view(ws@).take(n as int) =~= witnesses_view(ws@));
}

fn absorb_witnesses(out: &mut Vec<Witness>, more: &Vec<Witness>)
    ensures
        witnesses_view(final(out)@) == absorb_from(
            witnesses_view(old(out)@),
            witnesses_view(more@),
            0,
        ),
{
    let ghost list = witnesses_view(more@);
    let ghost whole = absorb_from(witnesses_view(out@), list, 0);
    let mut i: usize = 0;
    while i < more.len()
        invariant
            i <= more@.len(),
            list == witnesses_view(more@),
            whole == absorb_from(witnesses_view(out@), list, i as int),
        decreases more@.len() - i,
    {
        let ghost before = witnesses_view(out@);
        let k: usize = position_of_uid(out, more[i].uid);
        if k < out.len() {
            let mut path: Vec<PathPoint> = Vec::new();
            extend_points(&mut path, &out[k].path);
            extend_points(&mut path, &more[i].path);
            let joined = Witness {
                uid: out[k].uid,
                src: out[k].src,
                info: out[k].info.clone(),
                path,
            };
            assert(points_view(path@) =~= before[k as int].path + list[i as int].path);
            out.set(k, joined);
            assert(witnesses_view(out@) =~= absorb(before, list[i as int]));
        } else {
            let w = more[i].clone();
            out.push(w);
            assert(witnesses_view(out@) =~= absorb(before, list[i as int]));
        }
        i = i + 1;
    }
}

/// Union of two witness lists: one entry per uid, ascending by uid. Where a uid
/// occurs more than once the paths are joined, so no part of a trail is lost.
pub fn merge_witnesses(w1: &Vec<Witness>, w2: &Vec<Witness>) -> (r: Vec<Witness>)
    ensures
        witnesses_view(r@) == merged(witnesses_view(w1@), witnesses_view(w2@)),
{
    let mut out: Vec<Witness> = Vec::new();
    assert(witnesses_view(out@) =~= Seq::<WitnessView>::empty());
    absorb_witnesses(&mut out, w1);
    absorb_witnesses(&mut out, w2);
    sort_witnesses(&mut out);
    out
}

// ---------------------------------------------------------------------------
// Lattice operations
// ---------------------------------------------------------------------------

/// `a` with every witness removed, its shape kept.
pub open spec fn disclosed(a: AbsView) -> AbsView
    decreases a,
{
    match a {
        AbsView::Atomic(_) => AbsView::Atomic(Seq::empty()),
        AbsView::Boolean { value, .. } => AbsView::Boolean { value, witnesses: Seq::empty() },
        AbsView::Multiple(items) => AbsView::Multiple(
            Seq::new(
                items.len(),
                |i: int|
                    if 0 <= i < items.len() {
                        disclosed(items[i])
                    } else {
                        arbitrary()
                    },
            ),
        ),
        AbsView::Single(inner) => AbsView::Single(Box::new(disclosed(*inner))),
    }
}

/// The witnesses of the first `n` of `items`, merged from the left.
pub open spec fn witnesses_upto(items: Seq<AbsView>, n: int) -> Seq<WitnessView>
    decreases items, n,
{
    if n <= 0 || n > items.len() {
        Seq::empty()
    } else {
        merged(witnesses_upto(items, n - 1), all_witnesses(items[n - 1]))
    }
}

/// Every witness reachable from `a`; those of the children of a `Multiple`
/// are merged from the left.
pub open spec fn all_witnesses(a: AbsView) -> Seq<WitnessView>
    decreases a,
{
    match a {
        AbsView::Atomic(ws) => ws,
        AbsView::Boolean { witnesses, .. } => witnesses,
        AbsView::Multiple(items) => witnesses_upto(items, items.len() as int),
        AbsView::Single(inner) => all_witnesses(*inner),
    }
}

/// The join of two abstract values.
pub open spec fn joined(a: AbsView, b: AbsView) -> AbsView
    decreases a, b,
{
    match (a, b) {
        (AbsView::Atomic(w1), AbsView::Atomic(w2)) => AbsView::Atomic(merged(w1, w2)),
        (
            AbsView::Boolean { value: t1, witnesses: w1 },
            AbsView::Boolean { value: t2, witnesses: w2 },
        ) => if t1 == t2 {
            AbsView::Boolean { value: t1, witnesses: merged(w1, w2) }
        } else {
            AbsView::Atomic(merged(w1, w2))
        },
        (AbsView::Boolean { witnesses: w1, .. }, AbsView::Atomic(w2)) => AbsView::Atomic(
            merged(w1, w2),
        ),
        (AbsView::Atomic(w2), AbsView::Boolean { witnesses: w1, .. }) => AbsView::Atomic(
            merged(w1, w2),
        ),
        (AbsView::Multiple(a1), AbsView::Multiple(a2)) => AbsView::Multiple(
            Seq::new(
                if a1.len() <= a2.len() {
                    a1.len()
                } else {
                    a2.len()
                },
                |i: int|
                    if 0 <= i < a1.len() && i < a2.len() {
                        joined(a1[i], a2[i])
                    } else {
                        arbitrary()
                    },
            ),
        ),
        (AbsView::Single(a1), AbsView::Single(a2)) => AbsView::Single(Box::new(joined(*a1, *a2))),
        (AbsView::Multiple(a1), AbsView::Single(a2)) => AbsView::Multiple(
            Seq::new(
                a1.len(),
                |i: int|
                    if 0 <= i < a1.len() {
                        joined(a1[i], *a2)
                    } else {
                        arbitrary()
                    },
            ),
        ),
        (AbsView::Single(a1), AbsView::Multiple(a2)) => AbsView::Multiple(
            Seq::new(
                a2.len(),
                |i: int|
                    if 0 <= i < a2.len() {
                        joined(*a1, a2[i])
                    } else {
                        arbitrary()
                    },
            ),
        ),
        _ => AbsView::Atomic(merged(all_witnesses(a), all_witnesses(b))),
    }
}

/// Same shape, and at every level the same witnesses in whatever order of uids.
pub open spec fn equivalent(a: AbsView, b: AbsView) -> bool
    decreases a,
{
    match (a, b) {
        (AbsView::Atomic(w1), AbsView::Atomic(w2)) => sort_by_uid(w1) == sort_by_uid(w2),
        (
            AbsView::Boolean { value: t1, witnesses: w1 },
            AbsView::Boolean { value: t2, witnesses: w2 },
        ) => t1 == t2 && sort_by_uid(w1) == sort_by_uid(w2),
        (AbsView::Multiple(a1), AbsView::Multiple(a2)) => a1.len() == a2.len() && forall|i: int|
            0 <= i < a1.len() ==> equivalent(#[trigger] a1[i], a2[i]),
        (AbsView::Single(a1), AbsView::Single(a2)) => equivalent(*a1, *a2),
        _ => false,
    }
}

/// `a` with `extra` merged into every leaf.
pub open spec fn with_witnesses(a: AbsView, extra: Seq<WitnessView>) -> AbsView
    decreases a,
{
    match a {
        AbsView::Atomic(ws) => AbsView::Atomic(merged(ws, extra)),
        AbsView::Boolean { value, witnesses } => AbsView::Boolean {
            value,
            witnesses: merged(witnesses, extra),
        },
        AbsView::Multiple(items) => AbsView::Multiple(
            Seq::new(
                items.len(),
                |i: int|
                    if 0 <= i < items.len() {
                        with_witnesses(items[i], extra)
                    } else {
                        arbitrary()
                    },
            ),
        ),
        AbsView::Single(inner) => AbsView::Single(Box::new(with_witnesses(*inner, extra))),
    }
}

/// `ws` with `p` added at the end of each path.
pub open spec fn tagged(ws: Seq<WitnessView>, p: PointView) -> Seq<WitnessView> {
    ws.map_values(|w: WitnessView| WitnessView { path: w.path.push(p), ..w })
}

/// `a` with `p` added at the end of the path of every witness.
pub open spec fn with_point(a: AbsView, p: PointView) -> AbsView
    decreases a,
{
    match a {
        AbsView::Atomic(ws) => AbsView::Atomic(tagged(ws, p)),
        AbsView::Boolean { value, witnesses } => AbsView::Boolean {
            value,
            witnesses: tagged(witnesses, p),
        },
        AbsView::Multiple(items) => AbsView::Multiple(
            Seq::new(
                items.len(),
                |i: int|
                    if 0 <= i < items.len() {
                        with_point(items[i], p)
                    } else {
                        arbitrary()
                    },
            ),
        ),
        AbsView::Single(inner) => AbsView::Single(Box::new(with_point(*inner, p))),
    }
}

/// `disclose(e)`: removes the witnesses at every level and keeps the shape.
/// This is the only sanitizer of the analysis.
pub fn disclose(abs: &Abs) -> (r: Abs)
    ensures
        r@ == disclosed(abs@),
    decreases abs,
{
    match abs {
        Abs::Atomic(_) => {
            let none: Vec<Witness> = Vec::new();
            assert(witnesses_view(none@) =~= Seq::<WitnessView>::empty());
            Abs::Atomic(none)
        },
        Abs::Boolean { value, .. } => {
            let none: Vec<Witness> = Vec::new();
            assert(witnesses_view(none@) =~= Seq::<WitnessView>::empty());
            Abs::Boolean { value: *value, witnesses: none }
        },
        Abs::Multiple(items) => {
            let mut out: Vec<Abs> = Vec::new();
            let mut i: usize = 0;
            while i < items.len()
                invariant
                    i <= items@.len(),
                    out@.len() == i,
                    abs is Multiple,
                    abs->Multiple_0 == *items,
                    forall|j: int| 0 <= j < i ==> (#[trigger] out@[j])@ == disclosed(items@[j]@),
                decreases items@.len() - i,
            {
                assert(decreases_to!(*items => items@[i as int]));
                let a = disclose(&items[i]);
                out.push(a);
                i = i + 1;
            }
            proof {
                lemma_multiple_view(*items);
                lemma_multiple_view(out);
                assert(abses_view(out@) =~= disclosed(abs@)->Multiple_0);
            }
            Abs::Multiple(out)
        },
        Abs::Single(inner) => Abs::Single(Box::new(disclose(inner))),
    }
}

/// Every witness reachable from `abs`, merged so that a uid reachable from
/// two children of a `Multiple` is reported once.
pub fn witnesses_of(abs: &Abs) -> (r: Vec<Witness>)
    ensures
        witnesses_view(r@) == all_witnesses(abs@),
    decreases abs,
{
    match abs {
        Abs::Atomic(ws) => clone_witnesses(ws),
        Abs::Boolean { witnesses, .. } => clone_witnesses(witnesses),
        Abs::Multiple(items) => {
            let mut out: Vec<Witness> = Vec::new();
            let mut i: usize = 0;
            assert(witnesses_view(out@) =~= Seq::<WitnessView>::empty());
            while i < items.len()
                invariant
                    i <= items@.len(),
                    abs is Multiple,
                    abs->Multiple_0 == *items,
                    witnesses_view(out@) == witnesses_upto(abses_view(items@), i as int),
                decreases items@.len() - i,
            {
                assert(decreases_to!(*items => items@[i as int]));
                let ws = witnesses_of(&items[i]);
                out = merge_witnesses(&out, &ws);
                i = i + 1;
            }
            proof {
                lemma_multiple_view(*items);
            }
            out
        },
        Abs::Single(inner) => witnesses_of(inner),
    }
}

/// Whether any witness is reachable from `abs`.
pub fn taint_present(abs: &Abs) -> (r: bool)
    ensures
        r == (all_witnesses(abs@).len() > 0),
{
    let ws = witnesses_of(abs);
    assert(witnesses_view(ws@).len() == ws@.len());
    ws.len() > 0
}

/// The join: witnesses are united, `Multiple` and `Single` join element by
/// element, `Single` distributes over `Multiple`, and constants that differ
/// decay to `Atomic`. Values of incompatible shapes join to one `Atomic` of
/// all their witnesses.
pub fn combine_abs(a: &Abs, b: &Abs) -> (r: Abs)
    ensures
        r@ == joined(a@, b@),
    decreases a, b,
{
    match (a, b) {
        (Abs::Atomic(w1), Abs::Atomic(w2)) => Abs::Atomic(merge_witnesses(w1, w2)),
        (
            Abs::Boolean { value: t1, witnesses: w1 },
            Abs::Boolean { value: t2, witnesses: w2 },
        ) => {
            if *t1 == *t2 {
                Abs::Boolean { value: *t1, witnesses: merge_witnesses(w1, w2) }
            } else {
                Abs::Atomic(merge_witnesses(w1, w2))
            }
        },
        (Abs::Boolean { witnesses: w1, .. }, Abs::Atomic(w2)) => Abs::Atomic(
            merge_witnesses(w1, w2),
        ),
        (Abs::Atomic(w2), Abs::Boolean { witnesses: w1, .. }) => Abs::Atomic(
            merge_witnesses(w1, w2),
        ),
        (Abs::Multiple(a1), Abs::Multiple(a2)) => {
            let mut out: Vec<Abs> = Vec::new();
            let mut i: usize = 0;
            while i < a1.len() && i < a2.len()
                invariant
                    i <= a1@.len(),
                    i <= a2@.len(),
                    out@.len() == i,
                    a is Multiple,
                    a->Multiple_0 == *a1,
                    forall|j: int|
                        0 <= j < i ==> (#[trigger] out@[j])@ == joined(a1@[j]@, a2@[j]@),
                decreases a1@.len() - i,
            {
                assert(decreases_to!(*a1 => a1@[i as int]));
                let x = combine_abs(&a1[i], &a2[i]);
                out.push(x);
                i = i + 1;
            }
            proof {
                lemma_multiple_view(*a1);
                lemma_multiple_view(*a2);
                lemma_multiple_view(out);
                assert(abses_view(out@) =~= joined(a@, b@)->Multiple_0);
            }
            Abs::Multiple(out)
        },
        (Abs::Single(a1), Abs::Single(a2)) => Abs::Single(Box::new(combine_abs(a1, a2))),
        (Abs::Multiple(a1), Abs::Single(a2)) => {
            let mut out: Vec<Abs> = Vec::new();
            let mut i: usize = 0;
            while i < a1.len()
                invariant
                    i <= a1@.len(),
                    out@.len() == i,
                    a is Multiple,
                    a->Multiple_0 == *a1,
                    forall|j: int| 0 <= j < i ==> (#[trigger] out@[j])@ == joined(a1@[j]@, a2@),
                decreases a1@.len() - i,
            {
                assert(decreases_to!(*a1 => a1@[i as int]));
                let x = combine_abs(&a1[i], a2);
                out.push(x);
                i = i + 1;
            }
            proof {
                lemma_multiple_view(*a1);
                lemma_multiple_view(out);
                assert(abses_view(out@) =~= joined(a@, b@)->Multiple_0);
            }
            Abs::Multiple(out)
        },
        (Abs::Single(a1), Abs::Multiple(a2)) => {
            let mut out: Vec<Abs> = Vec::new();
            let mut i: usize = 0;
            while i < a2.len()
                invariant
                    i <= a2@.len(),
                    out@.len() == i,
                    a is Single,
                    a->Single_0 == *a1,
                    forall|j: int| 0 <= j < i ==> (#[trigger] out@[j])@ == joined(a1@, a2@[j]@),
                decreases a2@.len() - i,
            {
                let x = combine_abs(a1, &a2[i]);
                out.push(x);
                i = i + 1;
            }
            proof {
                lemma_multiple_view(*a2);
                lemma_multiple_view(out);
                assert(abses_view(out@) =~= joined(a@, b@)->Multiple_0);
            }
            Abs::Multiple(out)
        },
        (x, y) => {
            let w1 = witnesses_of(x);
            let w2 = witnesses_of(y);
            Abs::Atomic(merge_witnesses(&w1, &w2))
        },
    }
}

fn witness_sets_equal(w1: &Vec<Witness>, w2: &Vec<Witness>) -> (r: bool)
    ensures
        r == (sort_by_uid(witnesses_view(w1@)) == sort_by_uid(witnesses_view(w2@))),
{
    let mut s1 = clone_witnesses(w1);
    let mut s2 = clone_witnesses(w2);
    sort_witnesses(&mut s1);
    sort_witnesses(&mut s2);
    same_witnesses(&s1, &s2)
}

/// Whether two abstract values have the same shape and, at every level, the
/// same witnesses up to their order. The fold fixpoint stops on it.
pub fn abs_equal(a: &Abs, b: &Abs) -> (r: bool)
    ensures
        r == equivalent(a@, b@),
    decreases a,
{
    match (a, b) {
        (Abs::Atomic(w1), Abs::Atomic(w2)) => witness_sets_equal(w1, w2),
        (
            Abs::Boolean { value: t1, witnesses: w1 },
            Abs::Boolean { value: t2, witnesses: w2 },
        ) => *t1 == *t2 && witness_sets_equal(w1, w2),
        (Abs::Multiple(a1), Abs::Multiple(a2)) => {
            proof {
                lemma_multiple_view(*a1);
                lemma_multiple_view(*a2);
            }
            if a1.len() != a2.len() {
                return false;
            }
            let mut i: usize = 0;
            while i < a1.len()
                invariant
                    i <= a1@.len(),
                    a1@.len() == a2@.len(),
                    a is Multiple,
                    a->Multiple_0 == *a1,
                    a@ == AbsView::Multiple(abses_view(a1@)),
                    b@ == AbsView::Multiple(abses_view(a2@)),
                    forall|j: int|
                        0 <= j < i ==> equivalent(#[trigger] abses_view(a1@)[j], abses_view(a2@)[j]),
                decreases a1@.len() - i,
            {
                assert(decreases_to!(*a1 => a1@[i as int]));
                if !abs_equal(&a1[i], &a2[i]) {
                    assert(!equivalent(abses_view(a1@)[i as int], abses_view(a2@)[i as int]));
                    return false;
                }
                i = i + 1;
            }
            true
        },
        (Abs::Single(a1), Abs::Single(a2)) => abs_equal(a1, a2),
        _ => false,
    }
}

/// Merges `extra` into every leaf of `abs` and keeps its shape.
pub fn add_witnesses(abs: &Abs, extra: &Vec<Witness>) -> (r: Abs)
    ensures
        r@ == with_witnesses(abs@, witnesses_view(extra@)),
    decreases abs,
{
    match abs {
        Abs::Atomic(ws) => Abs::Atomic(merge_witnesses(ws, extra)),
        Abs::Boolean { value, witnesses } => Abs::Boolean {
            value: *value,
            witnesses: merge_witnesses(witnesses, extra),
        },
        Abs::Multiple(items) => {
            let mut out: Vec<Abs> = Vec::new();
            let mut i: usize = 0;
            while i < items.len()
                invariant
                    i <= items@.len(),
                    out@.len() == i,
                    abs is Multiple,
                    abs->Multiple_0 == *items,
                    forall|j: int|
                        0 <= j < i ==> (#[trigger] out@[j])@ == with_witnesses(
                            items@[j]@,
                            witnesses_view(extra@),
                        ),
                decreases items@.len() - i,
            {
                assert(decreases_to!(*items => items@[i as int]));
                let a = add_witnesses(&items[i], extra);
                out.push(a);
                i = i + 1;
            }
            proof {
                lemma_multiple_view(*items);
                lemma_multiple_view(out);
                assert(abses_view(out@) =~= with_witnesses(
                    abs@,
                    witnesses_view(extra@),
                )->Multiple_0);
            }
            Abs::Multiple(out)
        },
        Abs::Single(inner) => Abs::Single(Box::new(add_witnesses(inner, extra))),
    }
}

/// A copy of `ws` with `pp` added at the end of each path.
pub fn tag_witnesses(ws: &Vec<Witness>, pp: &PathPoint) -> (r: Vec<Witness>)
    ensures
        witnesses_view(r@) == tagged(witnesses_view(ws@), pp@),
{
    let mut out: Vec<Witness> = Vec::new();
    let mut i: usize = 0;
    while i < ws.len()
        invariant
            i <= ws@.len(),
            out@.len() == i,
            forall|j: int|
                0 <= j < i ==> (#[trigger] out@[j])@ == (WitnessView {
                    path: ws@[j]@.path.push(pp@),
                    ..ws@[j]@
                }),
        decreases ws@.len() - i,
    {
        let mut w = ws[i].clone();
        let p = pp.clone();
        let ghost before = w@;
        w.path.push(p);
        assert(points_view(w.path@) =~= before.path.push(pp@));
        out.push(w);
        i = i + 1;
    }
    assert(witnesses_view(out@) =~= tagged(witnesses_view(ws@), pp@));
    out
}

/// Adds `pp` at the end of the path of every witness of `abs`.
pub fn add_path_point(abs: &Abs, pp: &PathPoint) -> (r: Abs)
    ensures
        r@ == with_point(abs@, pp@),
    decreases abs,
{
    match abs {
        Abs::Atomic(ws) => Abs::Atomic(tag_witnesses(ws, pp)),
        Abs::Boolean { value, witnesses } => Abs::Boolean {
            value: *value,
            witnesses: tag_witnesses(witnesses, pp),
        },
        Abs::Multiple(items) => {
            let mut out: Vec<Abs> = Vec::new();
            let mut i: usize = 0;
            while i < items.len()
                invariant
                    i <= items@.len(),
                    out@.len() == i,
                    abs is Multiple,
                    abs->Multiple_0 == *items,
                    forall|j: int|
                        0 <= j < i ==> (#[trigger] out@[j])@ == with_point(items@[j]@, pp@),
                decreases items@.len() - i,
            {
                assert(decreases_to!(*items => items@[i as int]));
                let a = add_path_point(&items[i], pp);
                out.push(a);
                i = i + 1;
            }
            proof {
                lemma_multiple_view(*items);
                lemma_multiple_view(out);
                assert(abses_view(out@) =~= with_point(abs@, pp@)->Multiple_0);
            }
            Abs::Multiple(out)
        },
        Abs::Single(inner) => Abs::Single(Box::new(add_path_point(inner, pp))),
    }
}

} // verus!
