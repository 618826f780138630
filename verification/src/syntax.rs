//! Lossless syntax trees.
//!
//! A tree is the list of its elements, nodes and tokens, in the order in which
//! a depth-first walk enters them. Each element knows its parent and the index
//! just behind its last descendant, so that the children of a node are reached
//! by stepping from sibling to sibling.

use compactp_syntax::SyntaxNode;
use rowan::{NodeOrToken, WalkEvent as Step};
use vstd::prelude::*;
use vstd::string::*;
use vstd::utf8::encode_utf8;

use crate::diagnostics::{
    diags_view, plain_diag, DiagView, Diagnostic, DiagnosticCode, Severity,
};
use crate::kinds::{in_class, is_in_class, Class};
use crate::text::TextRange;

verus! {

/// One step of a depth-first walk over a syntax tree. Entering a token is
/// followed by leaving it.
pub enum WalkEvent {
    Enter(u16),
    Token(u16, String),
    Leave,
}

/// The value of a [`WalkEvent`].
pub enum WalkView {
    Enter(u16),
    Token(u16, Seq<char>),
    Leave,
}

impl View for WalkEvent {
    type V = WalkView;

    open spec fn view(&self) -> WalkView {
        match self {
            WalkEvent::Enter(k) => WalkView::Enter(*k),
            WalkEvent::Token(k, s) => WalkView::Token(*k, s@),
            WalkEvent::Leave => WalkView::Leave,
        }
    }
}

/// The values of a walk.
pub open spec fn walk_view(s: Seq<WalkEvent>) -> Seq<WalkView> {
    s.map_values(|e: WalkEvent| e@)
}

/// One node or token of a tree.
pub struct Elem {
    pub kind: u16,
    /// Whether the element is a token.
    pub token: bool,
    /// The byte offset at which the element starts.
    pub start: u32,
    /// The byte offset just behind the element.
    pub end: u32,
    pub parent: Option<usize>,
    /// The index just behind the element's last descendant.
    pub next: usize,
    /// The text of a token; empty for a node.
    pub text: String,
}

/// The value of an [`Elem`].
pub struct ElemView {
    pub kind: u16,
    pub token: bool,
    pub start: u32,
    pub end: u32,
    pub parent: Option<int>,
    pub next: int,
    pub text: Seq<char>,
}

/// An optional index as a mathematical integer.
pub open spec fn oint(o: Option<usize>) -> Option<int> {
    match o {
        Some(x) => Some(x as int),
        None => None,
    }
}

/// A list of indices as mathematical integers.
pub open spec fn ints(s: Seq<usize>) -> Seq<int> {
    s.map_values(|x: usize| x as int)
}

impl View for Elem {
    type V = ElemView;

    open spec fn view(&self) -> ElemView {
        ElemView {
            kind: self.kind,
            token: self.token,
            start: self.start,
            end: self.end,
            parent: oint(self.parent),
            next: self.next as int,
            text: self.text@,
        }
    }
}

/// A syntax tree as a mathematical value.
pub type Tree = Seq<ElemView>;

/// A syntax tree.
pub struct SyntaxTree {
    pub elems: Vec<Elem>,
}

impl View for SyntaxTree {
    type V = Tree;

    open spec fn view(&self) -> Tree {
        self.elems@.map_values(|e: Elem| e@)
    }
}

/// What every tree keeps: parents come before their children, the descendants
/// of an element follow it and end inside the tree, and no range is inverted.
pub open spec fn well_formed(t: Tree) -> bool {
    forall|i: int|
        #![trigger t[i]]
        0 <= i < t.len() ==> {
            &&& i < t[i].next <= t.len()
            &&& t[i].start <= t[i].end
            &&& t[i].parent matches Some(p) ==> 0 <= p < i
        }
}

// ---------------------------------------------------------------------------
// Building a tree from a walk
// ---------------------------------------------------------------------------

/// The offset behind `s` when it starts at `offset`.
pub open spec fn advanced(offset: u32, s: Seq<char>) -> u32 {
    if offset + encode_utf8(s).len() <= u32::MAX {
        (offset + encode_utf8(s).len()) as u32
    } else {
        u32::MAX
    }
}

/// A tree under construction: its elements, the indices of those that are
/// still open from the outside in, and the offset reached.
pub struct Partial {
    pub elems: Tree,
    pub open: Seq<int>,
    pub offset: u32,
}

/// The innermost open element closed.
pub open spec fn closed(p: Partial) -> Partial {
    if p.open.len() == 0 {
        p
    } else {
        let i = p.open.last();
        Partial {
            elems: p.elems.update(
                i,
                ElemView { end: p.offset, next: p.elems.len() as int, ..p.elems[i] },
            ),
            open: p.open.drop_last(),
            offset: p.offset,
        }
    }
}

/// A new element opened inside the innermost open one.
pub open spec fn opened(p: Partial, kind: u16, token: bool, text: Seq<char>) -> Partial {
    let end = if token {
        advanced(p.offset, text)
    } else {
        p.offset
    };
    Partial {
        elems: p.elems.push(
            ElemView {
                kind,
                token,
                start: p.offset,
                end,
                parent: if p.open.len() == 0 {
                    None
                } else {
                    Some(p.open.last())
                },
                next: p.elems.len() as int + 1,
                text,
            },
        ),
        open: p.open.push(p.elems.len() as int),
        offset: end,
    }
}

/// One event applied.
pub open spec fn step(p: Partial, e: WalkView) -> Partial {
    match e {
        WalkView::Enter(k) => opened(p, k, false, Seq::empty()),
        WalkView::Token(k, s) => opened(p, k, true, s),
        WalkView::Leave => closed(p),
    }
}

/// The events from position `i` on applied in order.
pub open spec fn run_from(p: Partial, events: Seq<WalkView>, i: int) -> Partial
    decreases events.len() - i,
{
    if i < 0 || i >= events.len() {
        p
    } else {
        run_from(step(p, events[i]), events, i + 1)
    }
}

/// Every element that is still open closed, from the inside out.
pub open spec fn close_all(p: Partial) -> Partial
    decreases p.open.len(),
{
    if p.open.len() == 0 {
        p
    } else {
        close_all(closed(p))
    }
}

/// The tree that a walk describes.
pub open spec fn tree_of(events: Seq<WalkView>) -> Tree {
    close_all(
        run_from(Partial { elems: Seq::empty(), open: Seq::empty(), offset: 0 }, events, 0),
    ).elems
}

/// What holds of a tree under construction.
pub open spec fn partial_ok(p: Partial) -> bool {
    &&& well_formed(p.elems)
    &&& forall|i: int|
        #![trigger p.elems[i]]
        0 <= i < p.elems.len() ==> p.elems[i].end <= p.offset
    &&& forall|k: int|
        #![trigger p.open[k]]
        0 <= k < p.open.len() ==> 0 <= p.open[k] < p.elems.len()
}

pub(crate) proof fn lemma_step_ok(p: Partial, e: WalkView)
    requires
        partial_ok(p),
    ensures
        partial_ok(step(p, e)),
{
    let q = step(p, e);
    match e {
        WalkView::Leave => {
            lemma_closed_ok(p);
        },
        _ => {
            assert forall|k: int| #![trigger q.open[k]] 0 <= k < q.open.len() implies 0 <= q.open[k]
                < q.elems.len() by {
                if k < p.open.len() {
                    assert(q.open[k] == p.open[k]);
                }
            }
            assert forall|i: int| #![trigger q.elems[i]] 0 <= i < q.elems.len() implies {
                &&& i < q.elems[i].next <= q.elems.len()
                &&& q.elems[i].start <= q.elems[i].end
                &&& q.elems[i].parent matches Some(x) ==> 0 <= x < i
                &&& q.elems[i].end <= q.offset
            } by {
                if i < p.elems.len() {
                    assert(q.elems[i] == p.elems[i]);
                } else if p.open.len() > 0 {
                    assert(p.open[p.open.len() - 1] == p.open.last());
                }
            }
        },
    }
}

pub(crate) proof fn lemma_closed_ok(p: Partial)
    requires
        partial_ok(p),
    ensures
        partial_ok(closed(p)),
{
    if p.open.len() > 0 {
        let q = closed(p);
        let c = p.open.last();
        assert(p.open[p.open.len() - 1] == c);
        assert(p.elems[c].start <= p.elems[c].end);
        assert forall|i: int| #![trigger q.elems[i]] 0 <= i < q.elems.len() implies {
            &&& i < q.elems[i].next <= q.elems.len()
            &&& q.elems[i].start <= q.elems[i].end
            &&& q.elems[i].parent matches Some(x) ==> 0 <= x < i
            &&& q.elems[i].end <= q.offset
        } by {
            assert(p.elems[i].end <= p.offset);
            if i != c {
                assert(q.elems[i] == p.elems[i]);
            }
        }
        assert forall|k: int| #![trigger q.open[k]] 0 <= k < q.open.len() implies 0 <= q.open[k]
            < q.elems.len() by {
            assert(q.open[k] == p.open[k]);
        }
    }
}

proof fn lemma_close_all_ok(p: Partial)
    requires
        partial_ok(p),
    ensures
        partial_ok(close_all(p)),
    decreases p.open.len(),
{
    if p.open.len() > 0 {
        lemma_closed_ok(p);
        lemma_close_all_ok(closed(p));
    }
}

proof fn lemma_run_ok(p: Partial, events: Seq<WalkView>, i: int)
    requires
        partial_ok(p),
    ensures
        partial_ok(run_from(p, events, i)),
    decreases events.len() - i,
{
    if 0 <= i < events.len() {
        lemma_step_ok(p, events[i]);
        lemma_run_ok(step(p, events[i]), events, i + 1);
    }
}

/// Every walk describes a well-formed tree.
pub proof fn law_tree_well_formed(events: Seq<WalkView>)
    ensures
        well_formed(tree_of(events)),
{
    let start = Partial { elems: Seq::empty(), open: Seq::empty(), offset: 0 };
    lemma_run_ok(start, events, 0);
    lemma_close_all_ok(run_from(start, events, 0));
}

/// The texts of the first `n` elements that are tokens, joined in order.
pub open spec fn leaves_text(t: Tree, n: int) -> Seq<char>
    decreases n,
{
    if 0 < n <= t.len() {
        if t[n - 1].token {
            leaves_text(t, n - 1) + t[n - 1].text
        } else {
            leaves_text(t, n - 1)
        }
    } else {
        Seq::empty()
    }
}

/// Whether every element starts where the tokens before it end, as long as
/// offsets fit.
pub open spec fn starts_right(t: Tree) -> bool {
    forall|i: int|
        #![trigger t[i]]
        0 <= i < t.len() && encode_utf8(leaves_text(t, i)).len() <= u32::MAX ==> t[i].start
            == encode_utf8(leaves_text(t, i)).len()
}

/// Whether a tree under construction holds the text of the first `n` events,
/// at the right offsets.
spec fn covers(p: Partial, text: Seq<char>) -> bool {
    &&& partial_ok(p)
    &&& leaves_text(p.elems, p.elems.len() as int) == text
    &&& starts_right(p.elems)
    &&& encode_utf8(text).len() <= u32::MAX ==> p.offset == encode_utf8(text).len()
}

proof fn lemma_encode_concat(a: Seq<char>, b: Seq<char>)
    ensures
        encode_utf8(a + b) == encode_utf8(a) + encode_utf8(b),
    decreases a.len(),
{
    if a.len() == 0 {
        assert(a + b =~= b);
        assert(encode_utf8(a) + encode_utf8(b) =~= encode_utf8(b));
    } else {
        assert((a + b).drop_first() =~= a.drop_first() + b);
        lemma_encode_concat(a.drop_first(), b);
        assert(encode_utf8(a + b) =~= encode_utf8(a) + encode_utf8(b));
    }
}

proof fn lemma_leaves_same(a: Tree, b: Tree, n: int)
    requires
        n <= a.len(),
        n <= b.len(),
        forall|i: int| #![trigger a[i]] 0 <= i < n ==> a[i].token == b[i].token && a[i].text == b[i].text,
    ensures
        leaves_text(a, n) == leaves_text(b, n),
    decreases n,
{
    if n > 0 {
        lemma_leaves_same(a, b, n - 1);
    }
}

proof fn lemma_closed_covers(p: Partial, text: Seq<char>)
    requires
        covers(p, text),
    ensures
        covers(closed(p), text),
{
    lemma_closed_ok(p);
    if p.open.len() > 0 {
        let q = closed(p);
        assert(p.open[p.open.len() - 1] == p.open.last());
        lemma_leaves_same(p.elems, q.elems, p.elems.len() as int);
        assert forall|i: int|
            #![trigger q.elems[i]]
            0 <= i < q.elems.len() && encode_utf8(leaves_text(q.elems, i)).len()
                <= u32::MAX implies q.elems[i].start == encode_utf8(
            leaves_text(q.elems, i),
        ).len() by {
            lemma_leaves_same(p.elems, q.elems, i);
            assert(p.elems[i].start == q.elems[i].start);
        }
    }
}

proof fn lemma_opened_covers(p: Partial, kind: u16, token: bool, s: Seq<char>, text: Seq<char>)
    requires
        covers(p, text),
    ensures
        covers(
            opened(p, kind, token, s),
            if token {
                text + s
            } else {
                text
            },
        ),
{
    let e = if token {
        WalkView::Token(kind, s)
    } else {
        WalkView::Enter(kind)
    };
    let q = opened(p, kind, token, s);
    if token {
        lemma_step_ok(p, e);
    } else {
        let r = step(p, e);
        lemma_step_ok(p, e);
        assert forall|i: int| #![trigger q.elems[i]] 0 <= i < q.elems.len() implies {
            &&& i < q.elems[i].next <= q.elems.len()
            &&& q.elems[i].start <= q.elems[i].end
            &&& q.elems[i].parent matches Some(x) ==> 0 <= x < i
            &&& q.elems[i].end <= q.offset
        } by {
            assert(r.elems[i].next == q.elems[i].next);
        }
        assert forall|k: int| #![trigger q.open[k]] 0 <= k < q.open.len() implies 0 <= q.open[k]
            < q.elems.len() by {
            assert(r.open[k] == q.open[k]);
        }
    }
    let n = p.elems.len() as int;
    lemma_leaves_same(p.elems, q.elems, n);
    lemma_encode_concat(text, s);
    assert(q.elems[n].text == s);
    assert forall|i: int|
        #![trigger q.elems[i]]
        0 <= i < q.elems.len() && encode_utf8(leaves_text(q.elems, i)).len()
            <= u32::MAX implies q.elems[i].start == encode_utf8(leaves_text(q.elems, i)).len() by {
        lemma_leaves_same(p.elems, q.elems, i);
        if i < n {
            assert(q.elems[i] == p.elems[i]);
        }
    }
}

proof fn lemma_run_covers(p: Partial, events: Seq<WalkView>, i: int)
    requires
        0 <= i <= events.len(),
        covers(p, walk_text(events.take(i))),
    ensures
        covers(run_from(p, events, i), walk_text(events)),
    decreases events.len() - i,
{
    if i < events.len() {
        let before = events.take(i);
        let after = events.take(i + 1);
        assert(after.drop_last() =~= before);
        assert(after.last() == events[i]);
        match events[i] {
            WalkView::Enter(k) => lemma_opened_covers(p, k, false, Seq::empty(), walk_text(before)),
            WalkView::Token(k, s) => lemma_opened_covers(p, k, true, s, walk_text(before)),
            WalkView::Leave => lemma_closed_covers(p, walk_text(before)),
        }
        lemma_run_covers(step(p, events[i]), events, i + 1);
    } else {
        assert(events.take(i) =~= events);
    }
}

proof fn lemma_close_all_covers(p: Partial, text: Seq<char>)
    requires
        covers(p, text),
    ensures
        covers(close_all(p), text),
    decreases p.open.len(),
{
    if p.open.len() > 0 {
        lemma_closed_covers(p, text);
        lemma_close_all_covers(closed(p), text);
    }
}

/// A tree is lossless: its tokens join to the text of the walk that it was
/// built from, and every element starts at the offset at which the tokens
/// before it end.
pub proof fn law_tree_is_lossless(events: Seq<WalkView>)
    ensures
        leaves_text(tree_of(events), tree_of(events).len() as int) == walk_text(events),
        starts_right(tree_of(events)),
{
    let start = Partial { elems: Seq::empty(), open: Seq::empty(), offset: 0 };
    assert(events.take(0) =~= Seq::<WalkView>::empty());
    lemma_run_covers(start, events, 0);
    lemma_close_all_covers(run_from(start, events, 0), walk_text(events));
}

/// A tree under construction.
struct Builder {
    elems: Vec<Elem>,
    open: Vec<usize>,
    offset: u32,
}

impl Builder {
    spec fn view(&self) -> Partial {
        Partial {
            elems: self.elems@.map_values(|e: Elem| e@),
            open: ints(self.open@),
            offset: self.offset,
        }
    }

    fn close(&mut self)
        requires
            partial_ok(old(self)@),
        ensures
            final(self)@ == closed(old(self)@),
    {
        let ghost p = self@;
        let ghost before = self.open@;
        let last: Option<usize> = self.open.pop();
        match last {
            Some(i) => {
                assert(ints(before).last() == i);
                assert(p.open[p.open.len() - 1] == i);
                assert(ints(self.open@) =~= p.open.drop_last());
                let n: usize = self.elems.len();
                assert(p.elems[i as int] == self.elems@[i as int]@);
                let e = Elem {
                    kind: self.elems[i].kind,
                    token: self.elems[i].token,
                    start: self.elems[i].start,
                    end: self.offset,
                    parent: self.elems[i].parent,
                    next: n,
                    text: self.elems[i].text.clone(),
                };
                self.elems.set(i, e);
                assert(self@.elems =~= closed(p).elems);
            },
            None => {
                assert(p.open.len() == 0);
            },
        }
    }

    fn push(&mut self, kind: u16, token: bool, text: &str)
        requires
            old(self).elems@.len() < usize::MAX,
        ensures
            final(self)@ == opened(old(self)@, kind, token, text@),
    {
        let ghost p = self@;
        let n: usize = self.elems.len();
        let k: usize = self.open.len();
        let parent: Option<usize> = if k == 0 {
            None
        } else {
            assert(p.open.last() == self.open@[k - 1]);
            Some(self.open[k - 1])
        };
        let start: u32 = self.offset;
        let len: usize = text.as_bytes().len();
        let end: u32 = if !token {
            start
        } else if len <= u32::MAX as usize {
            start.saturating_add(len as u32)
        } else {
            u32::MAX
        };
        self.elems.push(
            Elem { kind, token, start, end, parent, next: n + 1, text: text.to_owned() },
        );
        self.open.push(n);
        self.offset = end;
        assert(end == opened(p, kind, token, text@).offset);
        assert(self@.elems.last() == opened(p, kind, token, text@).elems.last());
        assert(self@.elems =~= opened(p, kind, token, text@).elems);
        assert(self@.open =~= opened(p, kind, token, text@).open);
    }
}

/// Builds the tree that a walk describes. Elements that the walk leaves open
/// are closed at the end, and surplus leaves are ignored.
pub fn build_tree(events: &Vec<WalkEvent>) -> (r: SyntaxTree)
    ensures
        r@ == tree_of(walk_view(events@)),
        well_formed(r@),
{
    let mut b = Builder { elems: Vec::new(), open: Vec::new(), offset: 0 };
    let ghost start = Partial { elems: Seq::empty(), open: Seq::empty(), offset: 0 };
    let ghost walk = walk_view(events@);
    assert(b@.elems =~= start.elems);
    assert(b@.open =~= start.open);
    let mut i: usize = 0;
    while i < events.len()
        invariant
            i <= events@.len(),
            walk == walk_view(events@),
            partial_ok(b@),
            b@.elems.len() <= i,
            run_from(start, walk, 0) == run_from(b@, walk, i as int),
        decreases events@.len() - i,
    {
        proof {
            lemma_step_ok(b@, walk[i as int]);
        }
        match &events[i] {
            WalkEvent::Enter(k) => {
                proof {
                    reveal_strlit("");
                    assert(""@ =~= Seq::<char>::empty());
                }
                b.push(*k, false, "");
            },
            WalkEvent::Token(k, s) => b.push(*k, true, s.as_str()),
            WalkEvent::Leave => b.close(),
        }
        i = i + 1;
    }
    while b.open.len() > 0
        invariant
            partial_ok(b@),
            close_all(run_from(start, walk, 0)) == close_all(b@),
        decreases b.open@.len(),
    {
        proof {
            lemma_closed_ok(b@);
        }
        assert(b@.open.len() > 0);
        let ghost before = b@;
        b.close();
        assert(b@.open.len() == before.open.len() - 1);
    }
    assert(b@.open.len() == 0);
    let r = SyntaxTree { elems: b.elems };
    assert(r@ == b@.elems);
    r
}


// ---------------------------------------------------------------------------
// Parsing
// ---------------------------------------------------------------------------

/// One complaint of the parser.
pub struct ParseError {
    pub prefix: &'static str,
    pub number: u16,
    pub message: String,
    pub start: u32,
    pub end: u32,
}

/// The value of a [`ParseError`].
pub struct ParseErrorView {
    pub prefix: Seq<char>,
    pub number: u16,
    pub message: Seq<char>,
    pub start: u32,
    pub end: u32,
}

impl View for ParseError {
    type V = ParseErrorView;

    open spec fn view(&self) -> ParseErrorView {
        ParseErrorView {
            prefix: self.prefix@,
            number: self.number,
            message: self.message@,
            start: self.start,
            end: self.end,
        }
    }
}

/// The texts of all tokens of a walk, joined in order.
pub open spec fn walk_text(s: Seq<WalkView>) -> Seq<char>
    decreases s.len(),
{
    if s.len() == 0 {
        Seq::empty()
    } else {
        match s.last() {
            WalkView::Token(_, text) => walk_text(s.drop_last()) + text,
            _ => walk_text(s.drop_last()),
        }
    }
}

/// What `compactp_parser::parse` makes of a text: the depth-first walk over
/// its tree, and its complaints.
pub uninterp spec fn parse_result(text: Seq<char>) -> (Seq<WalkView>, Seq<ParseErrorView>);

/// Parses with `compactp_parser::parse` and lists the depth-first walk over
/// the tree (`preorder_with_tokens`) and the errors. The result depends on the
/// text alone, and the tree is lossless: its tokens join to the text. An error
/// of the parser carries a code, a message and a span and nothing else.
/// Offsets are 32 bits wide, so the text must not be longer.
#[verifier::external_body]
fn parse_walk(text: &str) -> (r: (Vec<WalkEvent>, Vec<ParseError>))
    requires
        encode_utf8(text@).len() <= u32::MAX,
    ensures
        walk_view(r.0@) == parse_result(text@).0,
        r.1@.map_values(|e: ParseError| e@) == parse_result(text@).1,
        walk_text(walk_view(r.0@)) == text@,
{
    let parsed = compactp_parser::parse(text);
    let root = SyntaxNode::new_root(parsed.green);
    let walk = root.preorder_with_tokens().map(|e| match e {
        Step::Enter(NodeOrToken::Node(n)) => WalkEvent::Enter(n.kind().into()),
        Step::Enter(NodeOrToken::Token(t)) =>
            WalkEvent::Token(t.kind().into(), t.text().to_string()),
        Step::Leave(_) => WalkEvent::Leave
    }).collect();
    let errors = parsed.errors.into_iter().map(|d| ParseError {
        prefix: d.code.prefix, number: d.code.number, message: d.message,
        start: d.primary_span.start().into(), end: d.primary_span.end().into()
    }).collect();
    (walk, errors)
}


// ---------------------------------------------------------------------------
// Moving about in a tree
// ---------------------------------------------------------------------------

/// The first node of `class` among the siblings from `i` up to `end`.
pub open spec fn node_from(t: Tree, i: int, end: int, class: Class) -> Option<int>
    decreases t.len() - i,
{
    if 0 <= i < end && i < t.len() && i < t[i].next <= t.len() {
        if !t[i].token && in_class(class, t[i].kind) {
            Some(i)
        } else {
            node_from(t, t[i].next, end, class)
        }
    } else {
        None
    }
}

/// The nodes of `class` among the siblings from `i` up to `end`.
pub open spec fn nodes_from(t: Tree, i: int, end: int, class: Class) -> Seq<int>
    decreases t.len() - i,
{
    if 0 <= i < end && i < t.len() && i < t[i].next <= t.len() {
        if !t[i].token && in_class(class, t[i].kind) {
            seq![i] + nodes_from(t, t[i].next, end, class)
        } else {
            nodes_from(t, t[i].next, end, class)
        }
    } else {
        Seq::empty()
    }
}

/// The first token of `kind` among the siblings from `i` up to `end`.
pub open spec fn token_from(t: Tree, i: int, end: int, kind: u16) -> Option<int>
    decreases t.len() - i,
{
    if 0 <= i < end && i < t.len() && i < t[i].next <= t.len() {
        if t[i].token && t[i].kind == kind {
            Some(i)
        } else {
            token_from(t, t[i].next, end, kind)
        }
    } else {
        None
    }
}

/// The tokens of `kind` among the siblings from `i` up to `end`.
pub open spec fn tokens_from(t: Tree, i: int, end: int, kind: u16) -> Seq<int>
    decreases t.len() - i,
{
    if 0 <= i < end && i < t.len() && i < t[i].next <= t.len() {
        if t[i].token && t[i].kind == kind {
            seq![i] + tokens_from(t, t[i].next, end, kind)
        } else {
            tokens_from(t, t[i].next, end, kind)
        }
    } else {
        Seq::empty()
    }
}

/// The first child node of `n` that belongs to `class`.
pub open spec fn child(t: Tree, n: int, class: Class) -> Option<int> {
    node_from(t, n + 1, t[n].next, class)
}

/// The child nodes of `n` that belong to `class`, in order.
pub open spec fn children(t: Tree, n: int, class: Class) -> Seq<int> {
    nodes_from(t, n + 1, t[n].next, class)
}

/// The first token of `kind` directly under `n`.
pub open spec fn child_token(t: Tree, n: int, kind: u16) -> Option<int> {
    token_from(t, n + 1, t[n].next, kind)
}

/// The tokens of `kind` directly under `n`, in order.
pub open spec fn child_tokens(t: Tree, n: int, kind: u16) -> Seq<int> {
    tokens_from(t, n + 1, t[n].next, kind)
}

/// The range of element `i`.
pub open spec fn range_of(t: Tree, i: int) -> TextRange {
    TextRange { start: t[i].start, end: t[i].end }
}

/// The texts of the tokens from index `i` up to `end`, joined.
pub open spec fn text_between(t: Tree, i: int, end: int) -> Seq<char>
    decreases end - i,
{
    if 0 <= i < end && end <= t.len() {
        text_between(t, i, end - 1) + (if t[end - 1].token {
            t[end - 1].text
        } else {
            Seq::empty()
        })
    } else {
        Seq::empty()
    }
}

/// The text of element `n`.
pub open spec fn text_of(t: Tree, n: int) -> Seq<char> {
    text_between(t, n, t[n].next)
}

/// The nearest node of `class` among `i` and its ancestors.
pub open spec fn nearest(t: Tree, i: int, class: Class) -> Option<int>
    decreases i,
{
    if 0 <= i < t.len() {
        if !t[i].token && in_class(class, t[i].kind) {
            Some(i)
        } else {
            match t[i].parent {
                Some(p) => if 0 <= p < i {
                    nearest(t, p, class)
                } else {
                    None
                },
                None => None,
            }
        }
    } else {
        None
    }
}

/// The first token at or after index `i` that is not empty and touches
/// `offset`.
pub open spec fn touching_from(t: Tree, i: int, offset: u32) -> Option<int>
    decreases t.len() - i,
{
    if 0 <= i < t.len() {
        if t[i].token && t[i].start < t[i].end && t[i].start <= offset <= t[i].end {
            Some(i)
        } else {
            touching_from(t, i + 1, offset)
        }
    } else {
        None
    }
}

/// The offset behind the whole text.
pub open spec fn end_of(t: Tree) -> u32 {
    if t.len() == 0 {
        0
    } else {
        t[0].end
    }
}

/// A child comes after its parent and before the end of its parent.
pub proof fn lemma_node_from(t: Tree, i: int, end: int, class: Class)
    requires
        well_formed(t),
        0 <= i,
    ensures
        node_from(t, i, end, class) matches Some(x) ==> i <= x < end && x < t.len() && !t[x].token
            && in_class(class, t[x].kind),
    decreases t.len() - i,
{
    if 0 <= i < end && i < t.len() && i < t[i].next <= t.len() {
        lemma_node_from(t, t[i].next, end, class);
    }
}

/// Each of the children comes after its parent and before the end of it.
pub proof fn lemma_nodes_from(t: Tree, i: int, end: int, class: Class)
    requires
        well_formed(t),
        0 <= i,
    ensures
        forall|k: int|
            #![trigger nodes_from(t, i, end, class)[k]]
            0 <= k < nodes_from(t, i, end, class).len() ==> {
                let x = nodes_from(t, i, end, class)[k];
                i <= x < end && x < t.len() && !t[x].token && in_class(class, t[x].kind)
            },
    decreases t.len() - i,
{
    if 0 <= i < end && i < t.len() && i < t[i].next <= t.len() {
        lemma_nodes_from(t, t[i].next, end, class);
        let rest = nodes_from(t, t[i].next, end, class);
        assert forall|k: int|
            #![trigger nodes_from(t, i, end, class)[k]]
            0 <= k < nodes_from(t, i, end, class).len() implies {
            let x = nodes_from(t, i, end, class)[k];
            i <= x < end && x < t.len() && !t[x].token && in_class(class, t[x].kind)
        } by {
            if !t[i].token && in_class(class, t[i].kind) {
                if k > 0 {
                    assert(nodes_from(t, i, end, class)[k] == rest[k - 1]);
                }
            } else {
                assert(nodes_from(t, i, end, class)[k] == rest[k]);
            }
        }
    }
}

/// A child token comes after its parent and before the end of it.
pub proof fn lemma_token_from(t: Tree, i: int, end: int, kind: u16)
    requires
        well_formed(t),
        0 <= i,
    ensures
        token_from(t, i, end, kind) matches Some(x) ==> i <= x < end && x < t.len() && t[x].token
            && t[x].kind == kind,
    decreases t.len() - i,
{
    if 0 <= i < end && i < t.len() && i < t[i].next <= t.len() {
        lemma_token_from(t, t[i].next, end, kind);
    }
}

/// Each of the child tokens comes after its parent and before the end of it.
pub proof fn lemma_tokens_from(t: Tree, i: int, end: int, kind: u16)
    requires
        well_formed(t),
        0 <= i,
    ensures
        forall|k: int|
            #![trigger tokens_from(t, i, end, kind)[k]]
            0 <= k < tokens_from(t, i, end, kind).len() ==> {
                let x = tokens_from(t, i, end, kind)[k];
                i <= x < end && x < t.len() && t[x].token && t[x].kind == kind
            },
    decreases t.len() - i,
{
    if 0 <= i < end && i < t.len() && i < t[i].next <= t.len() {
        lemma_tokens_from(t, t[i].next, end, kind);
        let rest = tokens_from(t, t[i].next, end, kind);
        assert forall|k: int|
            #![trigger tokens_from(t, i, end, kind)[k]]
            0 <= k < tokens_from(t, i, end, kind).len() implies {
            let x = tokens_from(t, i, end, kind)[k];
            i <= x < end && x < t.len() && t[x].token && t[x].kind == kind
        } by {
            if t[i].token && t[i].kind == kind {
                if k > 0 {
                    assert(tokens_from(t, i, end, kind)[k] == rest[k - 1]);
                }
            } else {
                assert(tokens_from(t, i, end, kind)[k] == rest[k]);
            }
        }
    }
}

impl SyntaxTree {
    /// The number of elements.
    pub fn len(&self) -> (r: usize)
        ensures
            r == self@.len(),
    {
        self.elems.len()
    }

    /// The kind of element `n`.
    pub fn kind(&self, n: usize) -> (r: u16)
        requires
            n < self@.len(),
        ensures
            r == self@[n as int].kind,
    {
        self.elems[n].kind
    }

    /// Whether element `n` is a token.
    pub fn is_token(&self, n: usize) -> (r: bool)
        requires
            n < self@.len(),
        ensures
            r == self@[n as int].token,
    {
        self.elems[n].token
    }

    /// The range of element `n`.
    pub fn range(&self, n: usize) -> (r: TextRange)
        requires
            n < self@.len(),
        ensures
            r == range_of(self@, n as int),
    {
        TextRange { start: self.elems[n].start, end: self.elems[n].end }
    }

    /// The parent of element `n`.
    pub fn parent(&self, n: usize) -> (r: Option<usize>)
        requires
            n < self@.len(),
        ensures
            oint(r) == self@[n as int].parent,
    {
        self.elems[n].parent
    }

    /// The index behind the last descendant of `n`.
    pub fn next(&self, n: usize) -> (r: usize)
        requires
            n < self@.len(),
        ensures
            r == self@[n as int].next,
    {
        self.elems[n].next
    }

    /// The text of token `n`.
    pub fn token_text(&self, n: usize) -> (r: &str)
        requires
            n < self@.len(),
        ensures
            r@ == self@[n as int].text,
    {
        self.elems[n].text.as_str()
    }

    /// The first child node of `n` in `class`.
    pub fn child(&self, n: usize, class: Class) -> (r: Option<usize>)
        requires
            well_formed(self@),
            n < self@.len(),
        ensures
            oint(r) == child(self@, n as int, class),
            r matches Some(x) ==> n < x < self@[n as int].next && x < self@.len()
                && !self@[x as int].token && in_class(class, self@[x as int].kind),
    {
        proof {
            lemma_node_from(self@, n + 1, self@[n as int].next, class);
        }
        let end: usize = self.next(n);
        let mut i: usize = n + 1;
        while i < end
            invariant
                well_formed(self@),
                n < self@.len(),
                end == self@[n as int].next,
                end <= self@.len(),
                n < i <= self@.len(),
                child(self@, n as int, class) == node_from(self@, i as int, end as int, class),
            decreases self@.len() - i,
        {
            if !self.is_token(i) && is_in_class(class, self.kind(i)) {
                return Some(i);
            }
            i = self.next(i);
        }
        None
    }

    /// The child nodes of `n` in `class`, in order.
    pub fn children(&self, n: usize, class: Class) -> (r: Vec<usize>)
        requires
            well_formed(self@),
            n < self@.len(),
        ensures
            ints(r@) == children(self@, n as int, class),
            forall|k: int|
                #![trigger r@[k]]
                0 <= k < r@.len() ==> n < r@[k] < self@[n as int].next && r@[k] < self@.len()
                    && !self@[r@[k] as int].token && in_class(class, self@[r@[k] as int].kind),
    {
        proof {
            lemma_nodes_from(self@, n + 1, self@[n as int].next, class);
        }
        let end: usize = self.next(n);
        let mut out: Vec<usize> = Vec::new();
        let mut i: usize = n + 1;
        assert(ints(out@) + nodes_from(self@, i as int, end as int, class) =~= children(
            self@,
            n as int,
            class,
        ));
        while i < end
            invariant
                well_formed(self@),
                n < self@.len(),
                end == self@[n as int].next,
                end <= self@.len(),
                n < i <= self@.len(),
                ints(out@) + nodes_from(self@, i as int, end as int, class) == children(
                    self@,
                    n as int,
                    class,
                ),
            decreases self@.len() - i,
        {
            let ghost before = ints(out@);
            let next: usize = self.next(i);
            if !self.is_token(i) && is_in_class(class, self.kind(i)) {
                out.push(i);
                assert(ints(out@) =~= before.push(i as int));
                assert(before + (seq![i as int] + nodes_from(
                    self@,
                    next as int,
                    end as int,
                    class,
                )) =~= ints(out@) + nodes_from(self@, next as int, end as int, class));
            }
            i = next;
        }
        assert(ints(out@) + Seq::<int>::empty() =~= ints(out@));
        assert forall|k: int| #![trigger out@[k]] 0 <= k < out@.len() implies n < out@[k]
            < self@[n as int].next && out@[k] < self@.len() && !self@[out@[k] as int].token
            && in_class(class, self@[out@[k] as int].kind) by {
            assert(children(self@, n as int, class)[k] == out@[k]);
        }
        out
    }

    /// The first token of `kind` directly under `n`.
    pub fn child_token(&self, n: usize, kind: u16) -> (r: Option<usize>)
        requires
            well_formed(self@),
            n < self@.len(),
        ensures
            oint(r) == child_token(self@, n as int, kind),
            r matches Some(x) ==> n < x < self@[n as int].next && x < self@.len()
                && self@[x as int].token && self@[x as int].kind == kind,
    {
        proof {
            lemma_token_from(self@, n + 1, self@[n as int].next, kind);
        }
        let end: usize = self.next(n);
        let mut i: usize = n + 1;
        while i < end
            invariant
                well_formed(self@),
                n < self@.len(),
                end == self@[n as int].next,
                end <= self@.len(),
                n < i <= self@.len(),
                child_token(self@, n as int, kind) == token_from(
                    self@,
                    i as int,
                    end as int,
                    kind,
                ),
            decreases self@.len() - i,
        {
            if self.is_token(i) && self.kind(i) == kind {
                return Some(i);
            }
            i = self.next(i);
        }
        None
    }

    /// The tokens of `kind` directly under `n`, in order.
    pub fn child_tokens(&self, n: usize, kind: u16) -> (r: Vec<usize>)
        requires
            well_formed(self@),
            n < self@.len(),
        ensures
            ints(r@) == child_tokens(self@, n as int, kind),
            forall|k: int|
                #![trigger r@[k]]
                0 <= k < r@.len() ==> n < r@[k] < self@[n as int].next && r@[k] < self@.len()
                    && self@[r@[k] as int].token && self@[r@[k] as int].kind == kind,
    {
        proof {
            lemma_tokens_from(self@, n + 1, self@[n as int].next, kind);
        }
        let end: usize = self.next(n);
        let mut out: Vec<usize> = Vec::new();
        let mut i: usize = n + 1;
        assert(ints(out@) + tokens_from(self@, i as int, end as int, kind) =~= child_tokens(
            self@,
            n as int,
            kind,
        ));
        while i < end
            invariant
                well_formed(self@),
                n < self@.len(),
                end == self@[n as int].next,
                end <= self@.len(),
                n < i <= self@.len(),
                ints(out@) + tokens_from(self@, i as int, end as int, kind) == child_tokens(
                    self@,
                    n as int,
                    kind,
                ),
            decreases self@.len() - i,
        {
            let ghost before = ints(out@);
            let next: usize = self.next(i);
            if self.is_token(i) && self.kind(i) == kind {
                out.push(i);
                assert(ints(out@) =~= before.push(i as int));
                assert(before + (seq![i as int] + tokens_from(
                    self@,
                    next as int,
                    end as int,
                    kind,
                )) =~= ints(out@) + tokens_from(self@, next as int, end as int, kind));
            }
            i = next;
        }
        assert(ints(out@) + Seq::<int>::empty() =~= ints(out@));
        assert forall|k: int| #![trigger out@[k]] 0 <= k < out@.len() implies n < out@[k]
            < self@[n as int].next && out@[k] < self@.len() && self@[out@[k] as int].token
            && self@[out@[k] as int].kind == kind by {
            assert(child_tokens(self@, n as int, kind)[k] == out@[k]);
        }
        out
    }

    /// The text of element `n`: the texts of its tokens, joined.
    pub fn text(&self, n: usize) -> (r: String)
        requires
            well_formed(self@),
            n < self@.len(),
        ensures
            r@ == text_of(self@, n as int),
    {
        let end: usize = self.next(n);
        let mut out = String::new();
        let mut i: usize = n;
        assert(out@ =~= Seq::<char>::empty());
        while i < end
            invariant
                n <= i <= end <= self@.len(),
                out@ == text_between(self@, n as int, i as int),
            decreases end - i,
        {
            if self.is_token(i) {
                out.append(self.token_text(i));
            } else {
                assert(out@ + Seq::<char>::empty() =~= out@);
            }
            i = i + 1;
        }
        out
    }

    /// The nearest node of `class` among `i` and its ancestors.
    pub fn nearest(&self, i: usize, class: Class) -> (r: Option<usize>)
        requires
            well_formed(self@),
            i < self@.len(),
        ensures
            oint(r) == nearest(self@, i as int, class),
            r matches Some(x) ==> x <= i && !self@[x as int].token && in_class(
                class,
                self@[x as int].kind,
            ),
    {
        let mut k: usize = i;
        loop
            invariant
                well_formed(self@),
                k <= i < self@.len(),
                nearest(self@, i as int, class) == nearest(self@, k as int, class),
            decreases k,
        {
            if !self.is_token(k) && is_in_class(class, self.kind(k)) {
                return Some(k);
            }
            match self.parent(k) {
                Some(p) => {
                    assert(self@[k as int].parent == Some(p as int));
                    k = p;
                },
                None => {
                    return None;
                },
            }
        }
    }

    /// The first token from index `i` on that touches `offset`.
    pub fn touching(&self, i: usize, offset: u32) -> (r: Option<usize>)
        ensures
            oint(r) == touching_from(self@, i as int, offset),
            r matches Some(x) ==> i <= x < self@.len() && self@[x as int].token,
    {
        let n: usize = self.len();
        let mut k: usize = i;
        while k < n
            invariant
                i <= k,
                n == self@.len(),
                touching_from(self@, i as int, offset) == touching_from(self@, k as int, offset),
            decreases n - k,
        {
            let g = self.range(k);
            if self.is_token(k) && g.start < g.end && g.start <= offset && offset <= g.end {
                return Some(k);
            }
            k = k + 1;
        }
        None
    }

    /// The offset behind the whole text.
    pub fn end(&self) -> (r: u32)
        ensures
            r == end_of(self@),
    {
        if self.len() == 0 {
            0
        } else {
            self.elems[0].end
        }
    }
}


/// The complaints of the parser as diagnostics.
pub open spec fn parse_diags(errors: Seq<ParseErrorView>) -> Seq<DiagView> {
    errors.map_values(
        |e: ParseErrorView|
            plain_diag(
                Severity::Error,
                e.prefix,
                e.number,
                e.message,
                TextRange { start: e.start, end: e.end },
            ),
    )
}

fn diagnostics_of(errors: Vec<ParseError>) -> (r: Vec<Diagnostic>)
    ensures
        diags_view(r@) == parse_diags(errors@.map_values(|e: ParseError| e@)),
{
    let mut out: Vec<Diagnostic> = Vec::new();
    let mut i: usize = 0;
    while i < errors.len()
        invariant
            i <= errors@.len(),
            out@.len() == i,
            forall|j: int|
                #![trigger out@[j]]
                0 <= j < i ==> out@[j]@ == plain_diag(
                    Severity::Error,
                    errors@[j]@.prefix,
                    errors@[j]@.number,
                    errors@[j]@.message,
                    TextRange { start: errors@[j]@.start, end: errors@[j]@.end },
                ),
        decreases errors@.len() - i,
    {
        let e = &errors[i];
        let d = Diagnostic::error(
            DiagnosticCode::new(e.prefix, e.number),
            e.message.clone(),
            TextRange { start: e.start, end: e.end },
        );
        out.push(d);
        i = i + 1;
    }
    assert(diags_view(out@) =~= parse_diags(errors@.map_values(|e: ParseError| e@)));
    out
}

/// Parses a text into its tree and the complaints of the parser.
pub fn parse(text: &str) -> (r: (SyntaxTree, Vec<Diagnostic>))
    requires
        encode_utf8(text@).len() <= u32::MAX,
    ensures
        r.0@ == tree_of(parse_result(text@).0),
        diags_view(r.1@) == parse_diags(parse_result(text@).1),
        well_formed(r.0@),
        leaves_text(r.0@, r.0@.len() as int) == text@,
        starts_right(r.0@),
{
    let (walk, errors) = parse_walk(text);
    proof {
        law_tree_is_lossless(walk_view(walk@));
    }
    let tree = build_tree(&walk);
    (tree, diagnostics_of(errors))
}

} // verus!
