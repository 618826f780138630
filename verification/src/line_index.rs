//! Byte offsets and line/column positions.
//!
//! Columns are UTF-16 code units. Lines end behind `\n`; a preceding `\r`
//! belongs to the line it terminates.

use vstd::prelude::*;
use vstd::string::*;
use vstd::utf8::{encode_scalar, encode_utf8};

use crate::text::chars_of;

verus! {

/// A position by line and column, both counted from 0.
#[derive(Clone, Copy, Debug, PartialEq, Eq, Structural)]
pub struct LineCol {
    /// The line.
    pub line: u32,
    /// The column in UTF-16 code units.
    pub col: u32,
}

// ---------------------------------------------------------------------------
// Model
// ---------------------------------------------------------------------------

/// The number of UTF-16 code units of a character.
pub open spec fn utf16_len(c: char) -> int {
    if (c as u32) < 0x10000 {
        1
    } else {
        2
    }
}

/// The number of UTF-8 bytes of a character.
pub open spec fn utf8_len(c: char) -> int {
    encode_scalar(c as u32).len() as int
}

/// The UTF-16 code units of the characters `i` to `j`.
pub open spec fn units(text: Seq<char>, i: int, j: int) -> int
    decreases j - i,
{
    if i < j {
        units(text, i, j - 1) + utf16_len(text[j - 1])
    } else {
        0
    }
}

/// The byte offset of character `i`.
pub open spec fn byte_at(text: Seq<char>, i: int) -> int {
    encode_utf8(text.take(i)).len() as int
}

/// Whether a character starts at byte `offset`, or the text ends there.
pub open spec fn boundary(text: Seq<char>, offset: int) -> bool {
    exists|i: int| 0 <= i <= text.len() && #[trigger] byte_at(text, i) == offset
}

/// The number of line ends among the first `i` characters.
pub open spec fn line_no(text: Seq<char>, i: int) -> int
    decreases i,
{
    if i <= 0 {
        0
    } else if text[i - 1] == '\n' {
        line_no(text, i - 1) + 1
    } else {
        line_no(text, i - 1)
    }
}

/// Where the line of character `i` begins.
pub open spec fn line_begin(text: Seq<char>, i: int) -> int
    decreases i,
{
    if i <= 0 {
        0
    } else if text[i - 1] == '\n' {
        i
    } else {
        line_begin(text, i - 1)
    }
}

/// Where the line begins that is `n` line ends behind character `i`.
pub open spec fn nth_line(text: Seq<char>, i: int, n: int) -> Option<int>
    decreases text.len() - i,
{
    if n <= 0 {
        Some(i)
    } else if 0 <= i < text.len() {
        nth_line(
            text,
            i + 1,
            if text[i] == '\n' {
                n - 1
            } else {
                n
            },
        )
    } else {
        None
    }
}

/// Where the line of character `i` ends, its line end included.
pub open spec fn line_end(text: Seq<char>, i: int) -> int
    decreases text.len() - i,
{
    if 0 <= i < text.len() {
        if text[i] == '\n' {
            i + 1
        } else {
            line_end(text, i + 1)
        }
    } else {
        text.len() as int
    }
}

/// Where the content of the line from `begin` to `end` ends, its line end
/// left out.
pub open spec fn content_end(text: Seq<char>, begin: int, end: int) -> int {
    if begin < end && text[end - 1] == '\n' {
        if begin < end - 1 && text[end - 2] == '\r' {
            end - 2
        } else {
            end - 1
        }
    } else {
        end
    }
}

/// The first character from `i` up to `end` that has `col` code units before
/// it, or `end` where there is none.
pub open spec fn at_column(text: Seq<char>, i: int, end: int, col: int) -> int
    decreases end - i,
{
    if i < end {
        if col <= 0 {
            i
        } else {
            at_column(text, i + 1, end, col - utf16_len(text[i]))
        }
    } else {
        end
    }
}

/// The line and column of character `i`.
pub open spec fn position(text: Seq<char>, i: int) -> (int, int) {
    (line_no(text, i), units(text, line_begin(text, i), i))
}

/// The character at a line and column; a column behind the content of its line
/// stands for the end of that content, before the line end.
pub open spec fn char_at(text: Seq<char>, line: int, col: int) -> Option<int> {
    match nth_line(text, 0, line) {
        Some(b) => Some(at_column(text, b, content_end(text, b, line_end(text, b)), col)),
        None => None,
    }
}

// ---------------------------------------------------------------------------
// Facts of the model
// ---------------------------------------------------------------------------

proof fn lemma_encode_push(s: Seq<char>, c: char)
    ensures
        encode_utf8(s.push(c)) == encode_utf8(s) + encode_scalar(c as u32),
    decreases s.len(),
{
    let t = s.push(c);
    reveal_with_fuel(encode_utf8, 2);
    if s.len() == 0 {
        assert(t.drop_first() =~= Seq::<char>::empty());
        assert(encode_utf8(t) =~= encode_utf8(s) + encode_scalar(c as u32));
    } else {
        assert(t.drop_first() =~= s.drop_first().push(c));
        lemma_encode_push(s.drop_first(), c);
        assert(encode_utf8(t) =~= encode_utf8(s) + encode_scalar(c as u32));
    }
}

/// The next character starts where this one ends.
pub proof fn lemma_byte_step(text: Seq<char>, i: int)
    requires
        0 <= i < text.len(),
    ensures
        byte_at(text, i + 1) == byte_at(text, i) + utf8_len(text[i]),
        1 <= utf8_len(text[i]) <= 4,
{
    assert(text.take(i + 1) =~= text.take(i).push(text[i]));
    lemma_encode_push(text.take(i), text[i]);
}

/// A later character has a greater byte offset.
pub proof fn lemma_byte_mono(text: Seq<char>, i: int, j: int)
    requires
        0 <= i <= j <= text.len(),
    ensures
        byte_at(text, i) + (j - i) <= byte_at(text, j),
        byte_at(text, j) <= encode_utf8(text).len(),
    decreases text.len() - i,
{
    if i < j {
        lemma_byte_step(text, i);
        lemma_byte_mono(text, i + 1, j);
    } else if j < text.len() {
        lemma_byte_step(text, j);
        lemma_byte_mono(text, j + 1, j + 1);
    } else {
        assert(text.take(j) =~= text);
    }
}

proof fn lemma_units(text: Seq<char>, i: int, j: int)
    requires
        0 <= i <= j <= text.len(),
    ensures
        j - i <= units(text, i, j) <= byte_at(text, j) - byte_at(text, i),
    decreases j - i,
{
    if i < j {
        lemma_units(text, i, j - 1);
        lemma_byte_step(text, j - 1);
    }
}

proof fn lemma_line_no(text: Seq<char>, i: int)
    requires
        0 <= i <= text.len(),
    ensures
        0 <= line_no(text, i) <= i,
        0 <= line_begin(text, i) <= i,
    decreases i,
{
    if i > 0 {
        lemma_line_no(text, i - 1);
    }
}

/// Where a line is found, the lines up to it have been counted.
proof fn lemma_nth_line(text: Seq<char>, i: int, n: int)
    requires
        0 <= i <= text.len(),
        0 <= n,
    ensures
        nth_line(text, i, n) matches Some(b) ==> i <= b <= text.len() && line_no(text, b)
            == line_no(text, i) + n && (n > 0 ==> line_begin(text, b) == b),
        nth_line(text, i, n) is None ==> line_no(text, text.len() as int) < line_no(text, i) + n,
    decreases text.len() - i,
{
    if n > 0 && i < text.len() {
        lemma_nth_line(
            text,
            i + 1,
            if text[i] == '\n' {
                n - 1
            } else {
                n
            },
        );
    }
}

/// The line of a character begins where counting its line ends leads.
proof fn lemma_line_found(text: Seq<char>, i: int, j: int)
    requires
        0 <= i <= j <= text.len(),
        i == 0 || text[i - 1] == '\n',
    ensures
        line_no(text, j) >= line_no(text, i),
        nth_line(text, i, line_no(text, j) - line_no(text, i)) == Some(
            if line_no(text, j) == line_no(text, i) {
                i
            } else {
                line_begin(text, j)
            },
        ),
        line_no(text, j) == line_no(text, i) ==> line_begin(text, j) == i,
    decreases j - i,
{
    if i < j {
        lemma_line_found(text, i, j - 1);
        lemma_nth_line_push(text, i, j - 1, line_no(text, j - 1) - line_no(text, i));
    } else {
        lemma_line_no(text, i);
    }
}

/// From the line end of the line found, one more line is found.
proof fn lemma_nth_line_push(text: Seq<char>, i: int, j: int, n: int)
    requires
        0 <= i <= j < text.len(),
        n == line_no(text, j) - line_no(text, i),
        n >= 0,
    ensures
        text[j] == '\n' ==> nth_line(text, i, n + 1) == Some(j + 1),
    decreases j - i,
{
    if text[j] == '\n' {
        if i < j {
            lemma_line_step(text, i + 1, j);
            lemma_nth_line_push(
                text,
                i + 1,
                j,
                if text[i] == '\n' {
                    n - 1
                } else {
                    n
                },
            );
        } else {
            assert(nth_line(text, i + 1, 0) == Some(i + 1));
        }
    }
}

proof fn lemma_line_step(text: Seq<char>, i: int, j: int)
    requires
        0 <= i <= j <= text.len(),
    ensures
        line_no(text, i) <= line_no(text, j),
    decreases j - i,
{
    if i < j {
        lemma_line_step(text, i, j - 1);
    }
}

proof fn lemma_line_end(text: Seq<char>, i: int)
    requires
        0 <= i <= text.len(),
    ensures
        i <= line_end(text, i) <= text.len(),
        i < text.len() ==> i < line_end(text, i),
    decreases text.len() - i,
{
    if i < text.len() && text[i] != '\n' {
        lemma_line_end(text, i + 1);
    }
}

/// A character that lies behind `b` without a line end between is before the
/// end of the line of `b`, or that line has no line end.
proof fn lemma_same_line(text: Seq<char>, b: int, j: int)
    requires
        0 <= b <= j <= text.len(),
        line_no(text, j) == line_no(text, b),
    ensures
        line_end(text, b) == line_end(text, j),
    decreases j - b,
{
    if b < j {
        lemma_line_step(text, b, b + 1);
        lemma_line_step(text, b + 1, j);
        assert(text[b] != '\n');
        lemma_same_line(text, b + 1, j);
    }
}

proof fn lemma_units_front(text: Seq<char>, i: int, j: int)
    requires
        0 <= i < j <= text.len(),
    ensures
        units(text, i, j) == utf16_len(text[i]) + units(text, i + 1, j),
    decreases j - i,
{
    if i + 1 < j {
        lemma_units_front(text, i, j - 1);
    } else {
        assert(units(text, i, i) == 0);
        assert(units(text, i + 1, j) == 0);
    }
}

proof fn lemma_column_found(text: Seq<char>, i: int, j: int, end: int)
    requires
        0 <= i <= j <= end <= text.len(),
    ensures
        at_column(text, i, end, units(text, i, j)) == j,
    decreases j - i,
{
    if i < j {
        lemma_units_front(text, i, j);
        lemma_units(text, i, j);
        lemma_column_found(text, i + 1, j, end);
    }
}

/// Whether character `i` stands between the two characters of a line end.
pub open spec fn inside_line_end(text: Seq<char>, i: int) -> bool {
    0 < i < text.len() && text[i - 1] == '\r' && text[i] == '\n'
}

/// The position of a character leads back to it: going from an offset to a
/// line and column and back gives the offset, wherever it does not lie inside
/// a line end.
pub proof fn law_position_round_trip(text: Seq<char>, i: int)
    requires
        0 <= i <= text.len(),
        !inside_line_end(text, i),
    ensures
        char_at(text, position(text, i).0, position(text, i).1) == Some(i),
{
    let b = line_begin(text, i);
    lemma_line_no(text, i);
    lemma_line_found(text, 0, i);
    assert(nth_line(text, 0, line_no(text, i)) == Some(b));
    lemma_nth_line(text, 0, line_no(text, i));
    let end = line_end(text, b);
    lemma_same_line(text, b, i);
    lemma_line_end(text, i);
    lemma_line_ends(text, b);
    if b < end && i == end {
        lemma_line_step(text, b, end - 1);
    }
    lemma_column_found(text, b, i, content_end(text, b, end));
}

/// A column never leads behind the content of its line: no position is inside
/// a line end or behind it.
pub proof fn law_columns_stay_in_the_content(text: Seq<char>, line: int, col: int)
    requires
        0 <= line,
    ensures
        char_at(text, line, col) matches Some(i) ==> 0 <= i <= text.len() && line_no(text, i)
            == line && !inside_line_end(text, i),
{
    lemma_nth_line(text, 0, line);
    if let Some(b) = nth_line(text, 0, line) {
        let end = line_end(text, b);
        lemma_line_end(text, b);
        lemma_line_ends(text, b);
        let stop = content_end(text, b, end);
        lemma_at_column(text, b, stop, col);
        let i = at_column(text, b, stop, col);
        lemma_no_line_end(text, b, i);
        if line > 0 {
            lemma_begins_behind_line_end(text, b);
        }
    }
}

proof fn lemma_begins_behind_line_end(text: Seq<char>, b: int)
    requires
        0 <= b <= text.len(),
        line_begin(text, b) == b,
    ensures
        b == 0 || text[b - 1] == '\n',
{
    if b > 0 && text[b - 1] != '\n' {
        lemma_line_no(text, b - 1);
    }
}

/// Where no line end lies between, two characters are on one line.
proof fn lemma_no_line_end(text: Seq<char>, b: int, i: int)
    requires
        0 <= b <= i <= text.len(),
        forall|j: int| b <= j < i ==> text[j] != '\n',
    ensures
        line_no(text, i) == line_no(text, b),
    decreases i - b,
{
    if b < i {
        lemma_no_line_end(text, b, i - 1);
    }
}

/// A line holds no line end but its last character.
proof fn lemma_line_ends(text: Seq<char>, i: int)
    requires
        0 <= i <= text.len(),
    ensures
        i <= line_end(text, i) <= text.len(),
        forall|j: int| i <= j < line_end(text, i) - 1 ==> text[j] != '\n',
        i < line_end(text, i) && text[line_end(text, i) - 1] != '\n' ==> line_end(text, i)
            == text.len(),
    decreases text.len() - i,
{
    if i < text.len() && text[i] != '\n' {
        lemma_line_ends(text, i + 1);
        lemma_line_end(text, i + 1);
    }
}

/// The line of a position exists exactly where the text has that many line
/// ends.
pub proof fn law_line_exists(text: Seq<char>, line: int, col: int)
    requires
        0 <= line,
    ensures
        char_at(text, line, col) is Some <==> line <= line_no(text, text.len() as int),
{
    lemma_nth_line(text, 0, line);
    if let Some(b) = nth_line(text, 0, line) {
        lemma_line_step(text, b, text.len() as int);
    }
}

proof fn lemma_at_column(text: Seq<char>, i: int, end: int, col: int)
    requires
        0 <= i <= end <= text.len(),
    ensures
        i <= at_column(text, i, end, col) <= end,
    decreases end - i,
{
    if i < end && col > 0 {
        lemma_at_column(text, i + 1, end, col - utf16_len(text[i]));
    }
}

// ---------------------------------------------------------------------------
// The index
// ---------------------------------------------------------------------------

/// Where the lines of a text start.
pub struct LineIndex {
    chars: Vec<char>,
    /// The length of the text in bytes.
    len: u32,
    /// For each line the byte offset and the character at which it starts.
    line_starts: Vec<(u32, usize)>,
}

impl View for LineIndex {
    type V = Seq<char>;

    closed spec fn view(&self) -> Seq<char> {
        self.chars@
    }
}

fn utf16_of(c: char) -> (r: u32)
    ensures
        r == utf16_len(c),
{
    if (c as u32) < 0x10000 {
        1
    } else {
        2
    }
}

/// The number of UTF-8 bytes of a character.
pub fn utf8_of(c: char) -> (r: u32)
    ensures
        r == utf8_len(c),
{
    proof {
        vstd::utf8::char_is_scalar(c);
    }
    let u: u32 = c as u32;
    if u < 0x80 {
        1
    } else if u < 0x800 {
        2
    } else if u < 0x10000 {
        3
    } else {
        4
    }
}

impl LineIndex {
    #[verifier::type_invariant]
    closed spec fn indexed(&self) -> bool {
        &&& self.len == encode_utf8(self.chars@).len()
        &&& self.line_starts@.len() == line_no(self.chars@, self.chars@.len() as int) + 1
        &&& forall|k: int|
            #![trigger self.line_starts@[k]]
            0 <= k < self.line_starts@.len() ==> nth_line(self.chars@, 0, k) == Some(
                self.line_starts@[k].1 as int,
            ) && self.line_starts@[k].0 == byte_at(self.chars@, self.line_starts@[k].1 as int)
    }

    /// Indexes the lines of a text.
    pub fn new(text: &str) -> (r: LineIndex)
        requires
            encode_utf8(text@).len() <= u32::MAX,
        ensures
            r@ == text@,
    {
        let chars = chars_of(text);
        let ghost t = text@;
        let mut line_starts: Vec<(u32, usize)> = Vec::new();
        line_starts.push((0, 0));
        let mut at: u32 = 0;
        let mut i: usize = 0;
        assert(t.take(0) =~= Seq::<char>::empty());
        while i < chars.len()
            invariant
                i <= chars@.len(),
                chars@ == t,
                encode_utf8(t).len() <= u32::MAX,
                at == byte_at(t, i as int),
                line_starts@.len() == line_no(t, i as int) + 1,
                forall|k: int|
                    #![trigger line_starts@[k]]
                    0 <= k < line_starts@.len() ==> nth_line(t, 0, k) == Some(
                        line_starts@[k].1 as int,
                    ) && line_starts@[k].0 == byte_at(t, line_starts@[k].1 as int),
            decreases chars@.len() - i,
        {
            let c = chars[i];
            proof {
                lemma_byte_step(t, i as int);
                lemma_byte_mono(t, i + 1, i + 1);
                lemma_line_no(t, i as int);
            }
            at = at + utf8_of(c);
            if c == '\n' {
                proof {
                    lemma_nth_line_push(t, 0, i as int, line_no(t, i as int));
                }
                line_starts.push((at, i + 1));
            }
            i = i + 1;
        }
        assert(t.take(i as int) =~= t);
        LineIndex { chars, len: at, line_starts }
    }

    /// The line and column of a byte offset; an offset behind the end of the
    /// text stands for that end. The offset must not lie inside a character.
    #[verifier::rlimit(60)]
    pub fn line_col(&self, offset: u32) -> (r: LineCol)
        requires
            offset < encode_utf8(self@).len() ==> boundary(self@, offset as int),
        ensures
            forall|i: int|
                #![trigger position(self@, i)]
                0 <= i <= self@.len() && byte_at(self@, i) == if offset < encode_utf8(self@).len() {
                    offset as int
                } else {
                    encode_utf8(self@).len() as int
                } ==> (r.line as int, r.col as int) == position(self@, i),
    {
        proof {
            use_type_invariant(self);
        }
        let ghost t = self@;
        let target: u32 = if offset < self.len {
            offset
        } else {
            self.len
        };
        proof {
            assert(t.take(t.len() as int) =~= t);
            assert(byte_at(t, t.len() as int) == encode_utf8(t).len());
            assert(boundary(t, target as int));
            lemma_line_no(t, t.len() as int);
        }
        let ghost goal: int = choose|i: int|
            0 <= i <= t.len() && #[trigger] byte_at(t, i) == target;
        assert(self.line_starts@[0].1 == 0);
        assert(t.take(0) =~= Seq::<char>::empty());
        let mut lo: usize = 0;
        let mut hi: usize = self.line_starts.len();
        while hi - lo > 1
            invariant
                lo < hi <= self.line_starts@.len(),
                self.line_starts@[lo as int].0 <= target,
                hi == self.line_starts@.len() || target < self.line_starts@[hi as int].0,
            decreases hi - lo,
        {
            let mid: usize = lo + (hi - lo) / 2;
            if self.line_starts[mid].0 <= target {
                lo = mid;
            } else {
                hi = mid;
            }
        }
        let (start, first) = self.line_starts[lo];
        let ghost b = first as int;
        proof {
            lemma_nth_line(t, 0, lo as int);
            if goal < b {
                lemma_byte_mono(t, goal, b);
            }
            assert(lo == 0 ==> b == 0);
            if lo == 0 {
                assert(line_begin(t, 0) == 0);
            }
        }
        let count: usize = self.chars.len();
        let mut at: u32 = start;
        let mut col: u32 = 0;
        let mut j: usize = first;
        while at < target
            invariant
                t == self.chars@,
                count == t.len(),
                0 <= b <= j <= goal <= t.len(),
                at == byte_at(t, j as int),
                target == byte_at(t, goal),
                target <= self.len,
                encode_utf8(t).len() == self.len,
                col == units(t, b, j as int),
                line_no(t, j as int) == lo,
                line_begin(t, j as int) == b,
                self.line_starts@.len() == line_no(t, t.len() as int) + 1,
                lo < self.line_starts@.len(),
                lo + 1 == self.line_starts@.len() || target < self.line_starts@[lo + 1].0,
                forall|k: int|
                    #![trigger self.line_starts@[k]]
                    0 <= k < self.line_starts@.len() ==> nth_line(t, 0, k) == Some(
                        self.line_starts@[k].1 as int,
                    ) && self.line_starts@[k].0 == byte_at(t, self.line_starts@[k].1 as int),
            decreases goal - j,
        {
            proof {
                assert(j < goal);
                lemma_byte_step(t, j as int);
                lemma_byte_mono(t, j + 1, goal);
                lemma_units(t, b, j + 1);
                lemma_byte_mono(t, goal, goal);
                if t[j as int] == '\n' {
                    lemma_nth_line_push(t, 0, j as int, lo as int);
                    lemma_line_step(t, j + 1, t.len() as int);
                    assert(self.line_starts@[lo + 1].1 == j + 1);
                    assert(false);
                }
            }
            let c = self.chars[j];
            at = at + utf8_of(c);
            col = col + utf16_of(c);
            j = j + 1;
        }
        proof {
            if j < goal {
                lemma_byte_mono(t, j as int, goal);
            }
            assert forall|i: int|
                #![trigger position(t, i)]
                0 <= i <= t.len() && byte_at(t, i) == target implies position(t, i) == (
                lo as int,
                col as int,
            ) by {
                if i < goal {
                    lemma_byte_mono(t, i, goal);
                } else if goal < i {
                    lemma_byte_mono(t, goal, i);
                }
            }
            lemma_byte_mono(t, 0, goal);
            lemma_line_no(t, goal);
        }
        LineCol { line: lo as u32, col }
    }

    /// The byte offset of a line and column. A column behind the end of its
    /// line stands for the end of the line's content; `None` where the line
    /// does not exist.
    pub fn offset(&self, pos: LineCol) -> (r: Option<u32>)
        ensures
            match char_at(self@, pos.line as int, pos.col as int) {
                Some(i) => 0 <= i <= self@.len() && (r matches Some(offset) && offset == byte_at(
                    self@,
                    i,
                )),
                None => r is None,
            },
    {
        proof {
            use_type_invariant(self);
        }
        let ghost t = self@;
        let line: usize = pos.line as usize;
        proof {
            lemma_nth_line(t, 0, line as int);
        }
        if line >= self.line_starts.len() {
            proof {
                law_line_exists(t, line as int, pos.col as int);
            }
            return None;
        }
        let (start, begin) = self.line_starts[line];
        let ghost b = begin as int;
        let count: usize = self.chars.len();
        let mut end: usize = begin;
        while end < count && self.chars[end] != '\n'
            invariant
                t == self.chars@,
                count == t.len(),
                begin <= end <= count,
                forall|k: int| begin <= k < end ==> t[k] != '\n',
                line_end(t, b) == line_end(t, end as int),
            decreases count - end,
        {
            end = end + 1;
        }
        if end < count && end > begin && self.chars[end - 1] == '\r' {
            end = end - 1;
        }
        let ghost stop = content_end(t, b, line_end(t, b));
        proof {
            lemma_line_end(t, b);
            assert(stop == end);
            lemma_at_column(t, b, stop, pos.col as int);
            lemma_byte_mono(t, b, b);
        }
        let mut at: u32 = start;
        let mut left: u32 = pos.col;
        let mut j: usize = begin;
        let ghost mut want: int = pos.col as int;
        while j < end && left > 0
            invariant
                t == self.chars@,
                encode_utf8(t).len() == self.len,
                0 <= b <= j <= end <= t.len(),
                stop == end,
                at_column(t, b, stop, pos.col as int) == at_column(t, j as int, stop, want),
                at == byte_at(t, j as int),
                want <= 0 <==> left == 0,
                want > 0 ==> left == want,
            decreases end - j,
        {
            let c = self.chars[j];
            proof {
                lemma_byte_step(t, j as int);
                lemma_byte_mono(t, j + 1, j + 1);
                want = want - utf16_len(c);
            }
            let w: u32 = utf16_of(c);
            left = if left > w {
                left - w
            } else {
                0
            };
            at = at + utf8_of(c);
            j = j + 1;
        }
        Some(at)
    }
}

} // verus!
