//! Byte ranges and string helpers shared by the whole library.
//!
//! Positions are UTF-8 byte offsets. Strings are specified by their sequence
//! of characters.

use vstd::prelude::*;
use vstd::std_specs::iter::IteratorSpec;
use vstd::string::*;

verus! {

/// Appends one character to a string (`String::push`): the characters of the
/// string afterwards are the old ones followed by the new one.
pub assume_specification[ String::push ](s: &mut String, c: char)
    ensures
        final(s)@ == old(s)@.push(c),
;

/// A half-open range of byte offsets in a source text.
#[derive(Clone, Copy, Debug, PartialEq, Eq, Hash, Structural)]
pub struct TextRange {
    pub start: u32,
    pub end: u32,
}

impl TextRange {
    /// The range from `start` to `end`.
    pub fn new(start: u32, end: u32) -> (r: TextRange)
        requires
            start <= end,
        ensures
            r == (TextRange { start, end }),
    {
        TextRange { start, end }
    }

    /// The empty range at `offset`.
    pub fn empty(offset: u32) -> (r: TextRange)
        ensures
            r == (TextRange { start: offset, end: offset }),
    {
        TextRange { start: offset, end: offset }
    }

    /// The first offset of the range.
    pub fn start(&self) -> (r: u32)
        ensures
            r == self.start,
    {
        self.start
    }

    /// The offset just behind the range.
    pub fn end(&self) -> (r: u32)
        ensures
            r == self.end,
    {
        self.end
    }
}

/// The characters of an optional string.
pub open spec fn otext(o: Option<String>) -> Option<Seq<char>> {
    match o {
        Some(s) => Some(s@),
        None => None,
    }
}

/// The values of a list of strings.
pub open spec fn texts(s: Seq<String>) -> Seq<Seq<char>> {
    s.map_values(|x: String| x@)
}

/// Whether two strings hold the same characters.
pub fn same_text(a: &str, b: &str) -> (r: bool)
    ensures
        r == (a@ == b@),
{
    let mut x = a.chars();
    let mut y = b.chars();
    let ghost n: int = 0;
    loop
        invariant
            0 <= n <= a@.len(),
            n <= b@.len(),
            a@.take(n) == b@.take(n),
            IteratorSpec::remaining(&x) == a@.skip(n),
            IteratorSpec::remaining(&y) == b@.skip(n),
            IteratorSpec::obeys_prophetic_iter_laws(&x),
            IteratorSpec::obeys_prophetic_iter_laws(&y),
        decreases a@.len() - n,
    {
        let c = x.next();
        let d = y.next();
        match (c, d) {
            (None, None) => {
                assert(a@ =~= a@.take(n));
                assert(b@ =~= b@.take(n));
                return true;
            },
            (Some(p), Some(q)) => {
                if p != q {
                    assert(a@[n] != b@[n]);
                    return false;
                }
                proof {
                    assert(a@.take(n + 1) =~= a@.take(n).push(p));
                    assert(b@.take(n + 1) =~= b@.take(n).push(q));
                    assert(a@.skip(n).drop_first() =~= a@.skip(n + 1));
                    assert(b@.skip(n).drop_first() =~= b@.skip(n + 1));
                    n = n + 1;
                }
            },
            _ => {
                return false;
            },
        }
    }
}

/// The two strings, one after the other.
pub fn cat2(a: &str, b: &str) -> (r: String)
    ensures
        r@ == a@ + b@,
{
    let mut s = a.to_owned();
    s.append(b);
    s
}

/// The three strings, one after the other.
pub fn cat3(a: &str, b: &str, c: &str) -> (r: String)
    ensures
        r@ == a@ + b@ + c@,
{
    let mut s = cat2(a, b);
    s.append(c);
    s
}

/// The four strings, one after the other.
pub fn cat4(a: &str, b: &str, c: &str, d: &str) -> (r: String)
    ensures
        r@ == a@ + b@ + c@ + d@,
{
    let mut s = cat3(a, b, c);
    s.append(d);
    s
}

/// The five strings, one after the other.
pub fn cat5(a: &str, b: &str, c: &str, d: &str, e: &str) -> (r: String)
    ensures
        r@ == a@ + b@ + c@ + d@ + e@,
{
    let mut s = cat4(a, b, c, d);
    s.append(e);
    s
}

/// Whether a character has the Unicode property `White_Space`.
pub open spec fn white_space(c: char) -> bool {
    let u = c as u32;
    ||| 0x9 <= u <= 0xd
    ||| u == 0x20
    ||| u == 0x85
    ||| u == 0xa0
    ||| u == 0x1680
    ||| 0x2000 <= u <= 0x200a
    ||| u == 0x2028
    ||| u == 0x2029
    ||| u == 0x202f
    ||| u == 0x205f
    ||| u == 0x3000
}

/// `char::is_whitespace` gives the Unicode property `White_Space`.
pub assume_specification[ char::is_whitespace ](c: char) -> (r: bool)
    ensures
        r == white_space(c),
;

/// The characters of a string.
pub fn chars_of(s: &str) -> (r: Vec<char>)
    ensures
        r@ == s@,
{
    let mut out: Vec<char> = Vec::new();
    let mut x = s.chars();
    loop
        invariant
            out@.len() <= s@.len(),
            out@ == s@.take(out@.len() as int),
            IteratorSpec::remaining(&x) == s@.skip(out@.len() as int),
            IteratorSpec::obeys_prophetic_iter_laws(&x),
        decreases s@.len() - out@.len(),
    {
        match x.next() {
            Some(c) => {
                let ghost n = out@.len() as int;
                assert(s@.take(n + 1) =~= s@.take(n).push(c));
                assert(s@.skip(n).drop_first() =~= s@.skip(n + 1));
                out.push(c);
            },
            None => {
                assert(s@ =~= s@.take(out@.len() as int));
                return out;
            },
        }
    }
}

/// The characters from `from` up to `to` as a string.
pub fn slice_text(chars: &Vec<char>, from: usize, to: usize) -> (r: String)
    requires
        from <= to <= chars@.len(),
    ensures
        r@ == chars@.subrange(from as int, to as int),
{
    let mut out = String::new();
    let mut i: usize = from;
    while i < to
        invariant
            from <= i <= to <= chars@.len(),
            out@ == chars@.subrange(from as int, i as int),
        decreases to - i,
    {
        out.push(chars[i]);
        assert(chars@.subrange(from as int, i + 1) =~= chars@.subrange(from as int, i as int).push(
            chars@[i as int],
        ));
        i = i + 1;
    }
    out
}

/// The first position at or after `i` that holds no white space.
pub open spec fn skip_white(s: Seq<char>, i: int) -> int
    decreases s.len() - i,
{
    if 0 <= i < s.len() && white_space(s[i]) {
        skip_white(s, i + 1)
    } else {
        i
    }
}

/// The position behind the last character before `i` that is no white space.
pub open spec fn drop_white(s: Seq<char>, i: int) -> int
    decreases i,
{
    if 0 < i <= s.len() && white_space(s[i - 1]) {
        drop_white(s, i - 1)
    } else {
        i
    }
}

/// The first position at or after `i` that does not hold `c`.
pub open spec fn skip_char(s: Seq<char>, c: char, i: int) -> int
    decreases s.len() - i,
{
    if 0 <= i < s.len() && s[i] == c {
        skip_char(s, c, i + 1)
    } else {
        i
    }
}

/// The position behind the last character before `i` that is not `c`.
pub open spec fn drop_char(s: Seq<char>, c: char, i: int) -> int
    decreases i,
{
    if 0 < i <= s.len() && s[i - 1] == c {
        drop_char(s, c, i - 1)
    } else {
        i
    }
}

/// `s` without white space at its end.
pub open spec fn trimmed_end(s: Seq<char>) -> Seq<char> {
    s.take(drop_white(s, s.len() as int))
}

/// `s` without white space at its start.
pub open spec fn trimmed_start(s: Seq<char>) -> Seq<char> {
    s.skip(skip_white(s, 0))
}

/// `s` without white space at either end.
pub open spec fn trimmed(s: Seq<char>) -> Seq<char> {
    trimmed_end(trimmed_start(s))
}

/// A text without white space at its ends is trimmed already.
pub proof fn lemma_trimmed_same(s: Seq<char>)
    requires
        s.len() > 0 ==> !white_space(s[0]) && !white_space(s.last()),
    ensures
        trimmed(s) == s,
{
    assert(s.skip(0) =~= s);
    assert(s.take(s.len() as int) =~= s);
}

/// Trimming keeps the first character that is no white space.
pub proof fn lemma_trimmed_head(s: Seq<char>)
    requires
        s.len() > 0,
        !white_space(s[0]),
    ensures
        trimmed(s).len() > 0,
        trimmed(s)[0] == s[0],
{
    assert(s.skip(0) =~= s);
    lemma_drop_white(s, s.len() as int);
}

proof fn lemma_drop_white(s: Seq<char>, i: int)
    requires
        0 < i <= s.len(),
        !white_space(s[0]),
    ensures
        0 < drop_white(s, i) <= i,
    decreases i,
{
    if i > 1 && white_space(s[i - 1]) {
        lemma_drop_white(s, i - 1);
    }
}

/// Removes white space at the start of `s`.
pub fn trim_start(s: &str) -> (r: String)
    ensures
        r@ == trimmed_start(s@),
{
    let v = chars_of(s);
    let mut i: usize = 0;
    while i < v.len() && v[i].is_whitespace()
        invariant
            i <= v@.len(),
            skip_white(v@, 0) == skip_white(v@, i as int),
        decreases v@.len() - i,
    {
        i = i + 1;
    }
    let r = slice_text(&v, i, v.len());
    assert(r@ =~= v@.skip(i as int));
    r
}

/// Removes white space at the end of `s`.
pub fn trim_end(s: &str) -> (r: String)
    ensures
        r@ == trimmed_end(s@),
{
    let v = chars_of(s);
    let mut i: usize = v.len();
    while i > 0 && v[i - 1].is_whitespace()
        invariant
            i <= v@.len(),
            drop_white(v@, v@.len() as int) == drop_white(v@, i as int),
        decreases i,
    {
        i = i - 1;
    }
    let r = slice_text(&v, 0, i);
    assert(r@ =~= v@.take(i as int));
    r
}

/// Removes white space at both ends of `s`.
pub fn trim(s: &str) -> (r: String)
    ensures
        r@ == trimmed(s@),
{
    trim_end(&trim_start(s))
}

/// Removes every `c` at the end of `s`.
pub fn trim_end_char(s: &str, c: char) -> (r: String)
    ensures
        r@ == s@.take(drop_char(s@, c, s@.len() as int)),
{
    let v = chars_of(s);
    let mut i: usize = v.len();
    while i > 0 && v[i - 1] == c
        invariant
            i <= v@.len(),
            drop_char(v@, c, v@.len() as int) == drop_char(v@, c, i as int),
        decreases i,
    {
        i = i - 1;
    }
    let r = slice_text(&v, 0, i);
    assert(r@ =~= v@.take(i as int));
    r
}

/// Removes every `c` at the start of `s`.
pub fn trim_start_char(s: &str, c: char) -> (r: String)
    ensures
        r@ == s@.skip(skip_char(s@, c, 0)),
{
    let v = chars_of(s);
    let mut i: usize = 0;
    while i < v.len() && v[i] == c
        invariant
            i <= v@.len(),
            skip_char(v@, c, 0) == skip_char(v@, c, i as int),
        decreases v@.len() - i,
    {
        i = i + 1;
    }
    let r = slice_text(&v, i, v.len());
    assert(r@ =~= v@.skip(i as int));
    r
}

/// The maximal runs of characters from position `i` on that hold no white
/// space, where `run` has been read already.
pub open spec fn words_from(s: Seq<char>, i: int, run: Seq<char>) -> Seq<Seq<char>>
    decreases s.len() - i,
{
    if i < 0 || i >= s.len() {
        if run.len() > 0 {
            seq![run]
        } else {
            Seq::empty()
        }
    } else if white_space(s[i]) {
        if run.len() > 0 {
            seq![run] + words_from(s, i + 1, Seq::empty())
        } else {
            words_from(s, i + 1, Seq::empty())
        }
    } else {
        words_from(s, i + 1, run.push(s[i]))
    }
}

/// The first `n` of `parts`, with `sep` between neighbours.
pub open spec fn join_upto(parts: Seq<Seq<char>>, sep: Seq<char>, n: int) -> Seq<char>
    decreases n,
{
    if n <= 0 || n > parts.len() {
        Seq::empty()
    } else if n == 1 {
        parts[0]
    } else {
        join_upto(parts, sep, n - 1) + sep + parts[n - 1]
    }
}

/// All of `parts`, with `sep` between neighbours.
pub open spec fn join(parts: Seq<Seq<char>>, sep: Seq<char>) -> Seq<char> {
    join_upto(parts, sep, parts.len() as int)
}

/// The words of `s` with one space between them.
pub open spec fn collapsed(s: Seq<char>) -> Seq<char> {
    join(words_from(s, 0, Seq::empty()), seq![' '])
}

/// Joins strings with a separator.
pub fn join_texts(parts: &Vec<String>, sep: &str) -> (r: String)
    ensures
        r@ == join(texts(parts@), sep@),
{
    let mut out = String::new();
    let mut i: usize = 0;
    while i < parts.len()
        invariant
            i <= parts@.len(),
            out@ == join_upto(texts(parts@), sep@, i as int),
        decreases parts@.len() - i,
    {
        if i > 0 {
            out.append(sep);
        }
        assert(texts(parts@)[i as int] == parts@[i as int]@);
        assert(i == 0 ==> out@ + parts@[i as int]@ =~= parts@[i as int]@);
        out.append(&parts[i]);
        i = i + 1;
    }
    out
}

/// Collapses every run of white space to one space and drops it at the ends.
pub fn collapse_ws(s: &str) -> (r: String)
    ensures
        r@ == collapsed(s@),
{
    let v = chars_of(s);
    let mut words: Vec<String> = Vec::new();
    let mut run = String::new();
    let mut i: usize = 0;
    assert(run@ =~= Seq::<char>::empty());
    assert(texts(words@) + words_from(v@, 0, run@) =~= words_from(v@, 0, Seq::empty()));
    while i < v.len()
        invariant
            i <= v@.len(),
            texts(words@) + words_from(v@, i as int, run@) == words_from(v@, 0, Seq::empty()),
        decreases v@.len() - i,
    {
        let ghost before = texts(words@);
        let c = v[i];
        if c.is_whitespace() {
            if !run.as_str().is_empty() {
                let ghost w = run@;
                words.push(run);
                run = String::new();
                assert(run@ =~= Seq::<char>::empty());
                assert(texts(words@) =~= before.push(w));
                assert(before + (seq![w] + words_from(v@, i + 1, Seq::empty())) =~= before.push(w)
                    + words_from(v@, i + 1, Seq::empty()));
            } else {
                assert(run@ =~= Seq::<char>::empty());
            }
        } else {
            run.push(c);
        }
        i = i + 1;
    }
    let ghost before = texts(words@);
    if !run.as_str().is_empty() {
        let ghost w = run@;
        words.push(run);
        assert(texts(words@) =~= before.push(w));
        assert(before.push(w) =~= before + seq![w]);
    } else {
        assert(before + Seq::<Seq<char>>::empty() =~= before);
    }
    proof {
        reveal_strlit(" ");
        assert(" "@ =~= seq![' ']);
    }
    join_texts(&words, " ")
}

// ---------------------------------------------------------------------------
// Numbers in texts
// ---------------------------------------------------------------------------

/// The digit that stands for `d` below ten.
pub open spec fn digit(d: nat) -> char {
    if d == 0 {
        '0'
    } else if d == 1 {
        '1'
    } else if d == 2 {
        '2'
    } else if d == 3 {
        '3'
    } else if d == 4 {
        '4'
    } else if d == 5 {
        '5'
    } else if d == 6 {
        '6'
    } else if d == 7 {
        '7'
    } else if d == 8 {
        '8'
    } else {
        '9'
    }
}

/// `n` in decimal, without leading zeros.
pub open spec fn decimal(n: nat) -> Seq<char>
    decreases n,
{
    if n < 10 {
        seq![digit(n)]
    } else {
        decimal(n / 10).push(digit(n % 10))
    }
}

fn digit_char(d: u128) -> (r: char)
    requires
        d < 10,
    ensures
        r == digit(d as nat),
{
    if d == 0 {
        '0'
    } else if d == 1 {
        '1'
    } else if d == 2 {
        '2'
    } else if d == 3 {
        '3'
    } else if d == 4 {
        '4'
    } else if d == 5 {
        '5'
    } else if d == 6 {
        '6'
    } else if d == 7 {
        '7'
    } else if d == 8 {
        '8'
    } else {
        '9'
    }
}

/// Writes `n` in decimal.
pub fn decimal_text(n: u128) -> (r: String)
    ensures
        r@ == decimal(n as nat),
    decreases n,
{
    if n < 10 {
        let mut s = String::new();
        s.push(digit_char(n));
        assert(s@ =~= seq![digit(n as nat)]);
        s
    } else {
        let mut s = decimal_text(n / 10);
        s.push(digit_char(n % 10));
        s
    }
}

/// Whether `s` begins with `prefix`.
pub open spec fn begins_with(s: Seq<char>, prefix: Seq<char>) -> bool {
    prefix.len() <= s.len() && s.take(prefix.len() as int) == prefix
}

/// What is left of `s` behind `prefix`, where it begins with it.
pub fn strip_prefix(s: &str, prefix: &str) -> (r: Option<String>)
    ensures
        otext(r) == (if begins_with(s@, prefix@) {
            Some(s@.skip(prefix@.len() as int))
        } else {
            None
        }),
{
    let v = chars_of(s);
    let p = chars_of(prefix);
    if p.len() > v.len() {
        return None;
    }
    let mut i: usize = 0;
    while i < p.len()
        invariant
            i <= p@.len() <= v@.len(),
            v@ == s@,
            p@ == prefix@,
            forall|j: int| 0 <= j < i ==> v@[j] == p@[j],
        decreases p@.len() - i,
    {
        if v[i] != p[i] {
            assert(s@.take(p@.len() as int)[i as int] != prefix@[i as int]);
            return None;
        }
        i = i + 1;
    }
    assert(s@.take(p@.len() as int) =~= prefix@);
    let rest = slice_text(&v, p.len(), v.len());
    assert(rest@ =~= s@.skip(prefix@.len() as int));
    Some(rest)
}

} // verus!
