//! Laws of texts, and of what is shown of a declaration.

use vstd::prelude::*;

use crate::item_tree::{body_start, comment_text, docs_from, docs_of, signature_from, signature_of};
use crate::kinds::{trivia, LINE_COMMENT, WHITESPACE};
use crate::syntax::Tree;
use crate::text::{
    collapsed, drop_char, drop_white, join, join_upto, skip_char, skip_white, trimmed, trimmed_end,
    trimmed_start, white_space, words_from,
};

verus! {

// ---------------------------------------------------------------------------
// White space
// ---------------------------------------------------------------------------

/// The characters of `s` that are no white space.
pub open spec fn solid(s: Seq<char>) -> Seq<char>
    decreases s.len(),
{
    if s.len() == 0 {
        s
    } else if white_space(s.last()) {
        solid(s.drop_last())
    } else {
        solid(s.drop_last()).push(s.last())
    }
}

proof fn lemma_solid_sum(a: Seq<char>, b: Seq<char>)
    ensures
        solid(a + b) == solid(a) + solid(b),
    decreases b.len(),
{
    if b.len() == 0 {
        assert(a + b =~= a);
        assert(solid(a) + solid(b) =~= solid(a));
    } else {
        assert((a + b).drop_last() =~= a + b.drop_last());
        lemma_solid_sum(a, b.drop_last());
        if !white_space(b.last()) {
            assert(solid(a) + solid(b) =~= (solid(a) + solid(b.drop_last())).push(b.last()));
        }
    }
}

proof fn lemma_solid_one(c: char)
    ensures
        solid(seq![c]) == (if white_space(c) {
            Seq::empty()
        } else {
            seq![c]
        }),
{
    reveal_with_fuel(solid, 2);
    assert(seq![c].drop_last() =~= Seq::<char>::empty());
    assert(Seq::<char>::empty().push(c) =~= seq![c]);
}

proof fn lemma_solid_white(s: Seq<char>)
    requires
        forall|i: int| 0 <= i < s.len() ==> white_space(#[trigger] s[i]),
    ensures
        solid(s) == Seq::<char>::empty(),
    decreases s.len(),
{
    if s.len() > 0 {
        assert(white_space(s[s.len() - 1]));
        assert forall|i: int| 0 <= i < s.drop_last().len() implies white_space(
            #[trigger] s.drop_last()[i],
        ) by {
            assert(s.drop_last()[i] == s[i]);
        }
        lemma_solid_white(s.drop_last());
    }
}

proof fn lemma_skip_white(s: Seq<char>, i: int)
    requires
        0 <= i <= s.len(),
    ensures
        i <= skip_white(s, i) <= s.len(),
        forall|j: int| i <= j < skip_white(s, i) ==> white_space(#[trigger] s[j]),
        skip_white(s, i) < s.len() ==> !white_space(s[skip_white(s, i)]),
    decreases s.len() - i,
{
    if i < s.len() && white_space(s[i]) {
        lemma_skip_white(s, i + 1);
    }
}

proof fn lemma_drop_white(s: Seq<char>, i: int)
    requires
        0 <= i <= s.len(),
    ensures
        0 <= drop_white(s, i) <= i,
        forall|j: int| drop_white(s, i) <= j < i ==> white_space(#[trigger] s[j]),
        drop_white(s, i) > 0 ==> !white_space(s[drop_white(s, i) - 1]),
    decreases i,
{
    if i > 0 && white_space(s[i - 1]) {
        lemma_drop_white(s, i - 1);
    }
}

/// Trimming the end takes white space from there and nothing else.
pub proof fn law_trimmed_end(s: Seq<char>)
    ensures
        trimmed_end(s).is_prefix_of(s),
        forall|i: int| trimmed_end(s).len() <= i < s.len() ==> white_space(#[trigger] s[i]),
        trimmed_end(s).len() > 0 ==> !white_space(trimmed_end(s).last()),
        solid(trimmed_end(s)) == solid(s),
{
    let n = s.len() as int;
    lemma_drop_white(s, n);
    let k = drop_white(s, n);
    assert(s =~= s.take(k) + s.skip(k));
    lemma_solid_sum(s.take(k), s.skip(k));
    assert forall|i: int| 0 <= i < s.skip(k).len() implies white_space(#[trigger] s.skip(k)[i]) by {
        assert(s.skip(k)[i] == s[k + i]);
    }
    lemma_solid_white(s.skip(k));
    assert(solid(s.take(k)) + Seq::<char>::empty() =~= solid(s.take(k)));
}

/// Trimming takes white space from both ends and nothing else.
pub proof fn law_trimmed(s: Seq<char>)
    ensures
        solid(trimmed(s)) == solid(s),
        trimmed(s).len() > 0 ==> !white_space(trimmed(s)[0]) && !white_space(trimmed(s).last()),
        trimmed(s).len() == 0 <==> forall|i: int| 0 <= i < s.len() ==> white_space(#[trigger] s[i]),
        exists|i: int| 0 <= i <= s.len() && trimmed(s).is_prefix_of(#[trigger] s.skip(i)),
{
    lemma_skip_white(s, 0);
    let k = skip_white(s, 0);
    let rest = s.skip(k);
    assert(trimmed_start(s) == rest);
    law_trimmed_end(rest);
    assert(s =~= s.take(k) + rest);
    lemma_solid_sum(s.take(k), rest);
    assert forall|i: int| 0 <= i < s.take(k).len() implies white_space(#[trigger] s.take(k)[i]) by {
        assert(s.take(k)[i] == s[i]);
    }
    lemma_solid_white(s.take(k));
    assert(Seq::<char>::empty() + solid(rest) =~= solid(rest));
    assert(trimmed(s).is_prefix_of(s.skip(k)));
    if k < s.len() {
        assert(rest[0] == s[k]);
        assert(!white_space(s[k]));
        if trimmed(s).len() == 0 {
            assert(white_space(rest[0]));
        }
        assert(trimmed(s)[0] == rest[0]);
    }
}

proof fn lemma_join_more(first: Seq<char>, rest: Seq<Seq<char>>, sep: Seq<char>, n: int)
    requires
        1 <= n <= rest.len() + 1,
    ensures
        join_upto(seq![first] + rest, sep, n) == (if n == 1 {
            first
        } else {
            first + sep + join_upto(rest, sep, n - 1)
        }),
    decreases n,
{
    let all = seq![first] + rest;
    assert(all[0] == first);
    if n > 1 {
        lemma_join_more(first, rest, sep, n - 1);
        assert(all[n - 1] == rest[n - 2]);
        if n == 2 {
            assert(first + sep + rest[0] =~= first + sep + join_upto(rest, sep, 1));
        } else {
            let part = join_upto(rest, sep, n - 2);
            assert((first + sep + part) + sep + rest[n - 2] =~= first + sep + (part + sep
                + rest[n - 2]));
        }
    }
}

proof fn lemma_words(s: Seq<char>, i: int, run: Seq<char>)
    requires
        0 <= i <= s.len(),
        forall|j: int| 0 <= j < run.len() ==> !white_space(#[trigger] run[j]),
    ensures
        solid(join(words_from(s, i, run), seq![' '])) == run + solid(s.skip(i)),
        forall|a: int|
            #![trigger words_from(s, i, run)[a]]
            0 <= a < words_from(s, i, run).len() ==> words_from(s, i, run)[a].len() > 0,
        forall|a: int, j: int|
            #![trigger words_from(s, i, run)[a][j]]
            0 <= a < words_from(s, i, run).len() && 0 <= j < words_from(s, i, run)[a].len()
                ==> !white_space(words_from(s, i, run)[a][j]),
    decreases s.len() - i,
{
    let sep = seq![' '];
    let all = words_from(s, i, run);
    lemma_solid_run(run);
    if i < s.len() {
        assert(s.skip(i) =~= seq![s[i]] + s.skip(i + 1));
        lemma_solid_sum(seq![s[i]], s.skip(i + 1));
        lemma_solid_one(s[i]);
        if white_space(s[i]) {
            assert(solid(seq![s[i]]) == Seq::<char>::empty());
            assert(Seq::<char>::empty() + solid(s.skip(i + 1)) =~= solid(s.skip(i + 1)));
            let rest = words_from(s, i + 1, Seq::empty());
            lemma_words(s, i + 1, Seq::empty());
            assert(Seq::<char>::empty() + solid(s.skip(i + 1)) =~= solid(s.skip(i + 1)));
            if run.len() > 0 {
                assert(all == seq![run] + rest);
                lemma_join_more(run, rest, sep, rest.len() as int + 1);
                if rest.len() > 0 {
                    lemma_solid_sum(run + sep, join(rest, sep));
                    lemma_solid_sum(run, sep);
                    lemma_solid_one(' ');
                    assert(white_space(' '));
                    assert(solid(sep) == Seq::<char>::empty());
                    assert(run + Seq::<char>::empty() =~= run);
                } else {
                    assert(join(rest, sep) == Seq::<char>::empty());
                    assert(run + Seq::<char>::empty() =~= run);
                }
                assert forall|a: int| #![trigger all[a]] 0 <= a < all.len() implies all[a].len()
                    > 0 by {
                    if a > 0 {
                        assert(all[a] == rest[a - 1]);
                    }
                }
                assert forall|a: int, j: int|
                    #![trigger all[a][j]]
                    0 <= a < all.len() && 0 <= j < all[a].len() implies !white_space(all[a][j]) by {
                    if a > 0 {
                        assert(all[a] == rest[a - 1]);
                        assert(!white_space(rest[a - 1][j]));
                    } else {
                        assert(all[a] == run);
                        assert(!white_space(run[j]));
                    }
                }
            } else {
                assert(run + solid(s.skip(i)) =~= solid(s.skip(i + 1)));
            }
        } else {
            assert(solid(seq![s[i]]) =~= seq![s[i]]);
            let more = run.push(s[i]);
            assert forall|j: int| 0 <= j < more.len() implies !white_space(#[trigger] more[j]) by {
                if j < run.len() {
                    assert(more[j] == run[j]);
                }
            }
            lemma_words(s, i + 1, more);
            assert(more + solid(s.skip(i + 1)) =~= run + solid(s.skip(i)));
        }
    } else {
        assert(s.skip(i) =~= Seq::<char>::empty());
        if run.len() > 0 {
            assert(all == seq![run]);
            assert(join(all, sep) == run);
            assert(run + Seq::<char>::empty() =~= run);
            assert forall|a: int, j: int|
                #![trigger all[a][j]]
                0 <= a < all.len() && 0 <= j < all[a].len() implies !white_space(all[a][j]) by {
                assert(all[a] == run);
                assert(!white_space(run[j]));
            }
        } else {
            assert(join(all, sep) == Seq::<char>::empty());
            assert(run =~= Seq::<char>::empty());
        }
    }
}

proof fn lemma_solid_run(run: Seq<char>)
    requires
        forall|j: int| 0 <= j < run.len() ==> !white_space(#[trigger] run[j]),
    ensures
        solid(run) == run,
    decreases run.len(),
{
    if run.len() > 0 {
        let less = run.drop_last();
        assert forall|j: int| 0 <= j < less.len() implies !white_space(#[trigger] less[j]) by {
            assert(less[j] == run[j]);
        }
        lemma_solid_run(less);
        assert(!white_space(run[run.len() - 1]));
        assert(less.push(run.last()) =~= run);
    }
}

proof fn lemma_joined_words(parts: Seq<Seq<char>>, n: int, i: int)
    requires
        0 <= n <= parts.len(),
        forall|a: int| #![trigger parts[a]] 0 <= a < parts.len() ==> parts[a].len() > 0,
        forall|a: int, j: int|
            #![trigger parts[a][j]]
            0 <= a < parts.len() && 0 <= j < parts[a].len() ==> !white_space(parts[a][j]),
    ensures
        ({
            let s = join_upto(parts, seq![' '], n);
            &&& n > 0 ==> s.len() > 0 && !white_space(s[0]) && !white_space(s.last())
            &&& 0 <= i < s.len() && white_space(s[i]) ==> s[i] == ' ' && i + 1 < s.len()
                && !white_space(s[i + 1])
        }),
    decreases n,
{
    let s = join_upto(parts, seq![' '], n);
    if n > 0 {
        let last = parts[n - 1];
        assert(last.len() > 0);
        assert(!white_space(parts[n - 1][last.len() - 1]));
        assert(!white_space(parts[n - 1][0]));
        if n == 1 {
            assert(s == parts[0]);
            if 0 <= i < s.len() {
                assert(!white_space(parts[0][i]));
            }
        } else {
            let before = join_upto(parts, seq![' '], n - 1);
            lemma_joined_words(parts, n - 1, i);
            assert(s =~= before + seq![' '] + last);
            assert(s.last() == last.last());
            if i < before.len() {
                if 0 <= i && i + 1 < before.len() {
                    assert(s[i + 1] == before[i + 1]);
                }
            } else if i > before.len() && i < s.len() {
                assert(s[i] == last[i - before.len() - 1]);
                assert(!white_space(parts[n - 1][i - before.len() - 1]));
            } else if i == before.len() {
                assert(s[i + 1] == last[0]);
            }
        }
    }
}

/// Collapsing keeps every character that is no white space, in order, and puts
/// one space where there was white space between two of them.
pub proof fn law_collapsed(s: Seq<char>, i: int)
    ensures
        solid(collapsed(s)) == solid(s),
        0 <= i < collapsed(s).len() && white_space(collapsed(s)[i]) ==> collapsed(s)[i] == ' ' && 0
            < i && i + 1 < collapsed(s).len() && !white_space(collapsed(s)[i + 1]),
{
    let parts = words_from(s, 0, Seq::empty());
    lemma_words(s, 0, Seq::empty());
    assert(s.skip(0) =~= s);
    assert(Seq::<char>::empty() + solid(s) =~= solid(s));
    lemma_joined_words(parts, parts.len() as int, i);
}

// ---------------------------------------------------------------------------
// Signatures
// ---------------------------------------------------------------------------

/// The texts of the tokens from index `i` up to `m`, white space and comments
/// left out.
pub open spec fn written(t: Tree, i: int, m: int) -> Seq<char>
    decreases m - i,
{
    if 0 <= i < m <= t.len() {
        if t[m - 1].token && !trivia(t[m - 1].kind) {
            written(t, i, m - 1) + t[m - 1].text
        } else {
            written(t, i, m - 1)
        }
    } else {
        Seq::empty()
    }
}

proof fn lemma_written_first(t: Tree, i: int, m: int)
    requires
        0 <= i < m <= t.len(),
    ensures
        written(t, i, m) == (if t[i].token && !trivia(t[i].kind) {
            t[i].text + written(t, i + 1, m)
        } else {
            written(t, i + 1, m)
        }),
    decreases m - i,
{
    if i + 1 < m {
        lemma_written_first(t, i, m - 1);
        let a = written(t, i + 1, m - 1);
        if t[i].token && !trivia(t[i].kind) && t[m - 1].token && !trivia(t[m - 1].kind) {
            assert((t[i].text + a) + t[m - 1].text =~= t[i].text + (a + t[m - 1].text));
        }
    } else {
        assert(written(t, i, i) == Seq::<char>::empty());
        assert(Seq::<char>::empty() + t[i].text =~= t[i].text);
        assert(t[i].text + Seq::<char>::empty() =~= t[i].text);
    }
}

proof fn lemma_signature_from(
    t: Tree,
    i: int,
    end: int,
    stop: Option<u32>,
    m: int,
    out: Seq<char>,
)
    requires
        0 <= i <= m <= end <= t.len(),
        forall|j: int|
            i <= j < m ==> (#[trigger] t[j]).token ==> (stop matches Some(s) ==> t[j].start < s),
        m == end || (t[m].token && (stop matches Some(s) && t[m].start >= s)),
    ensures
        solid(signature_from(t, i, end, stop, out)) == solid(out) + solid(written(t, i, m)),
    decreases m - i,
{
    if i < m {
        lemma_written_first(t, i, m);
        if !t[i].token {
            lemma_signature_from(t, i + 1, end, stop, m, out);
        } else if trivia(t[i].kind) {
            lemma_signature_from(t, i + 1, end, stop, m, out);
            lemma_signature_from(t, i + 1, end, stop, m, out.push(' '));
            assert(out.push(' ').drop_last() =~= out);
            assert(white_space(' '));
        } else {
            lemma_signature_from(t, i + 1, end, stop, m, out + t[i].text);
            lemma_solid_sum(out, t[i].text);
            lemma_solid_sum(t[i].text, written(t, i + 1, m));
            assert(solid(out) + solid(t[i].text) + solid(written(t, i + 1, m)) =~= solid(out) + (
            solid(t[i].text) + solid(written(t, i + 1, m))));
        }
    } else {
        assert(written(t, i, m) == Seq::<char>::empty());
        assert(solid(out) + Seq::<char>::empty() =~= solid(out));
    }
}

proof fn lemma_drop_char(s: Seq<char>, c: char, i: int)
    requires
        0 <= i <= s.len(),
    ensures
        0 <= drop_char(s, c, i) <= i,
        forall|j: int| drop_char(s, c, i) <= j < i ==> #[trigger] s[j] == c,
        drop_char(s, c, i) > 0 ==> s[drop_char(s, c, i) - 1] != c,
    decreases i,
{
    if i > 0 && s[i - 1] == c {
        lemma_drop_char(s, c, i - 1);
    }
}

/// The signature of a declaration is one line: it holds what is written before
/// the body, comments and the semicolons at the end left out, with one space
/// where there was white space.
pub proof fn law_signature_is_what_is_written(t: Tree, n: int, m: int, i: int)
    requires
        0 <= n <= m <= t[n].next <= t.len(),
        forall|j: int|
            n <= j < m ==> (#[trigger] t[j]).token ==> (body_start(t, n) matches Some(s)
                ==> t[j].start < s),
        m == t[n].next || (t[m].token && (body_start(t, n) matches Some(s) && t[m].start >= s)),
    ensures
        ({
            let sig = signature_of(t, n);
            let all = solid(written(t, n, m));
            &&& solid(sig).is_prefix_of(all)
            &&& forall|j: int| solid(sig).len() <= j < all.len() ==> #[trigger] all[j] == ';'
            &&& all.len() > 0 && all.last() != ';' ==> solid(sig) == all
            &&& 0 <= i < sig.len() && white_space(sig[i]) ==> sig[i] == ' ' && 0 < i && i + 1
                < sig.len() && !white_space(sig[i + 1])
        }),
{
    let raw = signature_from(t, n, t[n].next, body_start(t, n), Seq::empty());
    let all = solid(written(t, n, m));
    lemma_signature_from(t, n, t[n].next, body_start(t, n), m, Seq::empty());
    assert(Seq::<char>::empty() + all =~= all);
    let a = trimmed(raw);
    law_trimmed(raw);
    let k = drop_char(a, ';', a.len() as int);
    lemma_drop_char(a, ';', a.len() as int);
    let b = a.take(k);
    let rest = a.skip(k);
    assert(a =~= b + rest);
    lemma_solid_sum(b, rest);
    assert forall|j: int| 0 <= j < rest.len() implies !white_space(#[trigger] rest[j]) && rest[j]
        == ';' by {
        assert(rest[j] == a[k + j]);
    }
    lemma_solid_run(rest);
    law_trimmed_end(b);
    law_collapsed(trimmed_end(b), i);
    let sig = signature_of(t, n);
    assert(sig == collapsed(trimmed_end(b)));
    assert(solid(sig) == solid(b));
    assert(all == solid(b) + rest);
    if all.len() > 0 && all.last() != ';' && rest.len() > 0 {
        assert(all.last() == rest.last());
    }
    if rest.len() == 0 {
        assert(solid(b) + rest =~= solid(b));
    }
}

// ---------------------------------------------------------------------------
// Documentation
// ---------------------------------------------------------------------------

/// The text of a line comment is what stands behind its slashes, white space at
/// the ends left out.
pub proof fn law_comment_text(s: Seq<char>, rest: Seq<char>, n: nat)
    requires
        s == Seq::new(n, |i: int| '/') + rest,
        rest.len() > 0 ==> rest[0] != '/',
    ensures
        comment_text(s) == trimmed(rest),
{
    lemma_slashes(s, n as int, 0);
    assert(s.skip(n as int) =~= rest);
}

proof fn lemma_slashes(s: Seq<char>, n: int, i: int)
    requires
        0 <= i <= n <= s.len(),
        forall|j: int| 0 <= j < n ==> #[trigger] s[j] == '/',
        n < s.len() ==> s[n] != '/',
    ensures
        skip_char(s, '/', i) == n,
    decreases n - i,
{
    if i < n {
        lemma_slashes(s, n, i + 1);
    }
}

/// The texts of the line comments from index `i` up to `m`.
pub open spec fn comments(t: Tree, i: int, m: int) -> Seq<Seq<char>>
    decreases m - i,
{
    if 0 <= i < m <= t.len() {
        if t[m - 1].token && t[m - 1].kind == LINE_COMMENT {
            comments(t, i, m - 1).push(comment_text(t[m - 1].text))
        } else {
            comments(t, i, m - 1)
        }
    } else {
        Seq::empty()
    }
}

proof fn lemma_comments_first(t: Tree, i: int, m: int)
    requires
        0 <= i < m <= t.len(),
    ensures
        comments(t, i, m) == (if t[i].token && t[i].kind == LINE_COMMENT {
            seq![comment_text(t[i].text)] + comments(t, i + 1, m)
        } else {
            comments(t, i + 1, m)
        }),
    decreases m - i,
{
    if i + 1 < m {
        lemma_comments_first(t, i, m - 1);
        let one = seq![comment_text(t[i].text)];
        let a = comments(t, i + 1, m - 1);
        let last = comment_text(t[m - 1].text);
        assert((one + a).push(last) =~= one + a.push(last));
    } else {
        assert(comments(t, i, i) == Seq::<Seq<char>>::empty());
        assert(Seq::<Seq<char>>::empty().push(comment_text(t[i].text)) =~= seq![
            comment_text(t[i].text),
        ] + Seq::<Seq<char>>::empty());
    }
}

proof fn lemma_docs(t: Tree, i: int, end: int, m: int, lines: Seq<Seq<char>>)
    requires
        0 <= i <= m <= end <= t.len(),
        forall|j: int|
            i <= j < m ==> (#[trigger] t[j]).token && t[j].next == j + 1 && (t[j].kind == WHITESPACE
                || t[j].kind == LINE_COMMENT),
        m == end || !t[m].token || (t[m].kind != WHITESPACE && t[m].kind != LINE_COMMENT),
    ensures
        docs_from(t, i, end, lines) == lines + comments(t, i, m),
    decreases m - i,
{
    if i < m {
        assert(t[i].token && t[i].next == i + 1);
        lemma_comments_first(t, i, m);
        if t[i].kind == LINE_COMMENT {
            let text = comment_text(t[i].text);
            lemma_docs(t, i + 1, end, m, lines.push(text));
            assert(lines.push(text) + comments(t, i + 1, m) =~= lines + (seq![text] + comments(
                t,
                i + 1,
                m,
            )));
        } else {
            lemma_docs(t, i + 1, end, m, lines);
        }
    } else {
        assert(lines + Seq::<Seq<char>>::empty() =~= lines);
    }
}

/// The documentation of a declaration are the line comments that stand in front
/// of everything else in it, one to a line; there is none without such a
/// comment.
pub proof fn law_leading_comments_are_the_docs(t: Tree, n: int, m: int)
    requires
        0 <= n < m <= t[n].next <= t.len(),
        forall|j: int|
            n < j < m ==> (#[trigger] t[j]).token && t[j].next == j + 1 && (t[j].kind == WHITESPACE
                || t[j].kind == LINE_COMMENT),
        m == t[n].next || !t[m].token || (t[m].kind != WHITESPACE && t[m].kind != LINE_COMMENT),
    ensures
        comments(t, n + 1, m).len() == 0 ==> docs_of(t, n) is None,
        comments(t, n + 1, m).len() > 0 ==> docs_of(t, n) == Some(
            join(comments(t, n + 1, m), seq!['\n']),
        ),
{
    lemma_docs(t, n + 1, t[n].next, m, Seq::empty());
    assert(Seq::<Seq<char>>::empty() + comments(t, n + 1, m) =~= comments(t, n + 1, m));
}

} // verus!
