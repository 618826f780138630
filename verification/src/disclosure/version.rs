//! Whether the installed compiler is the one that the tables describe.

use vstd::prelude::*;
use vstd::string::*;

use crate::text::{cat5, chars_of, otext, same_text, slice_text};

verus! {

/// The compiler release that the tables of native and ledger operations
/// describe.
pub const PINNED_COMPILER_VERSION: &'static str = "0.31.1";

/// The position of the first dot at or after `i`, or the length.
pub open spec fn dot_from(s: Seq<char>, i: int) -> int
    decreases s.len() - i,
{
    if 0 <= i < s.len() && s[i] != '.' {
        dot_from(s, i + 1)
    } else {
        i
    }
}

/// The first two components of a version, where there are two.
pub open spec fn major_minor_of(s: Seq<char>) -> Option<(Seq<char>, Seq<char>)> {
    let a = dot_from(s, 0);
    if a >= s.len() {
        None
    } else {
        Some((s.subrange(0, a), s.subrange(a + 1, dot_from(s, a + 1))))
    }
}

/// Whether `installed` has the major and minor number of the pinned release.
pub open spec fn version_matches(installed: Seq<char>) -> bool {
    major_minor_of(installed) is Some && major_minor_of(installed) == major_minor_of(
        PINNED_COMPILER_VERSION@,
    )
}

fn find_dot(s: &Vec<char>, i: usize) -> (r: usize)
    requires
        i <= s@.len(),
    ensures
        r == dot_from(s@, i as int),
        i <= r <= s@.len(),
{
    let mut k: usize = i;
    while k < s.len() && s[k] != '.'
        invariant
            i <= k <= s@.len(),
            dot_from(s@, i as int) == dot_from(s@, k as int),
        decreases s@.len() - k,
    {
        k = k + 1;
    }
    k
}

/// The first two components of a version, where there are two.
pub fn major_minor(v: &str) -> (r: Option<(String, String)>)
    ensures
        match r {
            Some(p) => major_minor_of(v@) == Some((p.0@, p.1@)),
            None => major_minor_of(v@) is None,
        },
{
    let s = chars_of(v);
    let a: usize = find_dot(&s, 0);
    if a >= s.len() {
        return None;
    }
    let b: usize = find_dot(&s, a + 1);
    Some((slice_text(&s, 0, a), slice_text(&s, a + 1, b)))
}

/// Why the tables may not describe `installed`: a text where its major and
/// minor numbers are not those of the pinned release, or it has none. The
/// patch number does not count.
pub fn version_mismatch(installed: &str) -> (r: Option<String>)
    ensures
        otext(r) == (if version_matches(installed@) {
            None
        } else {
            Some(
                "the disclosure tables were extracted for compact "@ + PINNED_COMPILER_VERSION@
                    + "; the installed compiler is "@ + installed@
                    + ", so disclosure results may be stale"@,
            )
        }),
{
    match (major_minor(installed), major_minor(PINNED_COMPILER_VERSION)) {
        (Some(a), Some(b)) => {
            if same_text(&a.0, &b.0) && same_text(&a.1, &b.1) {
                return None;
            }
        },
        _ => {},
    }
    Some(
        cat5(
            "the disclosure tables were extracted for compact ",
            PINNED_COMPILER_VERSION,
            "; the installed compiler is ",
            installed,
            ", so disclosure results may be stale",
        ),
    )
}

/// Exactly the releases of the pinned major and minor number match.
pub proof fn law_pinned_numbers(installed: Seq<char>)
    ensures
        version_matches(installed) <==> major_minor_of(installed) == Some(("0"@, "31"@)),
{
    reveal_strlit("0.31.1");
    reveal_strlit("0");
    reveal_strlit("31");
    let s = PINNED_COMPILER_VERSION@;
    assert(s == "0.31.1"@);
    assert(dot_from(s, 1) == 1);
    assert(dot_from(s, 0) == 1);
    assert(dot_from(s, 4) == 4);
    assert(dot_from(s, 3) == 4);
    assert(dot_from(s, 2) == 4);
    assert(s.subrange(0, 1) =~= "0"@);
    assert(s.subrange(2, 4) =~= "31"@);
}

/// Only the first two components count: what comes behind a second dot does
/// not change the answer.
pub proof fn law_patch_is_ignored(head: Seq<char>, a: Seq<char>, b: Seq<char>)
    requires
        major_minor_of(head) is Some,
        dot_from(head, dot_from(head, 0) + 1) == head.len(),
    ensures
        version_matches(head + seq!['.'] + a) == version_matches(head + seq!['.'] + b),
{
    lemma_head(head, a);
    lemma_head(head, b);
}

proof fn lemma_dot_prefix(s: Seq<char>, t: Seq<char>, i: int)
    requires
        0 <= i <= s.len(),
        s.len() <= t.len(),
        t.take(s.len() as int) == s,
        dot_from(s, i) < s.len() || (s.len() < t.len() && t[s.len() as int] == '.'),
    ensures
        dot_from(t, i) == dot_from(s, i),
    decreases s.len() - i,
{
    if i < s.len() {
        assert(t[i] == t.take(s.len() as int)[i]);
        if s[i] != '.' {
            lemma_dot_prefix(s, t, i + 1);
        }
    }
}

proof fn lemma_head(head: Seq<char>, tail: Seq<char>)
    requires
        major_minor_of(head) is Some,
        dot_from(head, dot_from(head, 0) + 1) == head.len(),
    ensures
        major_minor_of(head + seq!['.'] + tail) == major_minor_of(head),
{
    let t = head + seq!['.'] + tail;
    assert(t.take(head.len() as int) =~= head);
    lemma_dot_low(head, 0);
    lemma_dot_prefix(head, t, 0);
    let a = dot_from(head, 0);
    lemma_dot_prefix(head, t, a + 1);
    assert(t.subrange(0, a) =~= head.subrange(0, a));
    assert(t.subrange(a + 1, head.len() as int) =~= head.subrange(a + 1, head.len() as int));
}

proof fn lemma_dot_low(s: Seq<char>, i: int)
    requires
        0 <= i <= s.len(),
    ensures
        i <= dot_from(s, i) <= s.len(),
    decreases s.len() - i,
{
    if i < s.len() && s[i] != '.' {
        lemma_dot_low(s, i + 1);
    }
}

} // verus!
