//! Cursor markers in source texts, for tests.

use vstd::prelude::*;
use vstd::string::*;
use vstd::utf8::encode_utf8;

use crate::line_index::{byte_at, lemma_byte_mono, lemma_byte_step, utf8_of};
use crate::text::{cat2, chars_of, slice_text};

verus! {

/// The first place at or behind `i` where the marker `$0` stands.
pub open spec fn marker_from(s: Seq<char>, i: int) -> Option<int>
    decreases s.len() - i,
{
    if 0 <= i < s.len() - 1 {
        if s[i] == '$' && s[i + 1] == '0' {
            Some(i)
        } else {
            marker_from(s, i + 1)
        }
    } else {
        None
    }
}

/// The marker found stands at its place, and no other before it.
proof fn lemma_marker(s: Seq<char>, i: int)
    requires
        0 <= i,
    ensures
        match marker_from(s, i) {
            Some(k) => i <= k < s.len() - 1 && s[k] == '$' && s[k + 1] == '0' && forall|j: int|
                #![trigger s[j]]
                i <= j < k ==> !(s[j] == '$' && s[j + 1] == '0'),
            None => true,
        },
    decreases s.len() - i,
{
    if i < s.len() - 1 && !(s[i] == '$' && s[i + 1] == '0') {
        lemma_marker(s, i + 1);
    }
}

/// Putting the marker back where it stood gives the text again.
pub proof fn law_marker_goes_back(s: Seq<char>)
    requires
        marker_from(s, 0) is Some,
    ensures
        ({
            let k = marker_from(s, 0)->0;
            let clean = s.take(k) + s.skip(k + 2);
            clean.take(k) + seq!['$', '0'] + clean.skip(k) == s
        }),
{
    lemma_marker(s, 0);
    let k = marker_from(s, 0)->0;
    let clean = s.take(k) + s.skip(k + 2);
    assert(clean.take(k) =~= s.take(k));
    assert(clean.skip(k) =~= s.skip(k + 2));
    assert(s.take(k) + seq!['$', '0'] + s.skip(k + 2) =~= s);
}

/// Takes the first `$0` out of a text. Gives the text without it and the byte
/// offset at which it stood.
pub fn extract(source: &str) -> (r: (String, u32))
    requires
        marker_from(source@, 0) is Some,
        encode_utf8(source@).len() <= u32::MAX,
    ensures
        r.0@ == source@.take(marker_from(source@, 0)->0) + source@.skip(
            marker_from(source@, 0)->0 + 2,
        ),
        r.1 == byte_at(source@, marker_from(source@, 0)->0),
{
    let chars = chars_of(source);
    let ghost s = source@;
    let n: usize = chars.len();
    let mut i: usize = 0;
    let mut at: u32 = 0;
    assert(s.take(0) =~= Seq::<char>::empty());
    while !(chars[i] == '$' && chars[i + 1] == '0')
        invariant
            s == chars@,
            n == s.len(),
            i + 1 < n,
            encode_utf8(s).len() <= u32::MAX,
            at == byte_at(s, i as int),
            marker_from(s, i as int) == marker_from(s, 0),
            marker_from(s, 0) is Some,
        decreases n - i,
    {
        proof {
            lemma_byte_step(s, i as int);
            lemma_byte_mono(s, i + 1, i + 1);
        }
        at = at + utf8_of(chars[i]);
        i = i + 1;
    }
    let head = slice_text(&chars, 0, i);
    let tail = slice_text(&chars, i + 2, n);
    assert(head@ =~= s.take(i as int));
    assert(tail@ =~= s.skip(i + 2));
    (cat2(&head, &tail), at)
}

} // verus!
