//! The index of the workspace: the symbols of each file, and which file
//! imports or splices which.

use vstd::prelude::*;
use vstd::string::*;

use crate::db::names_view;
use crate::filemap::FileMap;
use crate::idset::{ascending, file_ids, increasing, lemma_ascending_lists, IdSet};
use crate::text::chars_of;
use crate::vfs::FileId;

verus! {

// ---------------------------------------------------------------------------
// Matching names
// ---------------------------------------------------------------------------

/// The lower-case form of a character, which can be several characters.
pub uninterp spec fn lowercase(c: char) -> Seq<char>;

/// The lower-case form of a character (`char::to_lowercase`), as a list of
/// characters. It depends on the character alone.
#[verifier::external_body]
fn lowercase_of(c: char) -> (r: Vec<char>)
    ensures
        r@ == lowercase(c),
{
    c.to_lowercase().collect()
}

/// The first `n` characters of a text in lower case.
pub open spec fn lowered_to(s: Seq<char>, n: int) -> Seq<char>
    decreases n,
{
    if 0 < n <= s.len() {
        lowered_to(s, n - 1) + lowercase(s[n - 1])
    } else {
        Seq::empty()
    }
}

/// A text in lower case.
pub open spec fn lowered(s: Seq<char>) -> Seq<char> {
    lowered_to(s, s.len() as int)
}

/// Whether the characters of `needle` from `i` on occur in `hay` from `j` on,
/// in that order.
pub open spec fn subsequence_from(needle: Seq<char>, i: int, hay: Seq<char>, j: int) -> bool
    decreases hay.len() - j,
{
    if i >= needle.len() {
        true
    } else if 0 <= j < hay.len() {
        if needle[i] == hay[j] {
            subsequence_from(needle, i + 1, hay, j + 1)
        } else {
            subsequence_from(needle, i, hay, j + 1)
        }
    } else {
        false
    }
}

/// Whether a name matches a query: the characters of the query occur in the
/// name in that order, in whatever case.
pub open spec fn name_matches(query: Seq<char>, name: Seq<char>) -> bool {
    subsequence_from(lowered(query), 0, lowered(name), 0)
}

/// Whether `at` gives for each character of `needle` from `i` on its place in
/// `hay`, at or behind `j` and in ascending order.
pub open spec fn embedded(
    needle: Seq<char>,
    i: int,
    hay: Seq<char>,
    j: int,
    at: spec_fn(int) -> int,
) -> bool {
    &&& forall|k: int|
        #![trigger at(k)]
        i <= k < needle.len() ==> j <= at(k) < hay.len() && hay[at(k)] == needle[k]
    &&& forall|k: int, l: int| #![trigger at(k), at(l)] i <= k < l < needle.len() ==> at(k) < at(l)
}

/// The characters of the query match exactly where each has a place in the
/// name, in ascending order.
pub proof fn law_subsequence_is_embedding(needle: Seq<char>, hay: Seq<char>)
    ensures
        subsequence_from(needle, 0, hay, 0) <==> exists|at: spec_fn(int) -> int|
            #[trigger] embedded(needle, 0, hay, 0, at),
{
    if subsequence_from(needle, 0, hay, 0) {
        lemma_embeds(needle, 0, hay, 0);
    }
    if exists|at: spec_fn(int) -> int| #[trigger] embedded(needle, 0, hay, 0, at) {
        let at = choose|at: spec_fn(int) -> int| #[trigger] embedded(needle, 0, hay, 0, at);
        lemma_embedded_is_found(needle, 0, hay, 0, at);
    }
}

proof fn lemma_embeds(needle: Seq<char>, i: int, hay: Seq<char>, j: int)
    requires
        0 <= i,
        0 <= j,
        subsequence_from(needle, i, hay, j),
    ensures
        exists|at: spec_fn(int) -> int| #[trigger] embedded(needle, i, hay, j, at),
    decreases hay.len() - j,
{
    if i >= needle.len() {
        assert(embedded(needle, i, hay, j, |k: int| 0));
    } else if needle[i] == hay[j] {
        lemma_embeds(needle, i + 1, hay, j + 1);
        let rest = choose|at: spec_fn(int) -> int|
            #[trigger] embedded(needle, i + 1, hay, j + 1, at);
        let at = |k: int|
            if k == i {
                j
            } else {
                rest(k)
            };
        assert(embedded(needle, i, hay, j, at));
    } else {
        lemma_embeds(needle, i, hay, j + 1);
        let at = choose|at: spec_fn(int) -> int| #[trigger] embedded(needle, i, hay, j + 1, at);
        assert(embedded(needle, i, hay, j, at));
    }
}

proof fn lemma_embedded_is_found(
    needle: Seq<char>,
    i: int,
    hay: Seq<char>,
    j: int,
    at: spec_fn(int) -> int,
)
    requires
        0 <= i,
        0 <= j,
        embedded(needle, i, hay, j, at),
    ensures
        subsequence_from(needle, i, hay, j),
    decreases hay.len() - j,
{
    if i < needle.len() {
        assert(j <= at(i) < hay.len());
        if needle[i] == hay[j] {
            assert forall|k: int|
                #![trigger at(k)]
                i + 1 <= k < needle.len() implies j + 1 <= at(k) < hay.len() && hay[at(k)]
                == needle[k] by {
                assert(at(i) < at(k));
            }
            lemma_embedded_is_found(needle, i + 1, hay, j + 1, at);
        } else {
            assert forall|k: int|
                #![trigger at(k)]
                i <= k < needle.len() implies j + 1 <= at(k) < hay.len() && hay[at(k)]
                == needle[k] by {
                if k > i {
                    assert(at(i) < at(k));
                }
            }
            lemma_embedded_is_found(needle, i, hay, j + 1, at);
        }
    }
}

/// The empty query matches every name.
pub proof fn law_empty_query_matches(name: Seq<char>)
    ensures
        name_matches(Seq::empty(), name),
{
}

/// Every name matches itself.
pub proof fn law_name_matches_itself(name: Seq<char>)
    ensures
        name_matches(name, name),
{
    lemma_same(lowered(name), 0);
}

proof fn lemma_same(s: Seq<char>, i: int)
    requires
        0 <= i <= s.len(),
    ensures
        subsequence_from(s, i, s, i),
    decreases s.len() - i,
{
    if i < s.len() {
        lemma_same(s, i + 1);
    }
}

fn lower_text(s: &str) -> (r: Vec<char>)
    ensures
        r@ == lowered(s@),
{
    let chars = chars_of(s);
    let mut out: Vec<char> = Vec::new();
    let mut n: usize = 0;
    assert(out@ =~= lowered_to(s@, 0));
    while n < chars.len()
        invariant
            n <= chars@.len(),
            chars@ == s@,
            out@ == lowered_to(s@, n as int),
        decreases chars@.len() - n,
    {
        let low = lowercase_of(chars[n]);
        let ghost before = out@;
        let mut k: usize = 0;
        assert(before + low@.take(0) =~= before);
        while k < low.len()
            invariant
                k <= low@.len(),
                out@ == before + low@.take(k as int),
            decreases low@.len() - k,
        {
            out.push(low[k]);
            assert(out@ =~= before + low@.take(k + 1));
            k = k + 1;
        }
        assert(low@.take(k as int) =~= low@);
        n = n + 1;
    }
    out
}

fn subsequence_ci(needle: &str, haystack: &str) -> (r: bool)
    ensures
        r == name_matches(needle@, haystack@),
{
    let n = lower_text(needle);
    let h = lower_text(haystack);
    let mut i: usize = 0;
    let mut j: usize = 0;
    while i < n.len() && j < h.len()
        invariant
            i <= n@.len(),
            j <= h@.len(),
            subsequence_from(n@, 0, h@, 0) == subsequence_from(n@, i as int, h@, j as int),
        decreases h@.len() - j,
    {
        if n[i] == h[j] {
            i = i + 1;
        }
        j = j + 1;
    }
    i >= n.len()
}

// ---------------------------------------------------------------------------
// The index
// ---------------------------------------------------------------------------

/// The symbols of each file, and the files that each file depends on.
pub struct WorkspaceIndex {
    files: IdSet,
    symbols: FileMap<Vec<(String, u32)>>,
    /// The files that a file imports or splices.
    forward: FileMap<IdSet>,
    /// The files that import or splice a file.
    reverse: FileMap<IdSet>,
}

/// The value of a [`WorkspaceIndex`].
pub struct IndexView {
    pub symbols: Map<usize, Seq<(Seq<char>, u32)>>,
    pub forward: Map<usize, Set<usize>>,
}

impl View for WorkspaceIndex {
    type V = IndexView;

    closed spec fn view(&self) -> IndexView {
        IndexView {
            symbols: self.symbols@.map_values(|v: Vec<(String, u32)>| names_view(v@)),
            forward: self.forward@.map_values(|s: IdSet| s@),
        }
    }
}

impl IndexView {
    /// The files that depend on `file`.
    pub open spec fn dependents(self, file: usize) -> Set<usize> {
        self.forward.dom().filter(|g: usize| self.forward[g].contains(file))
    }

    /// The index after a file was indexed.
    pub open spec fn with_file(
        self,
        file: usize,
        symbols: Seq<(Seq<char>, u32)>,
        deps: Set<usize>,
    ) -> IndexView {
        IndexView {
            symbols: self.symbols.insert(file, symbols),
            forward: self.forward.insert(file, deps),
        }
    }

    /// The index after a file was taken out.
    pub open spec fn without_file(self, file: usize) -> IndexView {
        IndexView { symbols: self.symbols.remove(file), forward: self.forward.remove(file) }
    }
}

/// The symbols of `file` from position `k` on that match a query.
pub open spec fn matches_in(file: usize, syms: Seq<(Seq<char>, u32)>, query: Seq<char>, k: int) -> Seq<
    (FileId, u32),
>
    decreases syms.len() - k,
{
    if 0 <= k < syms.len() {
        let rest = matches_in(file, syms, query, k + 1);
        if name_matches(query, syms[k].0) {
            seq![(FileId { raw: file }, syms[k].1)] + rest
        } else {
            rest
        }
    } else {
        Seq::empty()
    }
}

/// The symbols that match a query, over the files from position `k` on.
pub open spec fn matches_from(v: IndexView, files: Seq<usize>, query: Seq<char>, k: int) -> Seq<
    (FileId, u32),
>
    decreases files.len() - k,
{
    if 0 <= k < files.len() {
        matches_in(files[k], v.symbols[files[k]], query, 0) + matches_from(v, files, query, k + 1)
    } else {
        Seq::empty()
    }
}

/// Whether a list of symbols is in order: every symbol has a name, and indices
/// ascend strictly. Indices have 32 bits: the greatest of them stands for all
/// that lie behind it as well, and may come again.
pub open spec fn in_order(s: Seq<(Seq<char>, u32)>) -> bool {
    &&& forall|i: int| #![trigger s[i]] 0 <= i < s.len() ==> s[i].0.len() > 0
    &&& forall|i: int, j: int|
        #![trigger s[i], s[j]]
        0 <= i < j < s.len() ==> s[i].1 < s[j].1 || (s[i].1 == u32::MAX && s[j].1 == u32::MAX)
}

/// Whether the symbols of every file are in order.
pub open spec fn all_in_order(v: IndexView) -> bool {
    forall|f: usize|
        #![trigger v.symbols[f]]
        v.symbols.contains_key(f) ==> in_order(v.symbols[f])
}

/// Whether hits ascend by file and, within a file, by index.
pub open spec fn hits_ascend(h: Seq<(FileId, u32)>) -> bool {
    forall|i: int, j: int|
        #![trigger h[i], h[j]]
        0 <= i < j < h.len() ==> h[i].0.raw < h[j].0.raw || (h[i].0 == h[j].0 && (h[i].1 < h[j].1
            || (h[i].1 == u32::MAX && h[j].1 == u32::MAX)))
}

proof fn lemma_matches_in(
    file: usize,
    syms: Seq<(Seq<char>, u32)>,
    query: Seq<char>,
    k: int,
)
    requires
        0 <= k,
    ensures
        forall|i: int|
            #![trigger matches_in(file, syms, query, k)[i]]
            0 <= i < matches_in(file, syms, query, k).len() ==> matches_in(
                file,
                syms,
                query,
                k,
            )[i].0.raw == file && exists|j: int|
                k <= j < syms.len() && (#[trigger] syms[j]).1 == matches_in(
                    file,
                    syms,
                    query,
                    k,
                )[i].1 && name_matches(query, syms[j].0),
        in_order(syms) ==> hits_ascend(matches_in(file, syms, query, k)),
        forall|j: int|
            #![trigger syms[j]]
            k <= j < syms.len() && name_matches(query, syms[j].0) ==> matches_in(
                file,
                syms,
                query,
                k,
            ).contains((FileId { raw: file }, syms[j].1)),
    decreases syms.len() - k,
{
    if k < syms.len() {
        lemma_matches_in(file, syms, query, k + 1);
        let rest = matches_in(file, syms, query, k + 1);
        let all = matches_in(file, syms, query, k);
        if name_matches(query, syms[k].0) {
            let own = (FileId { raw: file }, syms[k].1);
            assert(all == seq![own] + rest);
            assert(all[0] == own);
            assert forall|i: int| #![trigger all[i]] 0 <= i < all.len() implies all[i].0.raw == file
                && exists|j: int|
                k <= j < syms.len() && (#[trigger] syms[j]).1 == all[i].1 && name_matches(
                    query,
                    syms[j].0,
                ) by {
                if i == 0 {
                    assert(syms[k].1 == all[0].1);
                } else {
                    assert(all[i] == rest[i - 1]);
                }
            }
            if in_order(syms) {
                assert forall|i: int, j: int|
                    #![trigger all[i], all[j]]
                    0 <= i < j < all.len() implies all[i].0.raw < all[j].0.raw || (all[i].0
                    == all[j].0 && (all[i].1 < all[j].1 || (all[i].1
                    == u32::MAX && all[j].1 == u32::MAX))) by {
                    assert(all[j] == rest[j - 1]);
                    if i == 0 {
                        let m = choose|m: int|
                            k + 1 <= m < syms.len() && (#[trigger] syms[m]).1 == rest[j - 1].1
                                && name_matches(query, syms[m].0);
                        assert(syms[k].1 < syms[m].1 || (syms[k].1 == u32::MAX && syms[m].1
                            == u32::MAX));
                    } else {
                        assert(all[i] == rest[i - 1]);
                    }
                }
            }
            assert forall|j: int|
                #![trigger syms[j]]
                k <= j < syms.len() && name_matches(query, syms[j].0) implies all.contains(
                (FileId { raw: file }, syms[j].1),
            ) by {
                if j > k {
                    let hit = (FileId { raw: file }, syms[j].1);
                    assert(rest.contains(hit));
                    let m = choose|m: int| 0 <= m < rest.len() && rest[m] == hit;
                    assert(all[m + 1] == hit);
                }
            }
        }
    }
}

proof fn lemma_matches_from(v: IndexView, files: Seq<usize>, query: Seq<char>, k: int)
    requires
        0 <= k,
        all_in_order(v),
        increasing(files),
        forall|i: int| #![trigger files[i]] 0 <= i < files.len() ==> v.symbols.contains_key(files[i]),
    ensures
        hits_ascend(matches_from(v, files, query, k)),
        forall|i: int|
            #![trigger matches_from(v, files, query, k)[i]]
            0 <= i < matches_from(v, files, query, k).len() ==> exists|j: int|
                k <= j < files.len() && (#[trigger] files[j]) == matches_from(
                    v,
                    files,
                    query,
                    k,
                )[i].0.raw,
    decreases files.len() - k,
{
    if k < files.len() {
        lemma_matches_from(v, files, query, k + 1);
        lemma_matches_in(files[k], v.symbols[files[k]], query, 0);
        let own = matches_in(files[k], v.symbols[files[k]], query, 0);
        let rest = matches_from(v, files, query, k + 1);
        let all = matches_from(v, files, query, k);
        assert forall|i: int| #![trigger all[i]] 0 <= i < all.len() implies exists|j: int|
            k <= j < files.len() && (#[trigger] files[j]) == all[i].0.raw by {
            if i < own.len() {
                assert(all[i] == own[i]);
                assert(files[k] == all[i].0.raw);
            } else {
                assert(all[i] == rest[i - own.len()]);
            }
        }
        assert forall|i: int, j: int|
            #![trigger all[i], all[j]]
            0 <= i < j < all.len() implies all[i].0.raw < all[j].0.raw || (all[i].0 == all[j].0 && (
        all[i].1 < all[j].1 || (all[i].1 == u32::MAX && all[j].1 == u32::MAX))) by {
            if j < own.len() {
                assert(all[i] == own[i] && all[j] == own[j]);
            } else if i >= own.len() {
                assert(all[i] == rest[i - own.len()] && all[j] == rest[j - own.len()]);
            } else {
                assert(all[i] == own[i]);
                let x = rest[j - own.len()];
                assert(all[j] == x);
                let m = choose|m: int| k + 1 <= m < files.len() && (#[trigger] files[m]) == x.0.raw;
                assert(files[k] < files[m]);
            }
        }
    }
}

proof fn lemma_matches_exact(
    v: IndexView,
    files: Seq<usize>,
    query: Seq<char>,
    k: int,
    f: usize,
    i: u32,
)
    requires
        0 <= k,
    ensures
        matches_from(v, files, query, k).contains((FileId { raw: f }, i)) <==> exists|m: int, j: int|
            k <= m < files.len() && #[trigger] files[m] == f && 0 <= j < v.symbols[f].len() && (
            #[trigger] v.symbols[f][j]).1 == i && name_matches(query, v.symbols[f][j].0),
    decreases files.len() - k,
{
    let hit = (FileId { raw: f }, i);
    if k < files.len() {
        lemma_matches_exact(v, files, query, k + 1, f, i);
        lemma_matches_in(files[k], v.symbols[files[k]], query, 0);
        let own = matches_in(files[k], v.symbols[files[k]], query, 0);
        let rest = matches_from(v, files, query, k + 1);
        let all = matches_from(v, files, query, k);
        if all.contains(hit) {
            let x = choose|x: int| 0 <= x < all.len() && all[x] == hit;
            if x < own.len() {
                assert(own[x] == hit);
                let j = choose|j: int|
                    0 <= j < v.symbols[files[k]].len() && (#[trigger] v.symbols[files[k]][j]).1
                        == own[x].1 && name_matches(query, v.symbols[files[k]][j].0);
                assert(files[k] == f && v.symbols[f][j].1 == i);
            } else {
                assert(rest[x - own.len()] == hit);
            }
        }
        if exists|m: int, j: int|
            k <= m < files.len() && #[trigger] files[m] == f && 0 <= j < v.symbols[f].len() && (
            #[trigger] v.symbols[f][j]).1 == i && name_matches(query, v.symbols[f][j].0) {
            let (m, j) = choose|m: int, j: int|
                k <= m < files.len() && #[trigger] files[m] == f && 0 <= j < v.symbols[f].len() && (
                #[trigger] v.symbols[f][j]).1 == i && name_matches(query, v.symbols[f][j].0);
            if m == k {
                assert(own.contains((FileId { raw: files[k] }, v.symbols[files[k]][j].1)));
                let x = choose|x: int| 0 <= x < own.len() && own[x] == hit;
                assert(all[x] == hit);
            } else {
                assert(files[m] == f && v.symbols[f][j].1 == i);
                assert(rest.contains(hit));
                let x = choose|x: int| 0 <= x < rest.len() && rest[x] == hit;
                assert(all[own.len() + x] == hit);
            }
        }
    }
}

/// The hits of a query ascend by file and, within a file, by index.
pub proof fn law_hits_ascend(v: IndexView, query: Seq<char>)
    requires
        all_in_order(v),
    ensures
        hits_ascend(matches_from(v, ascending(v.symbols.dom()), query, 0)),
{
    let files = ascending(v.symbols.dom());
    lemma_ascending_lists(v.symbols.dom());
    assert forall|i: int| #![trigger files[i]] 0 <= i < files.len() implies v.symbols.contains_key(
        files[i],
    ) by {
        assert(files.to_set().contains(files[i]));
    }
    lemma_matches_from(v, files, query, 0);
}

/// Whether the greatest index of 32 bits is not in use: no file has so many
/// symbols.
pub open spec fn indices_fit(v: IndexView) -> bool {
    forall|f: usize, i: int|
        #![trigger v.symbols[f][i]]
        v.symbols.contains_key(f) && 0 <= i < v.symbols[f].len() ==> v.symbols[f][i].1 < u32::MAX
}

/// Whether hits ascend strictly by file and, within a file, by index.
pub open spec fn hits_strictly_ascend(h: Seq<(FileId, u32)>) -> bool {
    forall|i: int, j: int|
        #![trigger h[i], h[j]]
        0 <= i < j < h.len() ==> h[i].0.raw < h[j].0.raw || (h[i].0 == h[j].0 && h[i].1 < h[j].1)
}

/// The hits of a query ascend strictly as long as indices fit in 32 bits.
pub proof fn law_hits_strictly_ascend(v: IndexView, query: Seq<char>)
    requires
        all_in_order(v),
        indices_fit(v),
    ensures
        hits_strictly_ascend(matches_from(v, ascending(v.symbols.dom()), query, 0)),
{
    let h = matches_from(v, ascending(v.symbols.dom()), query, 0);
    law_hits_ascend(v, query);
    assert forall|i: int, j: int|
        #![trigger h[i], h[j]]
        0 <= i < j < h.len() implies h[i].0.raw < h[j].0.raw || (h[i].0 == h[j].0 && h[i].1
        < h[j].1) by {
        let f = h[i].0.raw;
        assert(h.contains((FileId { raw: f }, h[i].1)));
        law_hits_are_exact(v, query, f, h[i].1);
        let k = choose|k: int|
            0 <= k < v.symbols[f].len() && (#[trigger] v.symbols[f][k]).1 == h[i].1
                && name_matches(query, v.symbols[f][k].0);
        assert(v.symbols[f][k].1 < u32::MAX);
    }
}

/// The hits of a query are exactly the symbols of indexed files whose name it
/// matches.
pub proof fn law_hits_are_exact(v: IndexView, query: Seq<char>, f: usize, i: u32)
    ensures
        matches_from(v, ascending(v.symbols.dom()), query, 0).contains((FileId { raw: f }, i)) <==> (
        v.symbols.contains_key(f) && exists|j: int|
            0 <= j < v.symbols[f].len() && (#[trigger] v.symbols[f][j]).1 == i && name_matches(
                query,
                v.symbols[f][j].0,
            )),
{
    let files = ascending(v.symbols.dom());
    lemma_ascending_lists(v.symbols.dom());
    lemma_matches_exact(v, files, query, 0, f, i);
    assert(files.to_set().contains(f) == files.contains(f));
    if v.symbols.contains_key(f) {
        let m = choose|m: int| 0 <= m < files.len() && files[m] == f;
        assert(files[m] == f);
    }
}

proof fn lemma_prefix_found(a: Seq<char>, b: Seq<char>, i: int, hay: Seq<char>, j: int)
    requires
        0 <= i,
        0 <= j,
        subsequence_from(a + b, i, hay, j),
    ensures
        subsequence_from(a, i, hay, j),
    decreases hay.len() - j,
{
    if i < a.len() {
        assert((a + b)[i] == a[i]);
        if a[i] == hay[j] {
            lemma_prefix_found(a, b, i + 1, hay, j + 1);
        } else {
            lemma_prefix_found(a, b, i, hay, j + 1);
        }
    }
}

proof fn lemma_lowered_push(s: Seq<char>, c: char, n: int)
    requires
        0 <= n <= s.len(),
    ensures
        lowered_to(s.push(c), n) == lowered_to(s, n),
    decreases n,
{
    if n > 0 {
        lemma_lowered_push(s, c, n - 1);
    }
}

/// A longer query matches no other name.
pub proof fn law_longer_query_matches_less(query: Seq<char>, c: char, name: Seq<char>)
    requires
        name_matches(query.push(c), name),
    ensures
        name_matches(query, name),
{
    lemma_lowered_push(query, c, query.len() as int);
    lemma_prefix_found(lowered(query), lowercase(c), 0, lowered(name), 0);
}

/// A longer query has no other hit.
pub proof fn law_longer_query_finds_no_more(
    v: IndexView,
    query: Seq<char>,
    c: char,
    hit: (FileId, u32),
)
    requires
        matches_from(v, ascending(v.symbols.dom()), query.push(c), 0).contains(hit),
    ensures
        matches_from(v, ascending(v.symbols.dom()), query, 0).contains(hit),
{
    let f = hit.0.raw;
    law_hits_are_exact(v, query.push(c), f, hit.1);
    law_hits_are_exact(v, query, f, hit.1);
    let j = choose|j: int|
        0 <= j < v.symbols[f].len() && (#[trigger] v.symbols[f][j]).1 == hit.1 && name_matches(
            query.push(c),
            v.symbols[f][j].0,
        );
    law_longer_query_matches_less(query, c, v.symbols[f][j].0);
    assert(v.symbols[f][j].1 == hit.1);
}

/// The empty query has every symbol as a hit.
pub proof fn law_empty_query_finds_all(v: IndexView, f: usize, j: int)
    requires
        v.symbols.contains_key(f),
        0 <= j < v.symbols[f].len(),
    ensures
        matches_from(v, ascending(v.symbols.dom()), Seq::empty(), 0).contains(
            (FileId { raw: f }, v.symbols[f][j].1),
        ),
{
    law_hits_are_exact(v, Seq::empty(), f, v.symbols[f][j].1);
    law_empty_query_matches(v.symbols[f][j].0);
    assert(v.symbols[f][j].1 == v.symbols[f][j].1);
}

/// After a file was indexed it depends on what it was indexed with and on
/// nothing else, and nothing changes for other files.
pub proof fn law_dependents_after_indexing(
    v: IndexView,
    file: usize,
    symbols: Seq<(Seq<char>, u32)>,
    deps: Set<usize>,
    d: usize,
    g: usize,
)
    ensures
        v.with_file(file, symbols, deps).dependents(d).contains(file) == deps.contains(d),
        g != file ==> v.with_file(file, symbols, deps).dependents(d).contains(g) == v.dependents(
            d,
        ).contains(g),
{
}

/// A file that was taken out depends on nothing and has no symbols, while the
/// files that depend on it stay known.
pub proof fn law_removal(v: IndexView, file: usize, d: usize, g: usize)
    ensures
        !v.without_file(file).dependents(d).contains(file),
        !v.without_file(file).symbols.contains_key(file),
        g != file ==> v.without_file(file).dependents(file).contains(g) == v.dependents(
            file,
        ).contains(g),
{
}

/// Indexing a file again with the same results changes nothing.
pub proof fn law_indexing_is_idempotent(
    v: IndexView,
    file: usize,
    symbols: Seq<(Seq<char>, u32)>,
    deps: Set<usize>,
)
    ensures
        v.with_file(file, symbols, deps).with_file(file, symbols, deps) == v.with_file(
            file,
            symbols,
            deps,
        ),
{
    let w = v.with_file(file, symbols, deps);
    assert(w.symbols.insert(file, symbols) =~= w.symbols);
    assert(w.forward.insert(file, deps) =~= w.forward);
}

spec fn related(m: Map<usize, IdSet>, f: usize, g: usize) -> bool {
    m.contains_key(f) && m[f]@.contains(g)
}

fn link(m: &mut FileMap<IdSet>, at: FileId, file: FileId)
    ensures
        forall|f: usize, g: usize|
            #![trigger related(final(m)@, f, g)]
            related(final(m)@, f, g) == (related(old(m)@, f, g) || (f == at.raw && g == file.raw)),
{
    let mut set = match m.remove(at) {
        Some(s) => s,
        None => IdSet::new(),
    };
    set.insert(file);
    m.insert(at, set);
}

fn unlink(m: &mut FileMap<IdSet>, at: FileId, file: FileId)
    ensures
        forall|f: usize, g: usize|
            #![trigger related(final(m)@, f, g)]
            related(final(m)@, f, g) == (related(old(m)@, f, g) && !(f == at.raw && g == file.raw)),
{
    if let Some(mut set) = m.remove(at) {
        set.remove(file);
        m.insert(at, set);
    }
}

impl WorkspaceIndex {
    /// What every index keeps: a file has symbols exactly where it is listed,
    /// and the edges back are the edges forward turned round.
    pub closed spec fn ok(&self) -> bool {
        &&& forall|f: usize|
            #![trigger self.files@.contains(f)]
            self.files@.contains(f) == self.symbols@.contains_key(f)
        &&& forall|f: usize, g: usize|
            #![trigger related(self.reverse@, f, g)]
            related(self.reverse@, f, g) == related(self.forward@, g, f)
    }

    /// An index without files.
    pub fn new() -> (r: WorkspaceIndex)
        ensures
            r.ok(),
            r@ == (IndexView { symbols: Map::empty(), forward: Map::empty() }),
    {
        let r = WorkspaceIndex {
            files: IdSet::new(),
            symbols: FileMap::new(),
            forward: FileMap::new(),
            reverse: FileMap::new(),
        };
        assert(r@.symbols =~= Map::<usize, Seq<(Seq<char>, u32)>>::empty());
        assert(r@.forward =~= Map::<usize, Set<usize>>::empty());
        r
    }

    fn detach(&mut self, file: FileId, deps: &IdSet)
        requires
            forall|f: usize|
                #![trigger deps@.contains(f)]
                related(old(self).reverse@, f, file.raw) ==> deps@.contains(f),
        ensures
            final(self).files == old(self).files,
            final(self).symbols == old(self).symbols,
            final(self).forward == old(self).forward,
            forall|f: usize, g: usize|
                #![trigger related(final(self).reverse@, f, g)]
                related(final(self).reverse@, f, g) == (related(old(self).reverse@, f, g) && g
                    != file.raw),
    {
        let list = deps.files();
        let ghost ids = ascending(deps@);
        let ghost was = self.reverse@;
        let mut k: usize = 0;
        while k < list.len()
            invariant
                k <= list@.len(),
                list@ == file_ids(ids),
                self.files == old(self).files,
                self.symbols == old(self).symbols,
                self.forward == old(self).forward,
                forall|f: usize, g: usize|
                    #![trigger related(self.reverse@, f, g)]
                    related(self.reverse@, f, g) == (related(was, f, g) && !(g == file.raw
                        && ids.take(k as int).contains(f))),
            decreases list@.len() - k,
        {
            let ghost now = self.reverse@;
            unlink(&mut self.reverse, list[k], file);
            proof {
                let a = ids.take(k as int);
                let b = ids.take(k + 1);
                assert(list@[k as int].raw == ids[k as int]);
                assert(b =~= a.push(ids[k as int]));
                assert forall|f: usize, g: usize|
                    #![trigger related(self.reverse@, f, g)]
                    related(self.reverse@, f, g) == (related(was, f, g) && !(g == file.raw
                        && b.contains(f))) by {
                    assert(related(now, f, g) == (related(was, f, g) && !(g == file.raw
                        && a.contains(f))));
                    if a.contains(f) {
                        let i = choose|i: int| 0 <= i < a.len() && a[i] == f;
                        assert(b[i] == f);
                    }
                    assert(b[k as int] == ids[k as int]);
                }
            }
            k = k + 1;
        }
        proof {
            assert(ids.take(k as int) =~= ids);
            assert forall|f: usize, g: usize|
                #![trigger related(self.reverse@, f, g)]
                related(self.reverse@, f, g) == (related(was, f, g) && g != file.raw) by {
                if g == file.raw && related(was, f, g) {
                    assert(deps@.contains(f));
                    assert(ids.to_set().contains(f));
                }
            }
        }
    }

    fn attach(&mut self, file: FileId, deps: &IdSet)
        ensures
            final(self).files == old(self).files,
            final(self).symbols == old(self).symbols,
            final(self).forward == old(self).forward,
            forall|f: usize, g: usize|
                #![trigger related(final(self).reverse@, f, g)]
                related(final(self).reverse@, f, g) == (related(old(self).reverse@, f, g) || (g
                    == file.raw && deps@.contains(f))),
    {
        let list = deps.files();
        let ghost ids = ascending(deps@);
        let ghost was = self.reverse@;
        let mut k: usize = 0;
        while k < list.len()
            invariant
                k <= list@.len(),
                list@ == file_ids(ids),
                self.files == old(self).files,
                self.symbols == old(self).symbols,
                self.forward == old(self).forward,
                forall|f: usize, g: usize|
                    #![trigger related(self.reverse@, f, g)]
                    related(self.reverse@, f, g) == (related(was, f, g) || (g == file.raw
                        && ids.take(k as int).contains(f))),
            decreases list@.len() - k,
        {
            let ghost now = self.reverse@;
            link(&mut self.reverse, list[k], file);
            proof {
                let a = ids.take(k as int);
                let b = ids.take(k + 1);
                assert(list@[k as int].raw == ids[k as int]);
                assert(b =~= a.push(ids[k as int]));
                assert forall|f: usize, g: usize|
                    #![trigger related(self.reverse@, f, g)]
                    related(self.reverse@, f, g) == (related(was, f, g) || (g == file.raw
                        && b.contains(f))) by {
                    assert(related(now, f, g) == (related(was, f, g) || (g == file.raw
                        && a.contains(f))));
                    if a.contains(f) {
                        let i = choose|i: int| 0 <= i < a.len() && a[i] == f;
                        assert(b[i] == f);
                    }
                    assert(b[k as int] == ids[k as int]);
                }
            }
            k = k + 1;
        }
        proof {
            assert(ids.take(k as int) =~= ids);
            assert forall|f: usize, g: usize|
                #![trigger related(self.reverse@, f, g)]
                related(self.reverse@, f, g) == (related(was, f, g) || (g == file.raw
                    && deps@.contains(f))) by {
                assert(ids.to_set().contains(f) == ids.contains(f));
            }
        }
    }

    /// Indexes a file: its symbols, and the files that it depends on. What the
    /// index held of it before is replaced.
    pub fn set_file(&mut self, file: FileId, symbols: Vec<(String, u32)>, deps: IdSet)
        requires
            old(self).ok(),
        ensures
            final(self).ok(),
            final(self)@ == old(self)@.with_file(file.raw, names_view(symbols@), deps@),
    {
        let ghost before = self@;
        let ghost old_forward = self.forward@;
        let ghost old_reverse = self.reverse@;
        self.files.insert(file);
        self.symbols.insert(file, symbols);
        if let Some(was) = self.forward.remove(file) {
            proof {
                assert forall|f: usize|
                    #![trigger was@.contains(f)]
                    related(self.reverse@, f, file.raw) implies was@.contains(f) by {
                    assert(related(old_forward, file.raw, f));
                }
            }
            self.detach(file, &was);
        }
        assert forall|f: usize, g: usize|
            #![trigger related(self.reverse@, f, g)]
            related(self.reverse@, f, g) == (related(old_forward, g, f) && g != file.raw) by {
            assert(related(old_reverse, f, g) == related(old_forward, g, f));
        }
        let ghost mid = self.reverse@;
        self.attach(file, &deps);
        self.forward.insert(file, deps);
        proof {
            assert forall|f: usize, g: usize|
                #![trigger related(self.reverse@, f, g)]
                related(self.reverse@, f, g) == related(self.forward@, g, f) by {
                assert(related(mid, f, g) == (related(old_forward, g, f) && g != file.raw));
            }
            let after = before.with_file(file.raw, names_view(symbols@), deps@);
            assert(self@.symbols =~= after.symbols);
            assert(self@.forward =~= after.forward);
        }
    }

    /// Takes a file out: its symbols and what it depends on. The files that
    /// depend on it stay known.
    pub fn remove(&mut self, file: FileId)
        requires
            old(self).ok(),
        ensures
            final(self).ok(),
            final(self)@ == old(self)@.without_file(file.raw),
    {
        let ghost before = self@;
        let ghost old_forward = self.forward@;
        let ghost old_reverse = self.reverse@;
        self.files.remove(file);
        let _symbols = self.symbols.remove(file);
        if let Some(was) = self.forward.remove(file) {
            proof {
                assert forall|f: usize|
                    #![trigger was@.contains(f)]
                    related(self.reverse@, f, file.raw) implies was@.contains(f) by {
                    assert(related(old_forward, file.raw, f));
                }
            }
            self.detach(file, &was);
        }
        proof {
            assert forall|f: usize, g: usize|
                #![trigger related(self.reverse@, f, g)]
                related(self.reverse@, f, g) == related(self.forward@, g, f) by {
                assert(related(old_reverse, f, g) == related(old_forward, g, f));
            }
            let after = before.without_file(file.raw);
            assert(self@.symbols =~= after.symbols);
            assert(self@.forward =~= after.forward);
        }
    }

    /// The indexed files in ascending order.
    pub fn files(&self) -> (r: Vec<FileId>)
        requires
            self.ok(),
        ensures
            r@ == file_ids(ascending(self@.symbols.dom())),
            increasing(ascending(self@.symbols.dom())),
            ascending(self@.symbols.dom()).to_set() == self@.symbols.dom(),
    {
        assert(self.files@ =~= self@.symbols.dom());
        self.files.files()
    }

    /// The files that import or splice `file`, in ascending order.
    pub fn dependents(&self, file: FileId) -> (r: Vec<FileId>)
        requires
            self.ok(),
        ensures
            r@ == file_ids(ascending(self@.dependents(file.raw))),
            increasing(ascending(self@.dependents(file.raw))),
            ascending(self@.dependents(file.raw)).to_set() == self@.dependents(file.raw),
    {
        let ghost want = self@.dependents(file.raw);
        proof {
            assert forall|g: usize| want.contains(g) == related(self.reverse@, file.raw, g) by {
                assert(related(self.forward@, g, file.raw) == want.contains(g));
            }
        }
        match self.reverse.get(file) {
            Some(s) => {
                assert forall|g: usize| s@.contains(g) == want.contains(g) by {
                    assert(related(self.reverse@, file.raw, g) == s@.contains(g));
                }
                assert(s@ =~= want);
                s.files()
            },
            None => {
                let none = IdSet::new();
                assert forall|g: usize| !want.contains(g) by {
                    assert(!related(self.reverse@, file.raw, g));
                }
                assert(none@ =~= want);
                none.files()
            },
        }
    }

    /// The symbols whose name matches a query, file by file.
    pub fn symbols_matching(&self, query: &str) -> (r: Vec<(FileId, u32)>)
        requires
            self.ok(),
        ensures
            r@ == matches_from(self@, ascending(self@.symbols.dom()), query@, 0),
            all_in_order(self@) ==> hits_ascend(r@),
    {
        let list = self.files();
        let ghost ids = ascending(self@.symbols.dom());
        let ghost whole = matches_from(self@, ids, query@, 0);
        let mut out: Vec<(FileId, u32)> = Vec::new();
        let mut k: usize = 0;
        assert(out@ + whole =~= whole);
        while k < list.len()
            invariant
                k <= list@.len(),
                list@ == file_ids(ids),
                ids.to_set() == self@.symbols.dom(),
                out@ + matches_from(self@, ids, query@, k as int) == whole,
            decreases list@.len() - k,
        {
            let file = list[k];
            assert(file.raw == ids[k as int]);
            assert(ids.to_set().contains(ids[k as int]));
            assert(self@.symbols.contains_key(file.raw));
            if let Some(syms) = self.symbols.get(file) {
                let ghost all = names_view(syms@);
                assert(self@.symbols[file.raw] == all);
                let ghost rest = matches_from(self@, ids, query@, k + 1);
                let ghost before = out@;
                let mut j: usize = 0;
                assert(before + (matches_in(file.raw, all, query@, 0) + rest) =~= before
                    + matches_in(file.raw, all, query@, 0) + rest);
                while j < syms.len()
                    invariant
                        j <= syms@.len(),
                        all == names_view(syms@),
                        out@ + matches_in(file.raw, all, query@, j as int) + rest == whole,
                    decreases syms@.len() - j,
                {
                    assert(all[j as int] == (syms@[j as int].0@, syms@[j as int].1));
                    let ghost tail = matches_in(file.raw, all, query@, j + 1);
                    let ghost so_far = out@;
                    if subsequence_ci(query, &syms[j].0) {
                        let ghost own = (file, syms@[j as int].1);
                        out.push((file, syms[j].1));
                        assert(so_far + (seq![own] + tail) =~= so_far.push(own) + tail);
                    }
                    j = j + 1;
                }
                assert(out@ + Seq::<(FileId, u32)>::empty() =~= out@);
            }
            k = k + 1;
        }
        assert(out@ + Seq::<(FileId, u32)>::empty() =~= out@);
        proof {
            if all_in_order(self@) {
                law_hits_ascend(self@, query@);
            }
        }
        out
    }
}

} // verus!
