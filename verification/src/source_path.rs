//! Where an import or a spliced file is looked for.
//!
//! A spec never carries the extension: `.compact` is always appended. The
//! directory of the importing file comes first, then each entry of the search
//! path in order; an absolute spec is used exactly. Paths are strings whose
//! components are separated by slashes.

use vstd::prelude::*;
use vstd::string::*;

use crate::text::{cat2, cat3, chars_of, same_text, slice_text, texts};

verus! {

/// Whether a path starts at the root.
pub open spec fn absolute(path: Seq<char>) -> bool {
    path.len() > 0 && path[0] == '/'
}

/// `rel` inside directory `dir`.
pub open spec fn joined_path(dir: Seq<char>, rel: Seq<char>) -> Seq<char> {
    if dir.len() == 0 || absolute(rel) {
        rel
    } else if dir.last() == '/' {
        dir + rel
    } else {
        dir + "/"@ + rel
    }
}

/// The paths at which `raw` is looked for, in order.
pub open spec fn candidates(from_dir: Seq<char>, search_path: Seq<Seq<char>>, raw: Seq<char>) -> Seq<
    Seq<char>,
> {
    let rel = raw + ".compact"@;
    if absolute(raw) {
        seq![rel]
    } else {
        seq![joined_path(from_dir, rel)] + search_path.map_values(
            |entry: Seq<char>| joined_path(entry, rel),
        )
    }
}

/// The first position at or after `i` that holds `true`.
pub open spec fn first_true(s: Seq<bool>, i: int) -> Option<int>
    decreases s.len() - i,
{
    if 0 <= i < s.len() {
        if s[i] {
            Some(i)
        } else {
            first_true(s, i + 1)
        }
    } else {
        None
    }
}

/// The position found holds `true`.
pub proof fn lemma_first_true(s: Seq<bool>, i: int)
    requires
        0 <= i,
    ensures
        first_true(s, i) matches Some(k) ==> i <= k < s.len() && s[k],
    decreases s.len() - i,
{
    if i < s.len() && !s[i] {
        lemma_first_true(s, i + 1);
    }
}

fn is_absolute(path: &str) -> (r: bool)
    ensures
        r == absolute(path@),
{
    let v = chars_of(path);
    v.len() > 0 && v[0] == '/'
}

fn join_path(dir: &str, rel: &str) -> (r: String)
    ensures
        r@ == joined_path(dir@, rel@),
{
    if dir.is_empty() || is_absolute(rel) {
        return rel.to_owned();
    }
    let v = chars_of(dir);
    if v[v.len() - 1] == '/' {
        cat2(dir, rel)
    } else {
        cat3(dir, "/", rel)
    }
}

/// Lists the paths at which `raw` is looked for, in order.
pub fn source_candidates(from_dir: &str, search_path: &Vec<String>, raw: &str) -> (r: Vec<String>)
    ensures
        texts(r@) == candidates(from_dir@, texts(search_path@), raw@),
{
    let rel = cat2(raw, ".compact");
    let mut out: Vec<String> = Vec::new();
    if is_absolute(raw) {
        out.push(rel);
        assert(texts(out@) =~= seq![rel@]);
        return out;
    }
    let first = join_path(from_dir, &rel);
    out.push(first);
    let mut i: usize = 0;
    while i < search_path.len()
        invariant
            i <= search_path@.len(),
            out@.len() == i + 1,
            out@[0]@ == joined_path(from_dir@, rel@),
            forall|j: int|
                0 <= j < i ==> (#[trigger] out@[j + 1])@ == joined_path(search_path@[j]@, rel@),
        decreases search_path@.len() - i,
    {
        let next = join_path(&search_path[i], &rel);
        out.push(next);
        i = i + 1;
    }
    proof {
        let all = candidates(from_dir@, texts(search_path@), raw@);
        assert forall|j: int| 0 <= j < all.len() implies texts(out@)[j] == all[j] by {
            if j > 0 {
                assert(out@[j - 1 + 1]@ == joined_path(search_path@[j - 1]@, rel@));
            }
        }
        assert(texts(out@) =~= all);
    }
    out
}

/// The first of the candidates of `raw` that exists, given for each of them
/// whether it does.
pub fn find_source_pathname(
    from_dir: &str,
    search_path: &Vec<String>,
    raw: &str,
    exists: &Vec<bool>,
) -> (r: Option<String>)
    requires
        exists@.len() == candidates(from_dir@, texts(search_path@), raw@).len(),
    ensures
        match first_true(exists@, 0) {
            Some(i) => r matches Some(path) && path@ == candidates(
                from_dir@,
                texts(search_path@),
                raw@,
            )[i],
            None => r is None,
        },
{
    let all = source_candidates(from_dir, search_path, raw);
    assert(texts(all@).len() == all@.len());
    let mut i: usize = 0;
    while i < exists.len()
        invariant
            i <= exists@.len(),
            exists@.len() == all@.len(),
            texts(all@) == candidates(from_dir@, texts(search_path@), raw@),
            first_true(exists@, 0) == first_true(exists@, i as int),
        decreases exists@.len() - i,
    {
        if exists[i] {
            assert(texts(all@)[i as int] == all@[i as int]@);
            return Some(all[i].clone());
        }
        i = i + 1;
    }
    None
}

/// The end of the first `n` characters without the slashes at their end and
/// without components that are one dot; a dot that starts the path stays.
pub open spec fn without_slashes(s: Seq<char>, n: int) -> int
    decreases n,
{
    if 0 < n <= s.len() && s[n - 1] == '/' {
        without_slashes(s, n - 1)
    } else if 1 < n <= s.len() && s[n - 1] == '.' && s[n - 2] == '/' {
        without_slashes(s, n - 1)
    } else {
        n
    }
}

/// Where the component begins that ends at `n`.
pub open spec fn component_begin(s: Seq<char>, n: int) -> int
    decreases n,
{
    if 0 < n <= s.len() && s[n - 1] != '/' {
        component_begin(s, n - 1)
    } else {
        n
    }
}

/// The directory that a path lies in: the path without its last component.
pub open spec fn parent_of(path: Seq<char>) -> Option<Seq<char>> {
    let end = without_slashes(path, path.len() as int);
    let begin = component_begin(path, end);
    let dir = without_slashes(path, begin);
    if end <= 0 {
        None
    } else if begin <= 0 {
        Some(Seq::empty())
    } else if dir <= 0 {
        Some(path.take(1))
    } else {
        Some(path.take(dir))
    }
}

fn strip_slashes(v: &Vec<char>, n: usize) -> (r: usize)
    requires
        n <= v@.len(),
    ensures
        r == without_slashes(v@, n as int),
        r <= n,
{
    let mut i: usize = n;
    while i > 0 && (v[i - 1] == '/' || (i > 1 && v[i - 1] == '.' && v[i - 2] == '/'))
        invariant
            i <= n <= v@.len(),
            without_slashes(v@, n as int) == without_slashes(v@, i as int),
        decreases i,
    {
        i = i - 1;
    }
    i
}

/// The directory that a path lies in.
pub fn parent_dir(path: &str) -> (r: Option<String>)
    ensures
        crate::text::otext(r) == parent_of(path@),
{
    let v = chars_of(path);
    let end: usize = strip_slashes(&v, v.len());
    if end == 0 {
        return None;
    }
    let mut begin: usize = end;
    while begin > 0 && v[begin - 1] != '/'
        invariant
            begin <= end <= v@.len(),
            component_begin(v@, end as int) == component_begin(v@, begin as int),
        decreases begin,
    {
        begin = begin - 1;
    }
    let dir: usize = strip_slashes(&v, begin);
    let n: usize = if begin == 0 {
        0
    } else if dir == 0 {
        1
    } else {
        dir
    };
    let r = slice_text(&v, 0, n);
    assert(r@ =~= path@.take(n as int));
    assert(path@.take(0) =~= Seq::<char>::empty());
    Some(r)
}

/// Whether the last component of a path has a stem and the extension of source
/// files.
pub open spec fn source_file(path: Seq<char>) -> bool {
    let name = path.skip(component_begin(path, path.len() as int));
    let ext = ".compact"@;
    name.len() > ext.len() && name.skip(name.len() - ext.len()) == ext
}

/// Whether a path has the extension of source files.
pub fn is_source_file(path: &str) -> (r: bool)
    ensures
        r == source_file(path@),
{
    let v = chars_of(path);
    let n: usize = v.len();
    let mut begin: usize = n;
    while begin > 0 && v[begin - 1] != '/'
        invariant
            begin <= n,
            n == v@.len(),
            component_begin(v@, n as int) == component_begin(v@, begin as int),
        decreases begin,
    {
        begin = begin - 1;
    }
    let ghost name = v@.skip(begin as int);
    proof {
        reveal_strlit(".compact");
    }
    if n - begin <= 8 {
        return false;
    }
    let tail = slice_text(&v, n - 8, n);
    assert(tail@ =~= name.skip(name.len() - 8));
    same_text(&tail, ".compact")
}

/// A string literal without its quotes, or the text itself where they are not
/// both there.
pub open spec fn unquoted(s: Seq<char>) -> Seq<char> {
    if s.len() >= 2 && s[0] == '"' && s.last() == '"' {
        s.subrange(1, s.len() - 1)
    } else {
        s
    }
}

/// The text of a string literal without its quotes.
pub fn string_lit_text(tok_text: &str) -> (r: String)
    ensures
        r@ == unquoted(tok_text@),
{
    let v = chars_of(tok_text);
    let n: usize = v.len();
    if n >= 2 && v[0] == '"' && v[n - 1] == '"' {
        slice_text(&v, 1, n - 1)
    } else {
        tok_text.to_owned()
    }
}

/// The position behind the last slash or backslash before `i`.
pub open spec fn last_component_start(s: Seq<char>, i: int) -> int
    decreases i,
{
    if 0 < i <= s.len() && s[i - 1] != '/' && s[i - 1] != '\\' {
        last_component_start(s, i - 1)
    } else {
        i
    }
}

/// The last component of a path.
pub open spec fn last_component(s: Seq<char>) -> Seq<char> {
    s.skip(last_component_start(s, s.len() as int))
}

/// The module that a path import expects: the last component, where it is not
/// empty.
pub open spec fn module_name_of(raw: Seq<char>) -> Option<Seq<char>> {
    if last_component(raw).len() == 0 {
        None
    } else {
        Some(last_component(raw))
    }
}

/// The name of the module that a path import expects.
pub fn path_module_name(raw: &str) -> (r: Option<String>)
    ensures
        crate::text::otext(r) == module_name_of(raw@),
{
    let v = chars_of(raw);
    let n: usize = v.len();
    let mut i: usize = n;
    while i > 0 && v[i - 1] != '/' && v[i - 1] != '\\'
        invariant
            i <= n,
            n == v@.len(),
            last_component_start(v@, n as int) == last_component_start(v@, i as int),
        decreases i,
    {
        i = i - 1;
    }
    let last = slice_text(&v, i, n);
    assert(last@ =~= last_component(raw@));
    if i == n {
        None
    } else {
        Some(last)
    }
}

} // verus!
