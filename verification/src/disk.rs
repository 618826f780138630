//! What is known of the files on disk.
//!
//! Nothing here touches the file system: whoever does hands over what was
//! found as a [`Disk`].

use vstd::prelude::*;
use vstd::string::*;
use vstd::utf8::encode_utf8;

use crate::text::{otext, same_text};

verus! {

/// The files that were found on disk, by path, each with its text where it
/// could be read.
pub struct Disk {
    files: Vec<(String, Option<String>)>,
}

/// The value of a [`Disk`].
pub type DiskView = Map<Seq<char>, Option<Seq<char>>>;

/// The files that the first `n` entries tell of; a later entry replaces an
/// earlier one of the same path.
pub closed spec fn found(files: Seq<(String, Option<String>)>, n: int) -> DiskView
    decreases n,
{
    if 0 < n <= files.len() {
        found(files, n - 1).insert(files[n - 1].0@, otext(files[n - 1].1))
    } else {
        Map::empty()
    }
}

impl View for Disk {
    type V = DiskView;

    closed spec fn view(&self) -> DiskView {
        found(self.files@, self.files@.len() as int)
    }
}

/// Whether every text has offsets of 32 bits.
pub open spec fn disk_ok(d: DiskView) -> bool {
    forall|p: Seq<char>|
        #![trigger d[p]]
        d.contains_key(p) && d[p] is Some ==> encode_utf8(d[p]->0).len() <= u32::MAX
}

/// The text at a path, where a file is there and could be read.
pub open spec fn disk_text(d: DiskView, path: Seq<char>) -> Option<Seq<char>> {
    if d.contains_key(path) {
        d[path]
    } else {
        None
    }
}

proof fn lemma_found_prefix(
    a: Seq<(String, Option<String>)>,
    b: Seq<(String, Option<String>)>,
    n: int,
)
    requires
        n <= a.len(),
        n <= b.len(),
        forall|i: int| 0 <= i < n ==> a[i] == b[i],
    ensures
        found(a, n) == found(b, n),
    decreases n,
{
    if n > 0 {
        lemma_found_prefix(a, b, n - 1);
    }
}

proof fn lemma_found_finite(files: Seq<(String, Option<String>)>, n: int)
    ensures
        found(files, n).dom().finite(),
    decreases n,
{
    if 0 < n <= files.len() {
        lemma_found_finite(files, n - 1);
    }
}

impl Disk {
    /// There are finitely many files.
    pub proof fn lemma_finite(&self)
        ensures
            self@.dom().finite(),
    {
        lemma_found_finite(self.files@, self.files@.len() as int);
    }

    /// No files.
    pub fn new() -> (r: Disk)
        ensures
            r@ == Map::<Seq<char>, Option<Seq<char>>>::empty(),
    {
        Disk { files: Vec::new() }
    }

    /// Tells of a file: its text, or `None` where it is there but cannot be
    /// read.
    pub fn add_file(&mut self, path: String, text: Option<String>)
        ensures
            final(self)@ == old(self)@.insert(path@, otext(text)),
            disk_ok(old(self)@) && (text matches Some(t) ==> encode_utf8(t@).len() <= u32::MAX)
                ==> disk_ok(final(self)@),
    {
        let ghost before = self.files@;
        self.files.push((path, text));
        proof {
            lemma_found_prefix(before, self.files@, before.len() as int);
        }
    }

    /// Whether there is a file at `path`.
    pub fn has_file(&self, path: &str) -> (r: bool)
        ensures
            r == self@.contains_key(path@),
    {
        self.position(path).is_some()
    }

    /// The text of the file at `path`.
    pub fn text(&self, path: &str) -> (r: Option<&str>)
        ensures
            match r {
                Some(t) => disk_text(self@, path@) == Some(t@),
                None => disk_text(self@, path@) is None,
            },
    {
        match self.position(path) {
            Some(i) => match &self.files[i].1 {
                Some(t) => Some(t.as_str()),
                None => None,
            },
            None => None,
        }
    }

    fn position(&self, path: &str) -> (r: Option<usize>)
        ensures
            match r {
                Some(i) => i < self.files@.len() && self@.contains_key(path@) && self@[path@]
                    == otext(self.files@[i as int].1),
                None => !self@.contains_key(path@),
            },
    {
        let mut n: usize = self.files.len();
        while n > 0
            invariant
                n <= self.files@.len(),
                found(self.files@, n as int).contains_key(path@) == self@.contains_key(path@),
                self@.contains_key(path@) ==> found(self.files@, n as int)[path@] == self@[path@],
            decreases n,
        {
            if same_text(&self.files[n - 1].0, path) {
                return Some(n - 1);
            }
            n = n - 1;
        }
        None
    }
}

} // verus!
