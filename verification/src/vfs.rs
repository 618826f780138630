//! The store of file contents: editor buffers over files on disk.
//!
//! An open editor buffer is an overlay that hides the file on disk. Other
//! files are taken from disk when they are first read, and kept until they are
//! invalidated.

use vstd::prelude::*;
use vstd::string::*;
use vstd::utf8::encode_utf8;

use crate::disk::{disk_ok, disk_text, Disk, DiskView};
use crate::filemap::FileMap;
use crate::text::{otext, same_text, texts};

verus! {

/// A file, by the order in which its path was first seen.
#[derive(Clone, Copy, Debug, PartialEq, Eq, Hash, PartialOrd, Ord, Structural)]
pub struct FileId {
    pub raw: usize,
}

impl FileId {
    /// The file with the given number.
    pub fn from_raw_for_test(raw: usize) -> (r: FileId)
        ensures
            r == (FileId { raw }),
    {
        FileId { raw }
    }
}

/// What is held of one file.
#[derive(Debug)]
pub enum Content {
    /// An editor buffer and its version.
    Overlay { text: String, version: i32 },
    /// A text that was read from disk.
    Disk { text: String },
}

/// The value of a [`Content`].
pub enum ContentView {
    Overlay { text: Seq<char>, version: i32 },
    Disk { text: Seq<char> },
}

impl View for Content {
    type V = ContentView;

    open spec fn view(&self) -> ContentView {
        match self {
            Content::Overlay { text, version } => ContentView::Overlay {
                text: text@,
                version: *version,
            },
            Content::Disk { text } => ContentView::Disk { text: text@ },
        }
    }
}

impl ContentView {
    /// The text.
    pub open spec fn text(self) -> Seq<char> {
        match self {
            ContentView::Overlay { text, .. } => text,
            ContentView::Disk { text } => text,
        }
    }
}

/// The paths that were seen and the contents that are held.
pub struct Vfs {
    paths: Vec<String>,
    contents: FileMap<Content>,
    generation: u64,
}

/// The value of a [`Vfs`].
pub struct VfsView {
    pub paths: Seq<Seq<char>>,
    pub contents: Map<usize, ContentView>,
    pub generation: u64,
}

impl View for Vfs {
    type V = VfsView;

    closed spec fn view(&self) -> VfsView {
        VfsView {
            paths: texts(self.paths@),
            contents: self.contents@.map_values(|c: Content| c@),
            generation: self.generation,
        }
    }
}

/// The first place of `path` among `paths` from place `i` on.
pub open spec fn path_index(paths: Seq<Seq<char>>, path: Seq<char>, i: int) -> Option<int>
    decreases paths.len() - i,
{
    if 0 <= i < paths.len() {
        if paths[i] == path {
            Some(i)
        } else {
            path_index(paths, path, i + 1)
        }
    } else {
        None
    }
}

impl VfsView {
    /// What every store keeps: no path is held twice.
    pub open spec fn distinct(self) -> bool {
        self.paths.no_duplicates()
    }

    /// Whether the store can be analyzed: no path is held twice, and every text
    /// has offsets of 32 bits.
    pub open spec fn ok(self) -> bool {
        &&& self.distinct()
        &&& forall|f: usize|
            #![trigger self.contents[f]]
            self.contents.contains_key(f) ==> encode_utf8(self.contents[f].text()).len() <= u32::MAX
    }

    /// Whether the file can be asked for: its path was seen, or its content is
    /// held.
    pub open spec fn knows(self, file: FileId) -> bool {
        file.raw < self.paths.len() || self.contents.contains_key(file.raw)
    }

    /// The store after `path` was seen.
    pub open spec fn interned(self, path: Seq<char>) -> VfsView {
        match path_index(self.paths, path, 0) {
            Some(_) => self,
            None => VfsView { paths: self.paths.push(path), ..self },
        }
    }

    /// The file of `path`.
    pub open spec fn id_of(self, path: Seq<char>) -> int {
        match path_index(self.paths, path, 0) {
            Some(i) => i,
            None => self.paths.len() as int,
        }
    }

    /// The text of a file: what is held, else what is on disk.
    pub open spec fn text_of(self, file: FileId, disk: DiskView) -> Option<Seq<char>> {
        if self.contents.contains_key(file.raw) {
            Some(self.contents[file.raw].text())
        } else {
            disk_text(disk, self.paths[file.raw as int])
        }
    }

    /// The version of the overlay of a file.
    pub open spec fn version_of(self, file: FileId) -> Option<i32> {
        if self.contents.contains_key(file.raw) {
            match self.contents[file.raw] {
                ContentView::Overlay { version, .. } => Some(version),
                ContentView::Disk { .. } => None,
            }
        } else {
            None
        }
    }

    /// The store with other contents, one change later.
    pub open spec fn changed(self, contents: Map<usize, ContentView>) -> VfsView {
        VfsView { contents, generation: (self.generation + 1) as u64, ..self }
    }

    /// The store after an editor buffer was put over a file.
    pub open spec fn with_overlay(self, file: FileId, text: Seq<char>, version: i32) -> VfsView {
        self.changed(self.contents.insert(file.raw, ContentView::Overlay { text, version }))
    }

    /// The store after what is held of a file was dropped.
    pub open spec fn without_overlay(self, file: FileId) -> VfsView {
        self.changed(self.contents.remove(file.raw))
    }

    /// The store after a text that was read from disk was dropped.
    pub open spec fn invalidated(self, file: FileId) -> VfsView {
        self.changed(
            if self.contents.contains_key(file.raw) && self.contents[file.raw] is Disk {
                self.contents.remove(file.raw)
            } else {
                self.contents
            },
        )
    }

    /// The store after a file was read: its text is held.
    pub open spec fn after_read(self, file: FileId, disk: DiskView) -> VfsView {
        if self.contents.contains_key(file.raw) {
            self
        } else {
            match disk_text(disk, self.paths[file.raw as int]) {
                Some(text) => VfsView {
                    contents: self.contents.insert(file.raw, ContentView::Disk { text }),
                    ..self
                },
                None => self,
            }
        }
    }
}

/// The place found holds the path, and none is found only where none does.
pub proof fn lemma_path_index(paths: Seq<Seq<char>>, path: Seq<char>, i: int)
    requires
        0 <= i <= paths.len(),
    ensures
        match path_index(paths, path, i) {
            Some(k) => i <= k < paths.len() && paths[k] == path,
            None => forall|j: int| i <= j < paths.len() ==> paths[j] != path,
        },
    decreases paths.len() - i,
{
    if i < paths.len() && paths[i] != path {
        lemma_path_index(paths, path, i + 1);
    }
}

proof fn lemma_path_index_unique(paths: Seq<Seq<char>>, k: int, i: int)
    requires
        0 <= i <= k < paths.len(),
        paths.no_duplicates(),
    ensures
        path_index(paths, paths[k], i) == Some(k),
    decreases k - i,
{
    if i < k {
        lemma_path_index_unique(paths, k, i + 1);
    }
}

/// A path that was seen has a file, that file has the path, and seeing the
/// path again changes nothing.
pub proof fn law_interning(v: VfsView, path: Seq<char>)
    requires
        v.distinct(),
    ensures
        ({
            let w = v.interned(path);
            let id = v.id_of(path);
            &&& 0 <= id < w.paths.len()
            &&& w.paths[id] == path
            &&& w.interned(path) == w
            &&& w.id_of(path) == id
        }),
{
    let w = v.interned(path);
    lemma_path_index(v.paths, path, 0);
    lemma_path_index(w.paths, path, 0);
    let id = v.id_of(path);
    assert(w.paths[id] == path);
    assert(w.paths.no_duplicates());
    lemma_path_index_unique(w.paths, id, 0);
}

/// Different paths have different files, and the file of one path does not
/// change when another is seen.
pub proof fn law_interning_is_stable(v: VfsView, path: Seq<char>, other: Seq<char>)
    requires
        v.distinct(),
        path != other,
    ensures
        v.interned(path).id_of(other) != v.id_of(path),
        v.interned(path).interned(other).id_of(path) == v.id_of(path),
{
    law_interning(v, path);
    let w = v.interned(path);
    let id = v.id_of(path);
    lemma_path_index(v.paths, path, 0);
    lemma_path_index(w.paths, other, 0);
    let x = w.interned(other);
    assert(w.paths.no_duplicates());
    assert(x.paths.no_duplicates());
    assert(x.paths[id] == path);
    lemma_path_index_unique(x.paths, id, 0);
}

/// An overlay is what is read, whatever is held or on disk; a newer one replaces
/// it. Other files are left alone.
pub proof fn law_overlay_wins(
    v: VfsView,
    file: FileId,
    text: Seq<char>,
    version: i32,
    newer: Seq<char>,
    newer_version: i32,
    other: FileId,
    disk: DiskView,
)
    ensures
        ({
            let w = v.with_overlay(file, text, version);
            let x = w.with_overlay(file, newer, newer_version);
            &&& w.text_of(file, disk) == Some(text)
            &&& w.version_of(file) == Some(version)
            &&& w.after_read(file, disk) == w
            &&& x.text_of(file, disk) == Some(newer)
            &&& x.version_of(file) == Some(newer_version)
            &&& other != file ==> w.text_of(other, disk) == v.text_of(other, disk) && w.version_of(
                other,
            ) == v.version_of(other)
        }),
{
}

/// Without its overlay a file is what is on disk now, whatever was held before.
/// Other files are left alone.
pub proof fn law_removed_overlay_shows_disk(
    v: VfsView,
    file: FileId,
    other: FileId,
    disk: DiskView,
)
    requires
        file.raw < v.paths.len(),
    ensures
        ({
            let w = v.without_overlay(file);
            &&& w.version_of(file) is None
            &&& w.text_of(file, disk) == disk_text(disk, v.paths[file.raw as int])
            &&& other != file ==> w.text_of(other, disk) == v.text_of(other, disk) && w.version_of(
                other,
            ) == v.version_of(other)
        }),
{
}

/// Invalidating a file leaves its overlay; without one the file is what is on
/// disk now. Other files are left alone.
pub proof fn law_invalidation_keeps_overlays(
    v: VfsView,
    file: FileId,
    other: FileId,
    disk: DiskView,
)
    requires
        file.raw < v.paths.len(),
    ensures
        ({
            let w = v.invalidated(file);
            &&& w.version_of(file) == v.version_of(file)
            &&& w.text_of(file, disk) == (if v.version_of(file) is Some {
                v.text_of(file, disk)
            } else {
                disk_text(disk, v.paths[file.raw as int])
            })
            &&& other != file ==> w.text_of(other, disk) == v.text_of(other, disk) && w.version_of(
                other,
            ) == v.version_of(other)
        }),
{
}

/// A call that may change a store.
pub enum VfsCall {
    FileId { path: Seq<char> },
    Read { file: FileId, disk: DiskView },
    SetOverlay { file: FileId, text: Seq<char>, version: i32 },
    RemoveOverlay { file: FileId },
    InvalidateDisk { file: FileId },
}

impl VfsCall {
    /// Whether the call changes contents.
    pub open spec fn changes(self) -> bool {
        !(self is FileId) && !(self is Read)
    }

    /// The store after the call.
    pub open spec fn done(self, v: VfsView) -> VfsView {
        match self {
            VfsCall::FileId { path } => v.interned(path),
            VfsCall::Read { file, disk } => v.after_read(file, disk),
            VfsCall::SetOverlay { file, text, version } => v.with_overlay(file, text, version),
            VfsCall::RemoveOverlay { file } => v.without_overlay(file),
            VfsCall::InvalidateDisk { file } => v.invalidated(file),
        }
    }
}

/// The store after the first `n` calls.
pub open spec fn all_done(v: VfsView, calls: Seq<VfsCall>, n: int) -> VfsView
    decreases n,
{
    if 0 < n <= calls.len() {
        calls[n - 1].done(all_done(v, calls, n - 1))
    } else {
        v
    }
}

/// The generation never falls; over any run of calls it grows exactly where one
/// of them changes contents.
pub proof fn law_generation_grows_with_changes(v: VfsView, calls: Seq<VfsCall>)
    requires
        v.generation + calls.len() <= u64::MAX,
    ensures
        all_done(v, calls, calls.len() as int).generation >= v.generation,
        all_done(v, calls, calls.len() as int).generation > v.generation <==> exists|i: int|
            0 <= i < calls.len() && (#[trigger] calls[i]).changes(),
{
    lemma_generation(v, calls, calls.len() as int);
}

proof fn lemma_generation(v: VfsView, calls: Seq<VfsCall>, n: int)
    requires
        0 <= n <= calls.len(),
        v.generation + calls.len() <= u64::MAX,
    ensures
        v.generation <= all_done(v, calls, n).generation <= v.generation + n,
        all_done(v, calls, n).generation > v.generation <==> exists|i: int|
            0 <= i < n && (#[trigger] calls[i]).changes(),
    decreases n,
{
    if n > 0 {
        lemma_generation(v, calls, n - 1);
        let before = all_done(v, calls, n - 1);
        let now = all_done(v, calls, n);
        if calls[n - 1].changes() {
            assert(now.generation == before.generation + 1);
        } else {
            assert(now.generation == before.generation);
            if exists|i: int| 0 <= i < n && (#[trigger] calls[i]).changes() {
                let i = choose|i: int| 0 <= i < n && (#[trigger] calls[i]).changes();
                assert(0 <= i < n - 1);
            }
        }
    }
}

/// What was read once is read again, whatever the disk holds meanwhile.
pub proof fn law_read_is_kept(
    v: VfsView,
    file: FileId,
    disk: DiskView,
    later: DiskView,
)
    requires
        v.text_of(file, disk) is Some,
    ensures
        v.after_read(file, disk).text_of(file, later) == v.text_of(file, disk),
{
}

impl Vfs {
    /// A store without files.
    pub fn new() -> (r: Vfs)
        ensures
            r@ == (VfsView { paths: Seq::empty(), contents: Map::empty(), generation: 0 }),
            r@.ok(),
    {
        let r = Vfs { paths: Vec::new(), contents: FileMap::new(), generation: 0 };
        assert(r@.paths =~= Seq::<Seq<char>>::empty());
        assert(r@.contents =~= Map::<usize, ContentView>::empty());
        r
    }

    /// The file of `path`. Paths are compared exactly as given.
    pub fn file_id(&mut self, path: &str) -> (r: FileId)
        requires
            old(self)@.distinct(),
        ensures
            r.raw == old(self)@.id_of(path@),
            final(self)@ == old(self)@.interned(path@),
            final(self)@.distinct(),
            old(self)@.ok() ==> final(self)@.ok(),
            r.raw < final(self)@.paths.len(),
            final(self)@.paths[r.raw as int] == path@,
    {
        let ghost before = self@;
        let ghost list = self.paths@;
        proof {
            lemma_path_index(before.paths, path@, 0);
            law_interning(before, path@);
        }
        let n: usize = self.paths.len();
        let mut i: usize = 0;
        while i < n
            invariant
                n == self.paths@.len(),
                i <= n,
                self@ == before,
                before.distinct(),
                before.paths == texts(self.paths@),
                path_index(before.paths, path@, 0) == path_index(before.paths, path@, i as int),
            decreases n - i,
        {
            assert(before.paths[i as int] == self.paths@[i as int]@);
            if same_text(&self.paths[i], path) {
                return FileId { raw: i };
            }
            i = i + 1;
        }
        assert(!before.paths.contains(path@));
        self.paths.push(path.to_owned());
        assert(self@.paths =~= before.paths.push(path@));
        FileId { raw: n }
    }

    /// Whether the path of a file was seen here.
    pub fn has_path(&self, file: FileId) -> (r: bool)
        ensures
            r == (file.raw < self@.paths.len()),
    {
        file.raw < self.paths.len()
    }

    /// The path of a file.
    pub fn path(&self, file: FileId) -> (r: &str)
        requires
            file.raw < self@.paths.len(),
        ensures
            r@ == self@.paths[file.raw as int],
    {
        self.paths[file.raw as usize].as_str()
    }

    /// The text that is held for a path.
    pub fn held_text(&self, path: &str) -> (r: Option<&str>)
        ensures
            match path_index(self@.paths, path@, 0) {
                Some(i) => if self@.contents.contains_key(i as usize) {
                    r matches Some(t) && t@ == self@.contents[i as usize].text()
                } else {
                    r is None
                },
                None => r is None,
            },
    {
        let ghost paths = self@.paths;
        let n: usize = self.paths.len();
        let mut i: usize = 0;
        while i < n
            invariant
                n == self.paths@.len(),
                paths == self@.paths,
                paths == texts(self.paths@),
                path_index(paths, path@, 0) == path_index(paths, path@, i as int),
            decreases n - i,
        {
            assert(paths[i as int] == self.paths@[i as int]@);
            if same_text(&self.paths[i], path) {
                return match self.contents.get(FileId { raw: i }) {
                    Some(Content::Overlay { text, .. }) => Some(text.as_str()),
                    Some(Content::Disk { text }) => Some(text.as_str()),
                    None => None,
                };
            }
            i = i + 1;
        }
        None
    }

    /// Puts an editor buffer over a file.
    pub fn set_overlay(&mut self, file: FileId, text: String, version: i32)
        requires
            old(self)@.generation < u64::MAX,
        ensures
            final(self)@ == old(self)@.with_overlay(file, text@, version),
            old(self)@.ok() && encode_utf8(text@).len() <= u32::MAX ==> final(self)@.ok(),
    {
        let ghost before = self@;
        self.contents.insert(file, Content::Overlay { text, version });
        self.generation = self.generation + 1;
        assert(self@.contents =~= before.contents.insert(
            file.raw,
            ContentView::Overlay { text: text@, version },
        ));
    }

    /// Drops what is held of a file, so that it is next read from disk.
    pub fn remove_overlay(&mut self, file: FileId)
        requires
            old(self)@.generation < u64::MAX,
        ensures
            final(self)@ == old(self)@.without_overlay(file),
            old(self)@.ok() ==> final(self)@.ok(),
    {
        let ghost before = self@;
        let _had = self.contents.remove(file);
        self.generation = self.generation + 1;
        assert(self@.contents =~= before.contents.remove(file.raw));
    }

    /// The version of the overlay of a file.
    pub fn overlay_version(&self, file: FileId) -> (r: Option<i32>)
        ensures
            r == self@.version_of(file),
    {
        match self.contents.get(file) {
            Some(Content::Overlay { version, .. }) => Some(*version),
            _ => None,
        }
    }

    /// The number of changes so far.
    pub fn generation(&self) -> (r: u64)
        ensures
            r == self@.generation,
    {
        self.generation
    }

    /// Drops a text that was read from disk, so that it is read again. An
    /// overlay stays.
    pub fn invalidate_disk(&mut self, file: FileId)
        requires
            old(self)@.generation < u64::MAX,
        ensures
            final(self)@ == old(self)@.invalidated(file),
            old(self)@.ok() ==> final(self)@.ok(),
    {
        let ghost before = self@;
        let from_disk: bool = match self.contents.get(file) {
            Some(Content::Disk { .. }) => true,
            _ => false,
        };
        if from_disk {
            let _had = self.contents.remove(file);
            assert(self.contents@.map_values(|c: Content| c@) =~= before.contents.remove(file.raw));
        }
        self.generation = self.generation + 1;
    }

    /// The text of a file: the overlay, else what was read before, else what
    /// is on disk, which is then held. `None` where it cannot be read.
    pub fn read(&mut self, file: FileId, disk: &Disk) -> (r: Option<String>)
        requires
            old(self)@.knows(file),
        ensures
            otext(r) == old(self)@.text_of(file, disk@),
            final(self)@ == old(self)@.after_read(file, disk@),
            old(self)@.ok() && disk_ok(disk@) ==> final(self)@.ok() && (r matches Some(t)
                ==> encode_utf8(t@).len() <= u32::MAX),
    {
        let ghost before = self@;
        if let Some(content) = self.contents.get(file) {
            assert(before.contents.contains_key(file.raw));
            assert(before.contents[file.raw] == content@);
            return match content {
                Content::Overlay { text, .. } => Some(text.clone()),
                Content::Disk { text } => Some(text.clone()),
            };
        }
        let path = self.path(file);
        match disk.text(path) {
            Some(t) => {
                self.contents.insert(file, Content::Disk { text: t.to_owned() });
                assert(self@.contents =~= before.contents.insert(
                    file.raw,
                    ContentView::Disk { text: t@ },
                ));
                Some(t.to_owned())
            },
            None => None,
        }
    }
}

} // verus!
