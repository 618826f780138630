//! The model of an analysis host: its state, and what each request does to it.

use vstd::prelude::*;

use crate::db::{
    analysis_of, db_ok, named_from, targets_of, ws_ok, CtxView, DbView, DepView, FileDeps,
    RawDepView, SourceText, WsView,
};
use crate::disk::DiskView;
use crate::ledger_adts::MethodView;
use crate::source_path::{candidates, first_true, parent_of};
use crate::vfs::{FileId, VfsView};
use crate::workspace::{all_in_order, IndexView};

verus! {

/// The value of an analysis host.
pub struct HostView {
    pub db: DbView,
    pub ws: WsView,
    pub vfs: VfsView,
    pub stdlib: Option<FileId>,
    pub search: Seq<Seq<char>>,
    pub index: IndexView,
    pub adts: Seq<(Seq<char>, Seq<MethodView>)>,
}

/// Whether every text of a database is kept with its own parse.
pub open spec fn parses_current(db: DbView) -> bool {
    forall|i: int|
        #![trigger db.sources[i]]
        0 <= i < db.sources.len() ==> db.sources[i] == analysis_of(db.sources[i].text)
}

/// Whether the path of every import target is known.
pub open spec fn targets_known(db: DbView, vfs: VfsView) -> bool {
    forall|i: int, k: int|
        #![trigger db.deps[i][k]]
        0 <= i < db.deps.len() && 0 <= k < db.deps[i].len() ==> (db.deps[i][k].target matches Some(x)
            ==> x.0.raw < vfs.paths.len())
}

impl HostView {
    /// What every host keeps.
    pub open spec fn ok(self) -> bool {
        &&& db_ok(self.db)
        &&& ws_ok(self.ws, self.db)
        &&& self.vfs.ok()
        &&& parses_current(self.db)
        &&& self.db.sources.len() <= usize::MAX
        &&& self.db.deps.len() <= usize::MAX
        &&& targets_known(self.db, self.vfs)
        &&& all_in_order(self.index)
    }

    /// A file in its surroundings.
    pub open spec fn ctx(self, file: FileId, src: SourceText, fd: FileDeps) -> CtxView {
        CtxView { db: self.db, file, src, fd, ws: self.ws }
    }
}

/// Whether host `g` knows at least what host `h` knows, and looks for imports
/// in the same directories.
pub open spec fn grown(h: HostView, g: HostView) -> bool {
    &&& h.db.sources.len() <= g.db.sources.len()
    &&& h.db.deps.len() <= g.db.deps.len()
    &&& h.search == g.search
    &&& h.vfs.paths.len() <= g.vfs.paths.len()
    &&& forall|i: int| #![trigger g.vfs.paths[i]] 0 <= i < h.vfs.paths.len() ==> g.vfs.paths[i]
        == h.vfs.paths[i]
    &&& forall|f: usize|
        #![trigger g.vfs.contents.contains_key(f)]
        h.vfs.contents.contains_key(f) ==> g.vfs.contents.contains_key(f)
}

/// Whether every path of `g` is one of `h` or of a file on disk.
pub open spec fn paths_from(h: HostView, g: HostView, disk: DiskView) -> bool {
    forall|i: int|
        #![trigger g.vfs.paths[i]]
        0 <= i < g.vfs.paths.len() ==> h.vfs.paths.contains(g.vfs.paths[i]) || disk.contains_key(
            g.vfs.paths[i],
        )
}

/// A file is read: its text, as the store has it, becomes what the database
/// holds of it.
pub open spec fn sourced(h: HostView, file: FileId, disk: DiskView) -> (
    HostView,
    Option<SourceText>,
) {
    let vfs = h.vfs.after_read(file, disk);
    match h.vfs.text_of(file, disk) {
        Some(text) => if h.ws.file_srcs.contains_key(file.raw) {
            let s = h.ws.file_srcs[file.raw];
            (
                HostView {
                    vfs,
                    db: DbView {
                        sources: h.db.sources.update(s.id as int, analysis_of(text)),
                        ..h.db
                    },
                    ..h
                },
                Some(s),
            )
        } else {
            let s = SourceText { id: h.db.sources.len() as usize };
            (
                HostView {
                    vfs,
                    db: DbView { sources: h.db.sources.push(analysis_of(text)), ..h.db },
                    ws: WsView { file_srcs: h.ws.file_srcs.insert(file.raw, s), ..h.ws },
                    ..h
                },
                Some(s),
            )
        },
        None => (HostView { vfs, ..h }, None),
    }
}

/// The imports of a file are recorded.
pub open spec fn published(h: HostView, file: FileId, deps: Seq<DepView>) -> HostView {
    if h.ws.file_deps.contains_key(file.raw) {
        HostView {
            db: DbView {
                deps: h.db.deps.update(h.ws.file_deps[file.raw].id as int, deps),
                ..h.db
            },
            ..h
        }
    } else {
        let fd = FileDeps { id: h.db.deps.len() as usize };
        HostView {
            db: DbView { deps: h.db.deps.push(deps), ..h.db },
            ws: WsView { file_deps: h.ws.file_deps.insert(file.raw, fd), ..h.ws },
            ..h
        }
    }
}

/// The imports of a file are asked for: a file that was never indexed has
/// none.
pub open spec fn with_deps(h: HostView, file: FileId) -> HostView {
    if h.ws.file_deps.contains_key(file.raw) {
        h
    } else {
        published(h, file, Seq::empty())
    }
}

/// The first candidate for an import that exists.
pub open spec fn place_of(
    from_dir: Seq<char>,
    search: Seq<Seq<char>>,
    raw: Seq<char>,
    disk: DiskView,
) -> Option<Seq<char>> {
    let places = candidates(from_dir, search, raw);
    match first_true(places.map_values(|p: Seq<char>| disk.contains_key(p)), 0) {
        Some(i) => Some(places[i]),
        None => None,
    }
}

/// An import is looked for: the first candidate that exists is the file that it
/// leads to, whether or not that can be read. Where it can, it is the target.
pub open spec fn import_found(h: HostView, from_dir: Seq<char>, raw: Seq<char>, disk: DiskView) -> (
    HostView,
    Option<(FileId, SourceText)>,
    Option<FileId>,
) {
    match place_of(from_dir, h.search, raw, disk) {
        Some(place) => {
            let f = FileId { raw: h.vfs.id_of(place) as usize };
            let r = sourced(HostView { vfs: h.vfs.interned(place), ..h }, f, disk);
            (
                r.0,
                match r.1 {
                    Some(s) => Some((f, s)),
                    None => None,
                },
                Some(f),
            )
        },
        None => (h, None, None),
    }
}

/// The imports from position `k` on are looked for, with the files that they
/// lead to.
pub open spec fn imports_found(
    h: HostView,
    from_dir: Seq<char>,
    raws: Seq<RawDepView>,
    k: int,
    disk: DiskView,
) -> (HostView, Seq<DepView>, Set<usize>)
    decreases raws.len() - k,
{
    if 0 <= k < raws.len() {
        let one = import_found(h, from_dir, raws[k].raw, disk);
        let rest = imports_found(one.0, from_dir, raws, k + 1, disk);
        (
            rest.0,
            seq![DepView { raw: raws[k].raw, is_include: raws[k].is_include, target: one.1 }]
                + rest.1,
            match one.2 {
                Some(f) => rest.2.insert(f.raw),
                None => rest.2,
            },
        )
    } else {
        (h, Seq::empty(), Set::empty())
    }
}

/// A file is indexed: it is read, its imports are looked for and recorded, and
/// its symbols and the files that its imports lead to enter the index. A file
/// that cannot be read leaves the index.
pub open spec fn indexed(h: HostView, file: FileId, disk: DiskView) -> HostView {
    let r = sourced(h, file, disk);
    match r.1 {
        Some(s) => {
            let a = r.0.db.sources[s.id as int];
            let found = match parent_of(r.0.vfs.paths[file.raw as int]) {
                Some(dir) => imports_found(r.0, dir, targets_of(a.tree, a.syms), 0, disk),
                None => (r.0, Seq::empty(), Set::empty()),
            };
            let p = published(found.0, file, found.1);
            HostView {
                index: p.index.with_file(file.raw, named_from(a.syms, 0), found.2),
                ..p
            }
        },
        None => HostView { index: r.0.index.without_file(file.raw), ..r.0 },
    }
}

/// The files that the imports from position `k` on splice in.
pub open spec fn spliced_files(deps: Seq<DepView>, k: int) -> Seq<FileId>
    decreases deps.len() - k,
{
    if 0 <= k < deps.len() {
        let rest = spliced_files(deps, k + 1);
        match deps[k].target {
            Some(x) => if deps[k].is_include {
                seq![x.0] + rest
            } else {
                rest
            },
            None => rest,
        }
    } else {
        Seq::empty()
    }
}

/// What the imports of a file splice in, as far as it was indexed.
pub open spec fn spliced_by(h: HostView, file: FileId) -> Seq<FileId> {
    if h.ws.file_deps.contains_key(file.raw) {
        spliced_files(h.db.deps[h.ws.file_deps[file.raw].id as int], 0)
    } else {
        Seq::empty()
    }
}

/// A file is indexed where it was not before.
pub open spec fn indexed_once(h: HostView, file: FileId, disk: DiskView) -> HostView {
    if h.ws.file_deps.contains_key(file.raw) {
        h
    } else {
        indexed(h, file, disk)
    }
}

/// The host after at most `n` steps through the files of `stack` and all that
/// they splice in, each taken once; `None` where more steps are needed.
pub open spec fn walked(
    h: HostView,
    stack: Seq<FileId>,
    seen: Set<usize>,
    disk: DiskView,
    n: nat,
) -> Option<HostView>
    decreases n,
{
    if stack.len() == 0 {
        Some(h)
    } else if n == 0 {
        None
    } else if seen.contains(stack.last().raw) {
        walked(h, stack.drop_last(), seen, disk, (n - 1) as nat)
    } else {
        let f = stack.last();
        let g = indexed_once(h, f, disk);
        walked(
            g,
            stack.drop_last() + spliced_by(g, f),
            seen.insert(f.raw),
            disk,
            (n - 1) as nat,
        )
    }
}

/// Whether the walk from `file` ends in `g`.
pub open spec fn walk_ends(h: HostView, file: FileId, disk: DiskView, g: HostView) -> bool {
    exists|n: nat| #[trigger] walked(h, seq![file], Set::empty(), disk, n) == Some(g)
}

/// A file and all that it splices in, directly or not, are indexed where they
/// were not before.
pub open spec fn ensured(h: HostView, file: FileId, disk: DiskView) -> HostView {
    choose|g: HostView| #[trigger] walk_ends(h, file, disk, g)
}

/// A file is made ready for questions that follow its imports: it is indexed,
/// then read.
pub open spec fn opened(h: HostView, file: FileId, disk: DiskView) -> (HostView, Option<CtxView>) {
    let r = sourced(ensured(h, file, disk), file, disk);
    match r.1 {
        Some(s) => {
            let g = with_deps(r.0, file);
            (g, Some(g.ctx(file, s, g.ws.file_deps[file.raw])))
        },
        None => (r.0, None),
    }
}

/// The same for questions that are not asked of a file that cannot be read.
pub open spec fn read_and_opened(h: HostView, file: FileId, disk: DiskView) -> (
    HostView,
    Option<CtxView>,
) {
    let r = sourced(h, file, disk);
    match r.1 {
        Some(s) => {
            let g = with_deps(ensured(r.0, file, disk), file);
            (g, Some(g.ctx(file, s, g.ws.file_deps[file.raw])))
        },
        None => (r.0, None),
    }
}

// ---------------------------------------------------------------------------
// The walk over spliced files
// ---------------------------------------------------------------------------

/// More steps do not change where a walk ends.
pub proof fn lemma_walked_more(
    h: HostView,
    stack: Seq<FileId>,
    seen: Set<usize>,
    disk: DiskView,
    n: nat,
    m: nat,
)
    requires
        walked(h, stack, seen, disk, n) is Some,
        n <= m,
    ensures
        walked(h, stack, seen, disk, m) == walked(h, stack, seen, disk, n),
    decreases n,
{
    if stack.len() > 0 && n > 0 {
        let f = stack.last();
        if seen.contains(f.raw) {
            lemma_walked_more(h, stack.drop_last(), seen, disk, (n - 1) as nat, (m - 1) as nat);
        } else {
            let g = indexed_once(h, f, disk);
            lemma_walked_more(
                g,
                stack.drop_last() + spliced_by(g, f),
                seen.insert(f.raw),
                disk,
                (n - 1) as nat,
                (m - 1) as nat,
            );
        }
    }
}

/// Where a walk ends is what [`ensured`] says.
pub proof fn lemma_ensured(h: HostView, file: FileId, disk: DiskView, n: nat)
    requires
        walked(h, seq![file], Set::empty(), disk, n) is Some,
    ensures
        Some(ensured(h, file, disk)) == walked(h, seq![file], Set::empty(), disk, n),
{
    let start = seq![file];
    let g = walked(h, start, Set::empty(), disk, n)->0;
    assert(walked(h, start, Set::empty(), disk, n) == Some(g));
    assert(walk_ends(h, file, disk, g));
    let e = ensured(h, file, disk);
    let m = choose|m: nat| #[trigger] walked(h, start, Set::empty(), disk, m) == Some(e);
    if n <= m {
        lemma_walked_more(h, start, Set::empty(), disk, n, m);
    } else {
        lemma_walked_more(h, start, Set::empty(), disk, m, n);
    }
}

} // verus!
