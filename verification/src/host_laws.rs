//! Laws of the analysis host.

use vstd::prelude::*;

use crate::analysis::forgotten;
use crate::db::{analysis_of, named_from, targets_of, DepView, RawDepView};
use crate::disk::{disk_text, DiskView};
use crate::host_model::{
    ensured, import_found, imports_found, indexed, indexed_once, lemma_ensured, place_of, published,
    sourced, spliced_by, spliced_files, targets_known, walked, HostView,
};
use crate::source_path::parent_of;
use crate::vfs::{law_interning, lemma_path_index, FileId};

verus! {

// ---------------------------------------------------------------------------
// Reading
// ---------------------------------------------------------------------------

/// What is known of a file follows its text: after it was read the database
/// holds the parse of the text that the store has.
pub proof fn law_analysis_follows_text(h: HostView, file: FileId, disk: DiskView)
    requires
        h.ok(),
        h.db.sources.len() < usize::MAX,
    ensures
        match h.vfs.text_of(file, disk) {
            Some(text) => sourced(h, file, disk).1 matches Some(s) && sourced(
                h,
                file,
                disk,
            ).0.db.sources[s.id as int] == analysis_of(text),
            None => sourced(h, file, disk).1 is None,
        },
{
}

/// Reading a file again changes nothing and gives the same handle, whatever
/// the disk holds meanwhile.
pub proof fn law_reading_is_idempotent(
    h: HostView,
    file: FileId,
    disk: DiskView,
    later: DiskView,
)
    requires
        h.ok(),
        h.db.sources.len() < usize::MAX,
        h.vfs.text_of(file, disk) is Some,
    ensures
        sourced(sourced(h, file, disk).0, file, later) == sourced(h, file, disk),
{
    let r = sourced(h, file, disk);
    let g = r.0;
    let s = r.1->0;
    let text = h.vfs.text_of(file, disk)->0;
    assert(g.vfs.text_of(file, later) == Some(text));
    assert(g.vfs.after_read(file, later) == g.vfs);
    assert(g.ws.file_srcs[file.raw] == s);
    assert(g.db.sources.update(s.id as int, analysis_of(text)) =~= g.db.sources);
}

/// Forgetting a file does not change what is next known of it.
pub proof fn law_forgetting_is_transparent(h: HostView, file: FileId, disk: DiskView)
    requires
        h.ok(),
        h.db.sources.len() < usize::MAX,
    ensures
        ({
            let a = sourced(h, file, disk);
            let b = sourced(forgotten(h, file), file, disk);
            match (a.1, b.1) {
                (Some(s), Some(t)) => a.0.db.sources[s.id as int] == b.0.db.sources[t.id as int],
                (None, None) => true,
                _ => false,
            }
        }),
{
}

// ---------------------------------------------------------------------------
// What requests leave alone
// ---------------------------------------------------------------------------

/// Whether nothing that a host had was lost or changed on the way from `h` to
/// `g`: paths, contents and the lists of imports stay, the number of changes
/// stays, and new contents come from disk.
pub open spec fn undisturbed(h: HostView, g: HostView, disk: DiskView) -> bool {
    &&& h.vfs.generation == g.vfs.generation
    &&& h.vfs.paths.is_prefix_of(g.vfs.paths)
    &&& forall|f: usize|
        #![trigger g.vfs.contents.contains_key(f)]
        h.vfs.contents.contains_key(f) ==> g.vfs.contents.contains_key(f)
    &&& forall|f: usize|
        #![trigger g.vfs.contents[f]]
        h.vfs.contents.contains_key(f) ==> g.vfs.contents[f] == h.vfs.contents[f]
    &&& forall|f: usize|
        #![trigger g.vfs.contents.contains_key(f)]
        g.vfs.contents.contains_key(f) && !h.vfs.contents.contains_key(f) ==> f
            < g.vfs.paths.len() && disk_text(disk, g.vfs.paths[f as int]) is Some
    &&& h.db.deps.is_prefix_of(g.db.deps)
    &&& forall|f: usize|
        #![trigger g.ws.file_deps.contains_key(f)]
        h.ws.file_deps.contains_key(f) ==> g.ws.file_deps.contains_key(f)
    &&& forall|f: usize|
        #![trigger g.ws.file_deps[f]]
        h.ws.file_deps.contains_key(f) ==> g.ws.file_deps[f] == h.ws.file_deps[f]
}

proof fn lemma_undisturbed_trans(a: HostView, b: HostView, c: HostView, disk: DiskView)
    requires
        undisturbed(a, b, disk),
        undisturbed(b, c, disk),
    ensures
        undisturbed(a, c, disk),
{
    assert(a.vfs.paths =~= c.vfs.paths.take(a.vfs.paths.len() as int));
    assert(a.db.deps =~= c.db.deps.take(a.db.deps.len() as int));
    assert forall|f: usize|
        #![trigger c.vfs.contents.contains_key(f)]
        a.vfs.contents.contains_key(f) implies c.vfs.contents.contains_key(f) by {
        assert(b.vfs.contents.contains_key(f));
    }
    assert forall|f: usize|
        #![trigger c.vfs.contents[f]]
        a.vfs.contents.contains_key(f) implies c.vfs.contents[f] == a.vfs.contents[f] by {
        assert(b.vfs.contents.contains_key(f));
        assert(b.vfs.contents[f] == a.vfs.contents[f]);
    }
    assert forall|f: usize|
        #![trigger c.vfs.contents.contains_key(f)]
        c.vfs.contents.contains_key(f) && !a.vfs.contents.contains_key(f) implies f
        < c.vfs.paths.len() && disk_text(disk, c.vfs.paths[f as int]) is Some by {
        if b.vfs.contents.contains_key(f) {
            assert(b.vfs.paths[f as int] == c.vfs.paths[f as int]);
        }
    }
    assert forall|f: usize|
        #![trigger c.ws.file_deps.contains_key(f)]
        a.ws.file_deps.contains_key(f) implies c.ws.file_deps.contains_key(f) by {
        assert(b.ws.file_deps.contains_key(f));
    }
    assert forall|f: usize|
        #![trigger c.ws.file_deps[f]]
        a.ws.file_deps.contains_key(f) implies c.ws.file_deps[f] == a.ws.file_deps[f] by {
        assert(b.ws.file_deps.contains_key(f));
        assert(b.ws.file_deps[f] == a.ws.file_deps[f]);
    }
}

proof fn lemma_undisturbed_same(h: HostView, disk: DiskView)
    ensures
        undisturbed(h, h, disk),
{
    assert(h.vfs.paths =~= h.vfs.paths.take(h.vfs.paths.len() as int));
    assert(h.db.deps =~= h.db.deps.take(h.db.deps.len() as int));
}

/// Reading a file disturbs nothing.
pub proof fn law_reading_disturbs_nothing(h: HostView, file: FileId, disk: DiskView)
    requires
        h.vfs.knows(file),
    ensures
        undisturbed(h, sourced(h, file, disk).0, disk),
        sourced(h, file, disk).0.ws.file_deps == h.ws.file_deps,
        sourced(h, file, disk).0.vfs.paths == h.vfs.paths,
{
    lemma_undisturbed_same(h, disk);
    let g = sourced(h, file, disk).0;
    assert(h.vfs.paths =~= g.vfs.paths.take(h.vfs.paths.len() as int));
}

/// Whether every target of a list of imports has one of the first `count`
/// paths.
pub open spec fn leads_to_known(deps: Seq<DepView>, count: int) -> bool {
    forall|k: int|
        #![trigger deps[k]]
        0 <= k < deps.len() ==> (deps[k].target matches Some(x) ==> x.0.raw < count)
}

proof fn lemma_import_found(h: HostView, from_dir: Seq<char>, raw: Seq<char>, disk: DiskView)
    ensures
        undisturbed(h, import_found(h, from_dir, raw, disk).0, disk),
        import_found(h, from_dir, raw, disk).0.ws.file_deps == h.ws.file_deps,
        import_found(h, from_dir, raw, disk).0.db.deps == h.db.deps,
        import_found(h, from_dir, raw, disk).1 matches Some(x) ==> x.0.raw < import_found(
            h,
            from_dir,
            raw,
            disk,
        ).0.vfs.paths.len(),
{
    lemma_undisturbed_same(h, disk);
    if let Some(place) = place_of(from_dir, h.search, raw, disk) {
        let mid = HostView { vfs: h.vfs.interned(place), ..h };
        let f = FileId { raw: h.vfs.id_of(place) as usize };
        lemma_path_index(h.vfs.paths, place, 0);
        assert(h.vfs.paths =~= mid.vfs.paths.take(h.vfs.paths.len() as int));
        assert(undisturbed(h, mid, disk));
        law_reading_disturbs_nothing(mid, f, disk);
        lemma_undisturbed_trans(h, mid, sourced(mid, f, disk).0, disk);
    }
}

proof fn lemma_imports_found(
    h: HostView,
    from_dir: Seq<char>,
    raws: Seq<RawDepView>,
    k: int,
    disk: DiskView,
)
    ensures
        undisturbed(h, imports_found(h, from_dir, raws, k, disk).0, disk),
        imports_found(h, from_dir, raws, k, disk).0.ws.file_deps == h.ws.file_deps,
        imports_found(h, from_dir, raws, k, disk).0.db.deps == h.db.deps,
        leads_to_known(
            imports_found(h, from_dir, raws, k, disk).1,
            imports_found(h, from_dir, raws, k, disk).0.vfs.paths.len() as int,
        ),
    decreases raws.len() - k,
{
    lemma_undisturbed_same(h, disk);
    if 0 <= k < raws.len() {
        let all = imports_found(h, from_dir, raws, k, disk);
        let one = import_found(h, from_dir, raws[k].raw, disk);
        lemma_import_found(h, from_dir, raws[k].raw, disk);
        lemma_imports_found(one.0, from_dir, raws, k + 1, disk);
        lemma_undisturbed_trans(
            h,
            one.0,
            imports_found(one.0, from_dir, raws, k + 1, disk).0,
            disk,
        );
        let rest = imports_found(one.0, from_dir, raws, k + 1, disk);
        assert forall|j: int| #![trigger all.1[j]] 0 <= j < all.1.len() implies (
        all.1[j].target matches Some(x) ==> x.0.raw < all.0.vfs.paths.len()) by {
            if j > 0 {
                assert(all.1[j] == rest.1[j - 1]);
            }
        }
    }
}

/// Indexing a file that was not indexed before disturbs nothing: no buffer
/// changes, and what was recorded for other files stays.
pub proof fn law_indexing_disturbs_nothing(h: HostView, file: FileId, disk: DiskView)
    requires
        file.raw < h.vfs.paths.len(),
        !h.ws.file_deps.contains_key(file.raw),
    ensures
        undisturbed(h, indexed(h, file, disk), disk),
        forall|f: usize|
            #![trigger indexed(h, file, disk).ws.file_deps.contains_key(f)]
            f != file.raw ==> indexed(h, file, disk).ws.file_deps.contains_key(f)
                == h.ws.file_deps.contains_key(f),
        h.vfs.text_of(file, disk) is Some ==> indexed(h, file, disk).ws.file_deps.contains_key(
            file.raw,
        ) && indexed(h, file, disk).ws.file_deps[file.raw].id < indexed(h, file, disk).db.deps.len(),
        h.vfs.text_of(file, disk) is None ==> indexed(h, file, disk).ws.file_deps
            == h.ws.file_deps,
        targets_known(h.db, h.vfs) ==> targets_known(
            indexed(h, file, disk).db,
            indexed(h, file, disk).vfs,
        ),
{
    law_reading_disturbs_nothing(h, file, disk);
    let r = sourced(h, file, disk);
    if let Some(s) = r.1 {
        let a = r.0.db.sources[s.id as int];
        let found = match parent_of(r.0.vfs.paths[file.raw as int]) {
            Some(dir) => imports_found(r.0, dir, targets_of(a.tree, a.syms), 0, disk),
            None => (r.0, Seq::empty(), Set::empty()),
        };
        lemma_undisturbed_same(r.0, disk);
        if let Some(dir) = parent_of(r.0.vfs.paths[file.raw as int]) {
            lemma_imports_found(r.0, dir, targets_of(a.tree, a.syms), 0, disk);
        }
        lemma_undisturbed_trans(h, r.0, found.0, disk);
        let p = published(found.0, file, found.1);
        assert(found.0.db.deps =~= p.db.deps.take(found.0.db.deps.len() as int));
        assert(found.0.vfs.paths =~= p.vfs.paths.take(found.0.vfs.paths.len() as int));
        assert(undisturbed(found.0, p, disk));
        lemma_undisturbed_trans(h, found.0, p, disk);
        if targets_known(h.db, h.vfs) {
            assert forall|i: int, k: int|
                #![trigger p.db.deps[i][k]]
                0 <= i < p.db.deps.len() && 0 <= k < p.db.deps[i].len() implies (
            p.db.deps[i][k].target matches Some(x) ==> x.0.raw < p.vfs.paths.len()) by {
                if i < h.db.deps.len() {
                    assert(p.db.deps[i] == h.db.deps[i]);
                    assert(h.db.deps[i][k].target == p.db.deps[i][k].target);
                } else {
                    assert(p.db.deps[i][k] == found.1[k]);
                }
            }
        }
    }
}

/// What the index holds of a file after it was indexed: its named symbols, or
/// nothing where it cannot be read.
pub proof fn law_index_follows_file(h: HostView, file: FileId, disk: DiskView)
    requires
        h.ok(),
        h.db.sources.len() < usize::MAX,
        file.raw < h.vfs.paths.len(),
    ensures
        match h.vfs.text_of(file, disk) {
            Some(text) => indexed(h, file, disk).index.symbols.contains_key(file.raw) && indexed(
                h,
                file,
                disk,
            ).index.symbols[file.raw] == named_from(analysis_of(text).syms, 0),
            None => !indexed(h, file, disk).index.symbols.contains_key(file.raw),
        },
{
    law_analysis_follows_text(h, file, disk);
}

/// Whether one of the imports from position `k` on leads to `path`.
pub open spec fn leads_to(
    from_dir: Seq<char>,
    search: Seq<Seq<char>>,
    raws: Seq<RawDepView>,
    k: int,
    disk: DiskView,
    path: Seq<char>,
) -> bool {
    exists|j: int|
        k <= j < raws.len() && place_of(from_dir, search, (#[trigger] raws[j]).raw, disk) == Some(
            path,
        )
}

proof fn lemma_places_found(
    h: HostView,
    from_dir: Seq<char>,
    raws: Seq<RawDepView>,
    k: int,
    disk: DiskView,
    f: usize,
)
    requires
        0 <= k,
        h.vfs.distinct(),
        imports_found(h, from_dir, raws, k, disk).0.vfs.paths.len() <= usize::MAX,
    ensures
        imports_found(h, from_dir, raws, k, disk).0.vfs.distinct(),
        imports_found(h, from_dir, raws, k, disk).2.contains(f) <==> ({
            let g = imports_found(h, from_dir, raws, k, disk).0;
            f < g.vfs.paths.len() && leads_to(
                from_dir,
                h.search,
                raws,
                k,
                disk,
                g.vfs.paths[f as int],
            )
        }),
    decreases raws.len() - k,
{
    if k < raws.len() {
        let one = import_found(h, from_dir, raws[k].raw, disk);
        let rest = imports_found(one.0, from_dir, raws, k + 1, disk);
        let all = imports_found(h, from_dir, raws, k, disk);
        let paths = all.0.vfs.paths;
        lemma_import_found(h, from_dir, raws[k].raw, disk);
        lemma_imports_found(one.0, from_dir, raws, k + 1, disk);
        if let Some(place) = place_of(from_dir, h.search, raws[k].raw, disk) {
            law_interning(h.vfs, place);
            let id = h.vfs.id_of(place);
            let mid = HostView { vfs: h.vfs.interned(place), ..h };
            lemma_path_index(h.vfs.paths, place, 0);
            assert(mid.vfs.distinct());
            assert(one.0.vfs.paths == mid.vfs.paths);
            assert(one.0.vfs.paths[id] == paths[id]);
            assert(paths[id] == place);
        }
        lemma_places_found(one.0, from_dir, raws, k + 1, disk, f);
        assert(one.0.search == h.search);
        if f < paths.len() {
            let path = paths[f as int];
            if leads_to(from_dir, h.search, raws, k, disk, path) {
                let j = choose|j: int|
                    k <= j < raws.len() && place_of(
                        from_dir,
                        h.search,
                        (#[trigger] raws[j]).raw,
                        disk,
                    ) == Some(path);
                if j > k {
                    assert(leads_to(from_dir, h.search, raws, k + 1, disk, path));
                }
            }
            if leads_to(from_dir, h.search, raws, k + 1, disk, path) {
                let j = choose|j: int|
                    k + 1 <= j < raws.len() && place_of(
                        from_dir,
                        h.search,
                        (#[trigger] raws[j]).raw,
                        disk,
                    ) == Some(path);
                assert(leads_to(from_dir, h.search, raws, k, disk, path));
            }
        }
    }
}

/// A file that was indexed depends on exactly those files that one of its
/// imports leads to: the first candidate of each that exists, whether or not it
/// can be read.
pub proof fn law_every_import_is_an_edge(h: HostView, file: FileId, disk: DiskView, f: usize)
    requires
        h.ok(),
        h.db.sources.len() < usize::MAX,
        file.raw < h.vfs.paths.len(),
        h.vfs.text_of(file, disk) is Some,
        parent_of(h.vfs.paths[file.raw as int]) is Some,
        indexed(h, file, disk).vfs.paths.len() <= usize::MAX,
    ensures
        indexed(h, file, disk).index.dependents(f).contains(file.raw) <==> ({
            let g = indexed(h, file, disk);
            let a = analysis_of(h.vfs.text_of(file, disk)->0);
            let dir = parent_of(h.vfs.paths[file.raw as int])->0;
            f < g.vfs.paths.len() && leads_to(
                dir,
                h.search,
                targets_of(a.tree, a.syms),
                0,
                disk,
                g.vfs.paths[f as int],
            )
        }),
{
    law_analysis_follows_text(h, file, disk);
    law_reading_disturbs_nothing(h, file, disk);
    let r = sourced(h, file, disk);
    let a = r.0.db.sources[r.1->0.id as int];
    let dir = parent_of(h.vfs.paths[file.raw as int])->0;
    lemma_places_found(r.0, dir, targets_of(a.tree, a.syms), 0, disk, f);
}

/// Whether what was recorded for import `d` is right: its name and its form are
/// those that were asked for, it has no target where no candidate exists, and a
/// target is the file of the first candidate that exists.
pub open spec fn rightly_recorded(
    d: DepView,
    raw: RawDepView,
    place: Option<Seq<char>>,
    paths: Seq<Seq<char>>,
) -> bool {
    &&& d.raw == raw.raw
    &&& d.is_include == raw.is_include
    &&& place is None ==> d.target is None
    &&& d.target matches Some(x) ==> x.0.raw < paths.len() && Some(paths[x.0.raw as int]) == place
}

proof fn lemma_recorded(
    h: HostView,
    from_dir: Seq<char>,
    raws: Seq<RawDepView>,
    k: int,
    disk: DiskView,
    j: int,
)
    requires
        0 <= k <= raws.len(),
        imports_found(h, from_dir, raws, k, disk).0.vfs.paths.len() <= usize::MAX,
    ensures
        ({
            let all = imports_found(h, from_dir, raws, k, disk);
            &&& all.1.len() == raws.len() - k
            &&& k <= j < raws.len() ==> rightly_recorded(
                all.1[j - k],
                raws[j],
                place_of(from_dir, h.search, raws[j].raw, disk),
                all.0.vfs.paths,
            )
        }),
    decreases raws.len() - k,
{
    if k < raws.len() {
        let one = import_found(h, from_dir, raws[k].raw, disk);
        let rest = imports_found(one.0, from_dir, raws, k + 1, disk);
        let all = imports_found(h, from_dir, raws, k, disk);
        lemma_import_found(h, from_dir, raws[k].raw, disk);
        lemma_imports_found(one.0, from_dir, raws, k + 1, disk);
        lemma_recorded(one.0, from_dir, raws, k + 1, disk, j);
        assert(one.0.search == h.search);
        assert(one.0.vfs.paths.len() <= rest.0.vfs.paths.len());
        if let Some(place) = place_of(from_dir, h.search, raws[k].raw, disk) {
            let mid = HostView { vfs: h.vfs.interned(place), ..h };
            let f = FileId { raw: h.vfs.id_of(place) as usize };
            lemma_path_index(h.vfs.paths, place, 0);
            law_reading_disturbs_nothing(mid, f, disk);
            assert(one.0.vfs.paths == mid.vfs.paths);
            assert(f.raw < one.0.vfs.paths.len());
            assert(one.0.vfs.paths[f.raw as int] == place);
            assert(rest.0.vfs.paths[f.raw as int] == one.0.vfs.paths[f.raw as int]);
        }
        if k < j < raws.len() {
            assert(all.1[j - k] == rest.1[j - (k + 1)]);
        }
    }
}

/// When a file has been indexed, each of its imports is recorded, in the order
/// in which it is written: under its name and in its form, without a target
/// where no candidate exists, and else with no other target than the file of the
/// first candidate that exists.
pub proof fn law_every_import_is_recorded(h: HostView, file: FileId, disk: DiskView, j: int)
    requires
        h.ok(),
        h.db.sources.len() < usize::MAX,
        h.db.deps.len() < usize::MAX,
        file.raw < h.vfs.paths.len(),
        h.vfs.text_of(file, disk) is Some,
        parent_of(h.vfs.paths[file.raw as int]) is Some,
        indexed(h, file, disk).vfs.paths.len() <= usize::MAX,
    ensures
        ({
            let g = indexed(h, file, disk);
            let a = analysis_of(h.vfs.text_of(file, disk)->0);
            let raws = targets_of(a.tree, a.syms);
            let dir = parent_of(h.vfs.paths[file.raw as int])->0;
            let deps = g.db.deps[g.ws.file_deps[file.raw].id as int];
            &&& g.ws.file_deps.contains_key(file.raw)
            &&& deps.len() == raws.len()
            &&& 0 <= j < raws.len() ==> rightly_recorded(
                deps[j],
                raws[j],
                place_of(dir, h.search, raws[j].raw, disk),
                g.vfs.paths,
            )
        }),
{
    law_analysis_follows_text(h, file, disk);
    law_reading_disturbs_nothing(h, file, disk);
    let r = sourced(h, file, disk);
    let a = r.0.db.sources[r.1->0.id as int];
    let raws = targets_of(a.tree, a.syms);
    let dir = parent_of(h.vfs.paths[file.raw as int])->0;
    let found = imports_found(r.0, dir, raws, 0, disk);
    lemma_imports_found(r.0, dir, raws, 0, disk);
    lemma_recorded(r.0, dir, raws, 0, disk, j);
    let p = published(found.0, file, found.1);
    assert(found.0.ws.file_deps == h.ws.file_deps);
    assert(found.0.db.deps == h.db.deps);
    assert(p.db.deps[p.ws.file_deps[file.raw].id as int] == found.1);
}

// ---------------------------------------------------------------------------
// Spliced files
// ---------------------------------------------------------------------------

/// Whether the recorded lists of imports exist.
pub open spec fn lists_exist(h: HostView) -> bool {
    forall|f: usize|
        #![trigger h.ws.file_deps[f]]
        h.ws.file_deps.contains_key(f) ==> h.ws.file_deps[f].id < h.db.deps.len()
}

/// Whether a file was dealt with: it is indexed, or it cannot be read.
pub open spec fn dealt_with(h: HostView, f: usize, disk: DiskView) -> bool {
    h.ws.file_deps.contains_key(f) || (!h.vfs.contents.contains_key(f) && f < h.vfs.paths.len()
        && disk_text(disk, h.vfs.paths[f as int]) is None)
}

/// Whether the files of `all` splice in only files of `all`, and each of them
/// was dealt with.
pub open spec fn closed_under_splicing(h: HostView, all: Set<usize>, disk: DiskView) -> bool {
    &&& forall|f: usize| #![trigger all.contains(f)] all.contains(f) ==> dealt_with(h, f, disk)
    &&& forall|f: usize, j: int|
        #![trigger spliced_by(h, FileId { raw: f })[j]]
        all.contains(f) && 0 <= j < spliced_by(h, FileId { raw: f }).len() ==> all.contains(
            spliced_by(h, FileId { raw: f })[j].raw,
        )
}

proof fn lemma_spliced_known(deps: Seq<DepView>, k: int, count: int)
    requires
        0 <= k,
        leads_to_known(deps, count),
    ensures
        forall|j: int|
            #![trigger spliced_files(deps, k)[j]]
            0 <= j < spliced_files(deps, k).len() ==> spliced_files(deps, k)[j].raw < count,
    decreases deps.len() - k,
{
    if k < deps.len() {
        lemma_spliced_known(deps, k + 1, count);
        let rest = spliced_files(deps, k + 1);
        let all = spliced_files(deps, k);
        assert forall|j: int| #![trigger all[j]] 0 <= j < all.len() implies all[j].raw < count by {
            if all.len() == rest.len() + 1 {
                if j > 0 {
                    assert(all[j] == rest[j - 1]);
                } else {
                    assert(deps[k].target matches Some(x) && all[0] == x.0);
                }
            } else {
                assert(all[j] == rest[j]);
            }
        }
    }
}

/// The files that a file splices in have known paths.
pub proof fn lemma_spliced_by_known(h: HostView, f: FileId)
    requires
        lists_exist(h),
        targets_known(h.db, h.vfs),
    ensures
        forall|j: int|
            #![trigger spliced_by(h, f)[j]]
            0 <= j < spliced_by(h, f).len() ==> spliced_by(h, f)[j].raw < h.vfs.paths.len(),
{
    if h.ws.file_deps.contains_key(f.raw) {
        let id = h.ws.file_deps[f.raw].id as int;
        let deps = h.db.deps[id];
        assert forall|k: int| #![trigger deps[k]] 0 <= k < deps.len() implies (
        deps[k].target matches Some(x) ==> x.0.raw < h.vfs.paths.len()) by {
            assert(h.db.deps[id][k] == deps[k]);
        }
        lemma_spliced_known(deps, 0, h.vfs.paths.len() as int);
    }
}

proof fn lemma_step(h: HostView, f: FileId, disk: DiskView)
    requires
        f.raw < h.vfs.paths.len(),
        lists_exist(h),
        targets_known(h.db, h.vfs),
    ensures
        targets_known(indexed_once(h, f, disk).db, indexed_once(h, f, disk).vfs),
        undisturbed(h, indexed_once(h, f, disk), disk),
        lists_exist(indexed_once(h, f, disk)),
        dealt_with(indexed_once(h, f, disk), f.raw, disk),
        forall|x: usize|
            #![trigger dealt_with(indexed_once(h, f, disk), x, disk)]
            dealt_with(h, x, disk) ==> dealt_with(indexed_once(h, f, disk), x, disk),
        forall|x: usize|
            #![trigger spliced_by(indexed_once(h, f, disk), FileId { raw: x })]
            dealt_with(h, x, disk) && x != f.raw ==> spliced_by(
                indexed_once(h, f, disk),
                FileId { raw: x },
            ) == spliced_by(h, FileId { raw: x }),
{
    let g = indexed_once(h, f, disk);
    lemma_undisturbed_same(h, disk);
    if !h.ws.file_deps.contains_key(f.raw) {
        law_indexing_disturbs_nothing(h, f, disk);
    }
    assert forall|x: usize|
        #![trigger g.ws.file_deps[x]]
        g.ws.file_deps.contains_key(x) implies g.ws.file_deps[x].id < g.db.deps.len() by {
        if h.ws.file_deps.contains_key(x) {
            assert(g.ws.file_deps[x] == h.ws.file_deps[x]);
        }
    }
    assert(g.vfs.paths[f.raw as int] == h.vfs.paths[f.raw as int]);
    if h.vfs.text_of(f, disk) is None && !h.ws.file_deps.contains_key(f.raw) {
        assert(!g.vfs.contents.contains_key(f.raw));
    }
    assert forall|x: usize| #![trigger dealt_with(g, x, disk)] dealt_with(
        h,
        x,
        disk,
    ) implies dealt_with(g, x, disk) by {
        if !h.ws.file_deps.contains_key(x) {
            assert(g.vfs.paths[x as int] == h.vfs.paths[x as int]);
            if g.vfs.contents.contains_key(x) {
                assert(disk_text(disk, g.vfs.paths[x as int]) is Some);
            }
        } else {
            assert(g.ws.file_deps.contains_key(x));
        }
    }
    assert forall|x: usize|
        #![trigger spliced_by(g, FileId { raw: x })]
        dealt_with(h, x, disk) && x != f.raw implies spliced_by(g, FileId { raw: x })
        == spliced_by(h, FileId { raw: x }) by {
        if h.ws.file_deps.contains_key(x) {
            assert(g.ws.file_deps.contains_key(x));
            assert(g.ws.file_deps[x] == h.ws.file_deps[x]);
            assert(g.db.deps[h.ws.file_deps[x].id as int] == h.db.deps[h.ws.file_deps[x].id as int]);
        } else {
            assert(!g.ws.file_deps.contains_key(x));
        }
    }
}

/// Whether the files of `seen` were dealt with and splice in only files that
/// were seen or wait on the stack, and the paths of waiting files are known.
spec fn underway(h: HostView, stack: Seq<FileId>, seen: Set<usize>, disk: DiskView) -> bool {
    &&& lists_exist(h)
    &&& targets_known(h.db, h.vfs)
    &&& forall|k: int|
        #![trigger stack[k]]
        0 <= k < stack.len() ==> stack[k].raw < h.vfs.paths.len()
    &&& forall|f: usize| #![trigger seen.contains(f)] seen.contains(f) ==> dealt_with(h, f, disk)
    &&& forall|f: usize, j: int|
        #![trigger spliced_by(h, FileId { raw: f })[j]]
        seen.contains(f) && 0 <= j < spliced_by(h, FileId { raw: f }).len() ==> seen.contains(
            spliced_by(h, FileId { raw: f })[j].raw,
        ) || stack.contains(spliced_by(h, FileId { raw: f })[j])
}

proof fn lemma_walk_closes(
    h: HostView,
    stack: Seq<FileId>,
    seen: Set<usize>,
    disk: DiskView,
    n: nat,
) -> (all: Set<usize>)
    requires
        underway(h, stack, seen, disk),
        walked(h, stack, seen, disk, n) is Some,
    ensures
        undisturbed(h, walked(h, stack, seen, disk, n)->0, disk),
        closed_under_splicing(walked(h, stack, seen, disk, n)->0, all, disk),
        seen.subset_of(all),
        forall|k: int| #![trigger stack[k]] 0 <= k < stack.len() ==> all.contains(stack[k].raw),
    decreases n,
{
    lemma_undisturbed_same(h, disk);
    if stack.len() == 0 {
        assert(closed_under_splicing(h, seen, disk));
        seen
    } else {
        let f = stack.last();
        let rest = stack.drop_last();
        if seen.contains(f.raw) {
            assert forall|x: usize, j: int|
                #![trigger spliced_by(h, FileId { raw: x })[j]]
                seen.contains(x) && 0 <= j < spliced_by(h, FileId { raw: x }).len() implies (
            seen.contains(spliced_by(h, FileId { raw: x })[j].raw) || rest.contains(
                spliced_by(h, FileId { raw: x })[j],
            )) by {
                let y = spliced_by(h, FileId { raw: x })[j];
                if !seen.contains(y.raw) {
                    let k = choose|k: int| 0 <= k < stack.len() && stack[k] == y;
                    assert(rest[k] == y);
                }
            }
            assert forall|k: int| #![trigger rest[k]] 0 <= k < rest.len() implies rest[k].raw
                < h.vfs.paths.len() by {
                assert(rest[k] == stack[k]);
            }
            let all = lemma_walk_closes(h, rest, seen, disk, (n - 1) as nat);
            assert forall|k: int| #![trigger stack[k]] 0 <= k < stack.len() implies all.contains(
                stack[k].raw,
            ) by {
                if k < rest.len() {
                    assert(rest[k] == stack[k]);
                }
            }
            all
        } else {
            let g = indexed_once(h, f, disk);
            let more = spliced_by(g, f);
            let next = rest + more;
            let now = seen.insert(f.raw);
            assert(stack[stack.len() - 1] == f);
            lemma_step(h, f, disk);
            lemma_spliced_by_known(g, f);
            assert forall|k: int| #![trigger next[k]] 0 <= k < next.len() implies next[k].raw
                < g.vfs.paths.len() by {
                if k < rest.len() {
                    assert(next[k] == stack[k]);
                } else {
                    assert(next[k] == more[k - rest.len()]);
                }
            }
            assert forall|x: usize| #![trigger now.contains(x)] now.contains(x) implies dealt_with(
                g,
                x,
                disk,
            ) by {
                if x != f.raw {
                    assert(seen.contains(x));
                    assert(dealt_with(h, x, disk));
                }
            }
            assert forall|x: usize, j: int|
                #![trigger spliced_by(g, FileId { raw: x })[j]]
                now.contains(x) && 0 <= j < spliced_by(g, FileId { raw: x }).len() implies (
            now.contains(spliced_by(g, FileId { raw: x })[j].raw) || next.contains(
                spliced_by(g, FileId { raw: x })[j],
            )) by {
                let y = spliced_by(g, FileId { raw: x })[j];
                if x == f.raw {
                    assert(FileId { raw: x } == f);
                    assert(next[rest.len() + j] == y);
                } else {
                    assert(seen.contains(x));
                    assert(dealt_with(h, x, disk));
                    assert(spliced_by(g, FileId { raw: x }) == spliced_by(h, FileId { raw: x }));
                    assert(spliced_by(h, FileId { raw: x })[j] == y);
                    if !seen.contains(y.raw) {
                        let k = choose|k: int| 0 <= k < stack.len() && stack[k] == y;
                        if k < rest.len() {
                            assert(next[k] == y);
                        }
                    }
                }
            }
            let all = lemma_walk_closes(g, next, now, disk, (n - 1) as nat);
            lemma_undisturbed_trans(
                h,
                g,
                walked(g, next, now, disk, (n - 1) as nat)->0,
                disk,
            );
            assert(now.contains(f.raw));
            assert forall|k: int| #![trigger stack[k]] 0 <= k < stack.len() implies all.contains(
                stack[k].raw,
            ) by {
                if k < rest.len() {
                    assert(next[k] == stack[k]);
                }
            }
            all
        }
    }
}

/// After a file was made ready, no buffer has changed, and the file and all
/// that it splices in, directly or not, are indexed or cannot be read.
pub proof fn law_spliced_files_are_indexed(h: HostView, file: FileId, disk: DiskView, n: nat)
    requires
        h.ok(),
        file.raw < h.vfs.paths.len(),
        walked(h, seq![file], Set::empty(), disk, n) is Some,
    ensures
        undisturbed(h, ensured(h, file, disk), disk),
        exists|all: Set<usize>|
            all.contains(file.raw) && #[trigger] closed_under_splicing(
                ensured(h, file, disk),
                all,
                disk,
            ),
{
    let start = seq![file];
    lemma_ensured(h, file, disk, n);
    assert(underway(h, start, Set::empty(), disk));
    let all = lemma_walk_closes(h, start, Set::empty(), disk, n);
    assert(start[0] == file);
    assert(all.contains(file.raw) && closed_under_splicing(ensured(h, file, disk), all, disk));
}

} // verus!
