//! The analysis host: files, what is known of them, and the questions that an
//! editor asks.
//!
//! The host never touches the file system. A request that may need a file
//! which is not held is given a [`Disk`], which tells what is there.

use vstd::prelude::*;
use vstd::string::*;
use vstd::utf8::encode_utf8;

use crate::checks::{
    arity_problems, generic_diagnostics_query, resolution_diagnostics_query, resolution_problems,
    ImportCtx,
};
use crate::db::{
    analysis_of, db_ok, deps_ok, deps_view, file_symbols, item_tree, lemma_named_in_order, parsed,
    raw_deps_view, raw_imports, resolve_name_query, resolve_query, resolved, resolved_deps,
    syntax_tree, target_ok, targets_of, CompactDatabase, Ctx, CtxView, DepView, FileAnalysis,
    FileDeps, RawDep, RawDepView, ResolvedDep, SourceText, Workspace, WsView,
};
use crate::diagnostics::{diags_view, DiagView, Diagnostic};
use crate::disclosure::report::{disclosure_diagnostics_query, disclosure_problems};
use crate::disk::{disk_ok, Disk, DiskView};
use crate::filemap::FileMap;
use crate::host_laws::{
    closed_under_splicing, law_spliced_files_are_indexed, lemma_spliced_by_known, undisturbed,
};
use crate::host_model::{
    ensured, grown, import_found, imports_found, indexed, indexed_once, lemma_ensured, opened,
    paths_from, published, read_and_opened, sourced, spliced_by, spliced_files, walked, with_deps,
    HostView,
};
use crate::idset::{ascending, file_ids, increasing, IdSet};
use crate::infer::{type_diagnostics_query, type_mismatches};
use crate::item_tree::{SymbolKind, SymbolView};
use crate::ledger_adts::{
    field_adt, find_field_adt, methods_of, methods_view, LedgerAdtTable, LedgerMethod,
};
use crate::resolve::{odef, DefView, Definition, FilePosition};
use crate::source_path::{
    candidates, find_source_pathname, first_true, parent_dir, parent_of, source_candidates,
};
use crate::text::{join, join_texts, otext, same_text, texts, TextRange};
use crate::ty::{okind, TyKind};
use crate::typing::{expr_ty, type_around};
use crate::vfs::{FileId, Vfs, VfsView};
use crate::workspace::{
    hits_ascend, hits_strictly_ascend, indices_fit, law_hits_strictly_ascend, matches_from,
    IndexView, WorkspaceIndex,
};

verus! {

/// Files and what is known of them.
pub struct AnalysisHost {
    db: CompactDatabase,
    ws: Workspace,
    vfs: Vfs,
    stdlib: Option<FileId>,
    import_search_path: Vec<String>,
    index: WorkspaceIndex,
    ledger_adts: LedgerAdtTable,
}

impl View for AnalysisHost {
    type V = HostView;

    closed spec fn view(&self) -> HostView {
        HostView {
            db: self.db@,
            ws: self.ws@,
            vfs: self.vfs@,
            stdlib: self.stdlib,
            search: texts(self.import_search_path@),
            index: self.index@,
            adts: self.ledger_adts@,
        }
    }
}

impl AnalysisHost {
    /// Whether the index is whole.
    pub closed spec fn index_ok(&self) -> bool {
        self.index.ok()
    }

    /// What every host keeps.
    pub open spec fn ok(&self) -> bool {
        self@.ok() && self.index_ok()
    }

    /// A host without files.
    pub fn new() -> (r: AnalysisHost)
        ensures
            r.ok(),
            r@.db.sources.len() == 0,
            r@.db.deps.len() == 0,
            r@.ws == (WsView { stdlib: None, file_deps: Map::empty(), file_srcs: Map::empty() }),
            r@.vfs == (VfsView { paths: Seq::empty(), contents: Map::empty(), generation: 0 }),
            r@.stdlib is None,
            r@.search.len() == 0,
            r@.index == (IndexView { symbols: Map::empty(), forward: Map::empty() }),
            r@.adts.len() == 0,
    {
        AnalysisHost {
            db: CompactDatabase::new(),
            ws: Workspace::new(None, FileMap::new(), FileMap::new()),
            vfs: Vfs::new(),
            stdlib: None,
            import_search_path: Vec::new(),
            index: WorkspaceIndex::new(),
            ledger_adts: LedgerAdtTable::load(Vec::new()),
        }
    }

    /// The database.
    pub fn db_ref(&self) -> (r: &CompactDatabase)
        ensures
            r@ == self@.db,
    {
        &self.db
    }

    /// What holds for the workspace as a whole.
    pub fn workspace(&self) -> (r: &Workspace)
        ensures
            r@ == self@.ws,
    {
        &self.ws
    }

    /// The store of file contents.
    pub fn vfs(&self) -> (r: &Vfs)
        ensures
            r@ == self@.vfs,
    {
        &self.vfs
    }

    /// The store of file contents, to be changed.
    pub fn vfs_mut(&mut self) -> (r: &mut Vfs)
        ensures
            (*r)@ == old(self)@.vfs,
            final(self)@ == (HostView { vfs: (*final(r))@, ..old(self)@ }),
            final(self).index_ok() == old(self).index_ok(),
    {
        &mut self.vfs
    }

    /// The file of the standard library.
    pub fn stdlib_file(&self) -> (r: Option<FileId>)
        ensures
            r == self@.stdlib,
    {
        self.stdlib
    }

    /// Sets the directories in which imports are looked for after the
    /// directory of the importing file.
    pub fn set_import_search_path(&mut self, path: Vec<String>)
        requires
            old(self).ok(),
        ensures
            final(self)@ == (HostView { search: texts(path@), ..old(self)@ }),
            final(self).ok(),
    {
        self.import_search_path = path;
    }

    /// The directories in which imports are looked for after the directory of
    /// the importing file.
    pub fn import_search_path(&self) -> (r: &Vec<String>)
        ensures
            texts(r@) == self@.search,
    {
        &self.import_search_path
    }

    /// The number of changes to file contents so far.
    pub fn generation(&self) -> (r: u64)
        ensures
            r == self@.vfs.generation,
    {
        self.vfs.generation()
    }

    /// Sets the table of ledger methods.
    pub fn set_ledger_adts(&mut self, table: LedgerAdtTable)
        requires
            old(self).ok(),
        ensures
            final(self)@ == (HostView { adts: table@, ..old(self)@ }),
            final(self).ok(),
    {
        self.ledger_adts = table;
    }

    /// The methods of a ledger data type; none where it is not known.
    pub fn ledger_adt_methods(&self, adt: &str) -> (r: &Vec<LedgerMethod>)
        ensures
            methods_view(r@) == methods_of(self@.adts, adt@, self@.adts.len() as int),
    {
        self.ledger_adts.methods(adt)
    }

    /// The text of a file in the database, as it now is; `None` where it
    /// cannot be read.
    pub fn source_for(&mut self, file: FileId, disk: &Disk) -> (r: Option<SourceText>)
        requires
            old(self).ok(),
            disk_ok(disk@),
            old(self)@.vfs.knows(file),
        ensures
            (final(self)@, r) == sourced(old(self)@, file, disk@),
            final(self).ok(),
            grown(old(self)@, final(self)@),
            final(self)@.vfs.paths == old(self)@.vfs.paths,
            r matches Some(s) ==> s.id < final(self)@.db.sources.len(),
    {
        let ghost before = self@;
        let text = match self.vfs.read(file, disk) {
            Some(t) => t,
            None => {
                return None;
            },
        };
        let known = match self.ws.file_srcs.get(file) {
            Some(s) => Some(*s),
            None => None,
        };
        match known {
            Some(s) => {
                assert(before.ws.file_srcs.contains_key(file.raw));
                assert(before.ws.file_srcs[file.raw] == s);
                if same_text(s.text(&self.db), &text) {
                    assert(before.db.sources.update(s.id as int, analysis_of(text@))
                        =~= before.db.sources);
                } else {
                    s.set_text(&mut self.db, &text);
                }
                proof {
                    self.lemma_whole(before);
                }
                Some(s)
            },
            None => {
                let s = SourceText::new(&mut self.db, &text);
                let count: usize = self.db.sources.len();
                self.ws.file_srcs.insert(file, s);
                proof {
                    assert(count == self@.db.sources.len());
                    self.lemma_whole(before);
                }
                Some(s)
            },
        }
    }

    /// After texts were added or replaced the host is whole.
    proof fn lemma_whole(&self, before: HostView)
        requires
            before.ok(),
            self.index_ok(),
            self@.index == before.index,
            db_ok(self@.db),
            self@.vfs.ok(),
            self@.vfs.paths == before.vfs.paths,
            self@.db.deps == before.db.deps,
            self@.db.sources.len() <= usize::MAX,
            before.db.sources.len() <= self@.db.sources.len(),
            forall|i: int|
                #![trigger self@.db.sources[i]]
                0 <= i < self@.db.sources.len() ==> (0 <= i < before.db.sources.len()
                    && self@.db.sources[i] == before.db.sources[i]) || self@.db.sources[i]
                    == analysis_of(self@.db.sources[i].text),
            self@.ws.stdlib == before.ws.stdlib,
            self@.ws.file_deps == before.ws.file_deps,
            forall|f: usize|
                #![trigger self@.ws.file_srcs[f]]
                self@.ws.file_srcs.contains_key(f) ==> self@.ws.file_srcs[f].id
                    < self@.db.sources.len(),
        ensures
            self.ok(),
    {
        let g = self@;
        assert forall|i: int, k: int|
            #![trigger g.db.deps[i][k]]
            0 <= i < g.db.deps.len() && 0 <= k < g.db.deps[i].len() implies (
        g.db.deps[i][k].target matches Some(x) ==> x.0.raw < g.vfs.paths.len()) by {
            assert(before.db.deps[i][k].target == g.db.deps[i][k].target);
        }
        assert forall|i: int| #![trigger g.db.sources[i]] 0 <= i < g.db.sources.len() implies
            g.db.sources[i] == analysis_of(g.db.sources[i].text) by {
            if 0 <= i < before.db.sources.len() && g.db.sources[i] == before.db.sources[i] {
                assert(before.db.sources[i] == analysis_of(before.db.sources[i].text));
            }
        }
    }

    fn publish_file_deps(&mut self, file: FileId, deps: Vec<ResolvedDep>)
        requires
            old(self).ok(),
            deps_ok(old(self)@.db, deps_view(deps@)),
            forall|k: int|
                #![trigger deps_view(deps@)[k]]
                0 <= k < deps@.len() ==> (deps_view(deps@)[k].target matches Some(x) ==> x.0.raw
                    < old(self)@.vfs.paths.len()),
        ensures
            final(self)@ == published(old(self)@, file, deps_view(deps@)),
            final(self).ok(),
            grown(old(self)@, final(self)@),
            final(self)@.vfs == old(self)@.vfs,
            final(self)@.ws.file_deps.contains_key(file.raw),
    {
        let ghost before = self@;
        let ghost list = deps_view(deps@);
        let known = match self.ws.file_deps.get(file) {
            Some(fd) => Some(*fd),
            None => None,
        };
        match known {
            Some(fd) => {
                assert(before.ws.file_deps.contains_key(file.raw));
                assert(before.ws.file_deps[file.raw] == fd);
                fd.set_deps(&mut self.db, deps);
            },
            None => {
                let fd = FileDeps::new(&mut self.db, deps);
                let count: usize = self.db.deps.len();
                self.ws.file_deps.insert(file, fd);
                assert(count == self@.db.deps.len());
            },
        }
        proof {
            let g = self@;
            assert forall|i: int, k: int|
                #![trigger g.db.deps[i][k]]
                0 <= i < g.db.deps.len() && 0 <= k < g.db.deps[i].len() implies (
            g.db.deps[i][k].target matches Some(x) ==> x.0.raw < g.vfs.paths.len()) by {
                if 0 <= i < before.db.deps.len() && g.db.deps[i] == before.db.deps[i] {
                    assert(before.db.deps[i][k].target == g.db.deps[i][k].target);
                } else {
                    assert(list[k].target == g.db.deps[i][k].target);
                }
            }
        }
    }

    /// The imports of a file in the database; none where it was never indexed.
    pub fn file_deps(&mut self, file: FileId) -> (r: FileDeps)
        requires
            old(self).ok(),
        ensures
            final(self)@ == with_deps(old(self)@, file),
            final(self).ok(),
            grown(old(self)@, final(self)@),
            final(self)@.vfs == old(self)@.vfs,
            final(self)@.ws.file_deps.contains_key(file.raw),
            r == final(self)@.ws.file_deps[file.raw],
            r.id < final(self)@.db.deps.len(),
    {
        if let Some(fd) = self.ws.file_deps.get(file) {
            let fd = *fd;
            assert(self@.ws.file_deps[file.raw] == fd);
            return fd;
        }
        let none: Vec<ResolvedDep> = Vec::new();
        assert(deps_view(none@) =~= Seq::<DepView>::empty());
        self.publish_file_deps(file, none);
        let r = match self.ws.file_deps.get(file) {
            Some(fd) => *fd,
            None => FileDeps { id: 0 },
        };
        assert(self@.ws.file_deps[file.raw] == r);
        r
    }

    fn find_import(&mut self, from_dir: &str, raw: &str, disk: &Disk) -> (r: (
        Option<(FileId, SourceText)>,
        Option<FileId>,
    ))
        requires
            old(self).ok(),
            disk_ok(disk@),
        ensures
            (final(self)@, r.0, r.1) == import_found(old(self)@, from_dir@, raw@, disk@),
            final(self).ok(),
            grown(old(self)@, final(self)@),
            paths_from(old(self)@, final(self)@, disk@),
            target_ok(final(self)@.db, r.0),
            r.0 matches Some(x) ==> x.0.raw < final(self)@.vfs.paths.len(),
    {
        let ghost before = self@;
        let places = source_candidates(from_dir, &self.import_search_path, raw);
        let ghost all = candidates(from_dir@, before.search, raw@);
        assert(texts(places@) == all);
        let ghost there = all.map_values(|p: Seq<char>| disk@.contains_key(p));
        let mut present: Vec<bool> = Vec::new();
        let mut i: usize = 0;
        while i < places.len()
            invariant
                i <= places@.len(),
                texts(places@) == all,
                there == all.map_values(|p: Seq<char>| disk@.contains_key(p)),
                present@ == there.take(i as int),
            decreases places@.len() - i,
        {
            assert(all[i as int] == places@[i as int]@);
            assert(there[i as int] == disk@.contains_key(all[i as int]));
            present.push(disk.has_file(&places[i]));
            assert(present@ =~= there.take(i + 1));
            i = i + 1;
        }
        assert(texts(places@).len() == places@.len());
        assert(present@ =~= there);
        let path = match find_source_pathname(from_dir, &self.import_search_path, raw, &present) {
            Some(p) => p,
            None => {
                return (None, None);
            },
        };
        let ghost at = first_true(there, 0)->0;
        proof {
            crate::source_path::lemma_first_true(there, 0);
            assert(there[at] == disk@.contains_key(all[at]));
        }
        let f = self.vfs.file_id(&path);
        let ghost mid = self@;
        proof {
            assert(mid == (HostView { vfs: before.vfs.interned(path@), ..before }));
            assert forall|i: int, k: int|
                #![trigger mid.db.deps[i][k]]
                0 <= i < mid.db.deps.len() && 0 <= k < mid.db.deps[i].len() implies (
            mid.db.deps[i][k].target matches Some(x) ==> x.0.raw < mid.vfs.paths.len()) by {
                assert(before.db.deps[i][k].target == mid.db.deps[i][k].target);
            }
            assert forall|i: int|
                #![trigger mid.vfs.paths[i]]
                0 <= i < mid.vfs.paths.len() implies before.vfs.paths.contains(mid.vfs.paths[i])
                || disk@.contains_key(mid.vfs.paths[i]) by {
                if i < before.vfs.paths.len() {
                    assert(mid.vfs.paths[i] == before.vfs.paths[i]);
                }
            }
        }
        match self.source_for(f, disk) {
            Some(s) => (Some((f, s)), Some(f)),
            None => (None, Some(f)),
        }
    }

    fn find_imports(&mut self, from_dir: &str, raws: &Vec<RawDep>, disk: &Disk) -> (r: (
        Vec<ResolvedDep>,
        IdSet,
    ))
        requires
            old(self).ok(),
            disk_ok(disk@),
        ensures
            (final(self)@, deps_view(r.0@), r.1@) == imports_found(
                old(self)@,
                from_dir@,
                raw_deps_view(raws@),
                0,
                disk@,
            ),
            final(self).ok(),
            grown(old(self)@, final(self)@),
            paths_from(old(self)@, final(self)@, disk@),
            deps_ok(final(self)@.db, deps_view(r.0@)),
            forall|k: int|
                #![trigger deps_view(r.0@)[k]]
                0 <= k < r.0@.len() ==> (deps_view(r.0@)[k].target matches Some(x) ==> x.0.raw
                    < final(self)@.vfs.paths.len()),
    {
        let ghost before = self@;
        let ghost list = raw_deps_view(raws@);
        let ghost whole = imports_found(before, from_dir@, list, 0, disk@);
        let mut out: Vec<ResolvedDep> = Vec::new();
        let mut places = IdSet::new();
        let mut k: usize = 0;
        assert(places@.union(whole.2) =~= whole.2);
        assert(deps_view(out@) + whole.1 =~= whole.1);
        while k < raws.len()
            invariant
                k <= raws@.len(),
                self.ok(),
                disk_ok(disk@),
                list == raw_deps_view(raws@),
                grown(before, self@),
                paths_from(before, self@, disk@),
                deps_ok(self@.db, deps_view(out@)),
                forall|k: int|
                    #![trigger deps_view(out@)[k]]
                    0 <= k < out@.len() ==> (deps_view(out@)[k].target matches Some(x) ==> x.0.raw
                        < self@.vfs.paths.len()),
                imports_found(self@, from_dir@, list, k as int, disk@).0 == whole.0,
                deps_view(out@) + imports_found(self@, from_dir@, list, k as int, disk@).1
                    == whole.1,
                places@.union(imports_found(self@, from_dir@, list, k as int, disk@).2) == whole.2,
            decreases raws@.len() - k,
        {
            let ghost mid = self@;
            let ghost done = deps_view(out@);
            let dep = &raws[k];
            assert(list[k as int] == dep@);
            let (target, place) = self.find_import(from_dir, &dep.raw, disk);
            let ghost rest = imports_found(self@, from_dir@, list, k + 1, disk@).1;
            let ghost others = imports_found(self@, from_dir@, list, k + 1, disk@).2;
            let ghost known = places@;
            if let Some(f) = place {
                places.insert(f);
                assert(known.union(others.insert(f.raw)) =~= known.insert(f.raw).union(others));
            }
            let d = ResolvedDep { raw: dep.raw.clone(), is_include: dep.is_include, target };
            let ghost own = d@;
            out.push(d);
            proof {
                assert(deps_view(out@) =~= done.push(own));
                assert(done + (seq![own] + rest) =~= done.push(own) + rest);
                assert forall|j: int|
                    #![trigger deps_view(out@)[j]]
                    0 <= j < out@.len() implies target_ok(self@.db, deps_view(out@)[j].target) && (
                deps_view(out@)[j].target matches Some(x) ==> x.0.raw < self@.vfs.paths.len()) by {
                    if j < done.len() {
                        assert(deps_view(out@)[j] == done[j]);
                        assert(target_ok(mid.db, done[j].target));
                    }
                }
                assert forall|i: int|
                    #![trigger self@.vfs.paths[i]]
                    0 <= i < self@.vfs.paths.len() implies before.vfs.paths.contains(
                    self@.vfs.paths[i],
                ) || disk@.contains_key(self@.vfs.paths[i]) by {
                    if mid.vfs.paths.contains(self@.vfs.paths[i]) {
                        let j = choose|j: int|
                            0 <= j < mid.vfs.paths.len() && mid.vfs.paths[j] == self@.vfs.paths[i];
                        assert(before.vfs.paths.contains(mid.vfs.paths[j]) || disk@.contains_key(
                            mid.vfs.paths[j],
                        ));
                    }
                }
                assert(grown(before, self@)) by {
                    assert forall|i: int|
                        #![trigger self@.vfs.paths[i]]
                        0 <= i < before.vfs.paths.len() implies self@.vfs.paths[i]
                        == before.vfs.paths[i] by {
                        assert(mid.vfs.paths[i] == before.vfs.paths[i]);
                    }
                    assert forall|f: usize|
                        #![trigger self@.vfs.contents.contains_key(f)]
                        before.vfs.contents.contains_key(
                            f,
                        ) implies self@.vfs.contents.contains_key(f) by {
                        assert(mid.vfs.contents.contains_key(f));
                    }
                }
            }
            k = k + 1;
        }
        assert(deps_view(out@) + Seq::<DepView>::empty() =~= deps_view(out@));
        assert(places@.union(Set::empty()) =~= places@);
        (out, places)
    }
}

fn spliced_targets(deps: &Vec<ResolvedDep>) -> (r: Vec<FileId>)
    ensures
        r@ == spliced_files(deps_view(deps@), 0),
{
    let ghost list = deps_view(deps@);
    let ghost whole = spliced_files(list, 0);
    let mut out: Vec<FileId> = Vec::new();
    let mut k: usize = 0;
    assert(out@ + whole =~= whole);
    while k < deps.len()
        invariant
            k <= deps@.len(),
            list == deps_view(deps@),
            out@ + spliced_files(list, k as int) == whole,
        decreases deps@.len() - k,
    {
        assert(list[k as int] == deps@[k as int]@);
        let ghost rest = spliced_files(list, k + 1);
        let ghost before = out@;
        if deps[k].is_include {
            if let Some((f, _)) = deps[k].target {
                out.push(f);
                assert(before + (seq![f] + rest) =~= before.push(f) + rest);
            }
        }
        k = k + 1;
    }
    assert(out@ + Seq::<FileId>::empty() =~= out@);
    out
}

/// A set of numbers below `n` has at most `n` members.
proof fn lemma_small_set(s: Set<usize>, n: int)
    requires
        0 <= n,
        s.finite(),
        forall|x: usize| #![trigger s.contains(x)] s.contains(x) ==> x < n,
    ensures
        s.len() <= n,
    decreases n,
{
    if n == 0 {
        assert(s =~= Set::<usize>::empty());
    } else {
        let x = (n - 1) as usize;
        if n - 1 <= usize::MAX {
            let t = s.remove(x);
            lemma_small_set(t, n - 1);
        } else {
            lemma_small_set(s, n - 1);
        }
    }
}

/// There are no more paths than members in a set that holds them all.
proof fn lemma_path_count(paths: Seq<Seq<char>>, all: Set<Seq<char>>)
    requires
        paths.no_duplicates(),
        all.finite(),
        forall|i: int| #![trigger paths[i]] 0 <= i < paths.len() ==> all.contains(paths[i]),
    ensures
        paths.len() <= all.len(),
{
    paths.unique_seq_to_set();
    assert(paths.to_set().subset_of(all));
    vstd::set_lib::lemma_len_subset(paths.to_set(), all);
}

impl AnalysisHost {
    /// Indexes a file: its symbols, and the files that its imports lead to,
    /// whether or not those can be read. A file that cannot be read itself leaves
    /// the index.
    pub fn index_file(&mut self, file: FileId, disk: &Disk)
        requires
            old(self).ok(),
            disk_ok(disk@),
            file.raw < old(self)@.vfs.paths.len(),
        ensures
            final(self)@ == indexed(old(self)@, file, disk@),
            final(self).ok(),
            grown(old(self)@, final(self)@),
            paths_from(old(self)@, final(self)@, disk@),
    {
        let ghost before = self@;
        let src = match self.source_for(file, disk) {
            Some(s) => s,
            None => {
                self.index.remove(file);
                return;
            },
        };
        let ghost read = self@;
        let symbols = file_symbols(&self.db, src);
        let raws = raw_imports(&self.db, src);
        let (resolved, places) = match parent_dir(self.vfs.path(file)) {
            Some(dir) => self.find_imports(&dir, &raws, disk),
            None => {
                let none: Vec<ResolvedDep> = Vec::new();
                assert(deps_view(none@) =~= Seq::<DepView>::empty());
                (none, IdSet::new())
            },
        };
        let ghost found = self@;
        proof {
            assert(grown(before, found)) by {
                assert forall|i: int|
                    #![trigger found.vfs.paths[i]]
                    0 <= i < before.vfs.paths.len() implies found.vfs.paths[i]
                    == before.vfs.paths[i] by {
                    assert(read.vfs.paths[i] == before.vfs.paths[i]);
                }
                assert forall|f: usize|
                    #![trigger found.vfs.contents.contains_key(f)]
                    before.vfs.contents.contains_key(f) implies found.vfs.contents.contains_key(
                    f,
                ) by {
                    assert(read.vfs.contents.contains_key(f));
                }
            }
        }
        proof {
            lemma_named_in_order(read.db.sources[src.id as int].syms, 0);
        }
        self.publish_file_deps(file, resolved);
        self.index.set_file(file, symbols, places);
    }

    fn index_once(&mut self, file: FileId, disk: &Disk)
        requires
            old(self).ok(),
            disk_ok(disk@),
            file.raw < old(self)@.vfs.paths.len(),
        ensures
            final(self)@ == indexed_once(old(self)@, file, disk@),
            final(self).ok(),
            grown(old(self)@, final(self)@),
            paths_from(old(self)@, final(self)@, disk@),
    {
        if self.ws.file_deps.get(file).is_none() {
            self.index_file(file, disk);
        }
    }

    fn spliced_by(&self, file: FileId) -> (r: Vec<FileId>)
        requires
            self.ok(),
        ensures
            r@ == spliced_by(self@, file),
            forall|j: int|
                #![trigger r@[j]]
                0 <= j < r@.len() ==> r@[j].raw < self@.vfs.paths.len(),
    {
        match self.ws.file_deps.get(file) {
            Some(fd) => {
                let fd = *fd;
                assert(self@.ws.file_deps[file.raw] == fd);
                proof {
                    lemma_spliced_by_known(self@, file);
                }
                spliced_targets(resolved_deps(&self.db, fd))
            },
            None => Vec::new(),
        }
    }

    /// Indexes a file and all that it splices in, directly or not, where they
    /// were not indexed before. A cycle of files that splice each other in is
    /// followed once.
    pub fn ensure_indexed(&mut self, file: FileId, disk: &Disk)
        requires
            old(self).ok(),
            disk_ok(disk@),
            file.raw < old(self)@.vfs.paths.len(),
        ensures
            final(self)@ == ensured(old(self)@, file, disk@),
            final(self).ok(),
            grown(old(self)@, final(self)@),
            undisturbed(old(self)@, final(self)@, disk@),
            exists|all: Set<usize>|
                all.contains(file.raw) && #[trigger] closed_under_splicing(
                    final(self)@,
                    all,
                    disk@,
                ),
    {
        let ghost before = self@;
        let ghost all = before.vfs.paths.to_set().union(disk@.dom());
        proof {
            disk.lemma_finite();
            before.vfs.paths.unique_seq_to_set();
            assert forall|i: int|
                #![trigger before.vfs.paths[i]]
                0 <= i < before.vfs.paths.len() implies all.contains(before.vfs.paths[i]) by {
                assert(before.vfs.paths.to_set().contains(before.vfs.paths[i]));
            }
        }
        let mut stack: Vec<FileId> = Vec::new();
        stack.push(file);
        let mut seen = IdSet::new();
        let ghost start = seq![file];
        let ghost mut steps: nat = 0;
        assert(stack@ =~= start);
        while stack.len() > 0
            invariant
                self.ok(),
                disk_ok(disk@),
                start == seq![file],
                grown(before, self@),
                all.finite(),
                all == before.vfs.paths.to_set().union(disk@.dom()),
                forall|i: int|
                    #![trigger self@.vfs.paths[i]]
                    0 <= i < self@.vfs.paths.len() ==> all.contains(self@.vfs.paths[i]),
                forall|j: int|
                    #![trigger stack@[j]]
                    0 <= j < stack@.len() ==> stack@[j].raw < self@.vfs.paths.len(),
                seen@.finite(),
                forall|x: usize|
                    #![trigger seen@.contains(x)]
                    seen@.contains(x) ==> x < self@.vfs.paths.len(),
                forall|n: nat|
                    #![trigger walked(self@, stack@, seen@, disk@, n)]
                    walked(before, start, Set::empty(), disk@, n + steps) == walked(
                        self@,
                        stack@,
                        seen@,
                        disk@,
                        n,
                    ),
            decreases all.len() - seen@.len(), stack@.len(),
        {
            let ghost h = self@;
            let ghost pile = stack@;
            let ghost had = seen@;
            assert(pile[pile.len() - 1] == pile.last());
            if let Some(f) = stack.pop() {
                if seen.contains(f) {
                    proof {
                        assert(stack@ =~= pile.drop_last());
                        assert forall|n: nat|
                            #![trigger walked(self@, stack@, seen@, disk@, n)]
                            walked(before, start, Set::empty(), disk@, n + (steps + 1)) == walked(
                                self@,
                                stack@,
                                seen@,
                                disk@,
                                n,
                            ) by {
                            let m = (n + 1) as nat;
                            assert(walked(h, pile, had, disk@, m) == walked(
                                before,
                                start,
                                Set::empty(),
                                disk@,
                                m + steps,
                            ));
                        }
                        steps = steps + 1;
                    }
                } else {
                    seen.insert(f);
                    self.index_once(f, disk);
                    let targets = self.spliced_by(f);
                    let ghost g = self@;
                    let ghost more = targets@;
                    let ghost left = stack@;
                    let mut k: usize = 0;
                    assert(left + more.take(0) =~= left);
                    while k < targets.len()
                        invariant
                            k <= targets@.len(),
                            more == targets@,
                            stack@ == left + more.take(k as int),
                        decreases targets@.len() - k,
                    {
                        stack.push(targets[k]);
                        assert(stack@ =~= left + more.take(k + 1));
                        k = k + 1;
                    }
                    proof {
                        assert(more.take(k as int) =~= more);
                        assert(stack@ =~= pile.drop_last() + spliced_by(g, f));
                        assert forall|n: nat|
                            #![trigger walked(self@, stack@, seen@, disk@, n)]
                            walked(before, start, Set::empty(), disk@, n + (steps + 1)) == walked(
                                self@,
                                stack@,
                                seen@,
                                disk@,
                                n,
                            ) by {
                            let m = (n + 1) as nat;
                            assert(walked(h, pile, had, disk@, m) == walked(
                                before,
                                start,
                                Set::empty(),
                                disk@,
                                m + steps,
                            ));
                        }
                        steps = steps + 1;
                        assert forall|i: int|
                            #![trigger g.vfs.paths[i]]
                            0 <= i < g.vfs.paths.len() implies all.contains(g.vfs.paths[i]) by {
                            if h.vfs.paths.contains(g.vfs.paths[i]) {
                                let j = choose|j: int|
                                    0 <= j < h.vfs.paths.len() && h.vfs.paths[j]
                                        == g.vfs.paths[i];
                                assert(all.contains(h.vfs.paths[j]));
                            }
                        }
                        assert(grown(before, g)) by {
                            assert forall|i: int|
                                #![trigger g.vfs.paths[i]]
                                0 <= i < before.vfs.paths.len() implies g.vfs.paths[i]
                                == before.vfs.paths[i] by {
                                assert(h.vfs.paths[i] == before.vfs.paths[i]);
                            }
                            assert forall|x: usize|
                                #![trigger g.vfs.contents.contains_key(x)]
                                before.vfs.contents.contains_key(
                                    x,
                                ) implies g.vfs.contents.contains_key(x) by {
                                assert(h.vfs.contents.contains_key(x));
                            }
                        }
                        lemma_path_count(g.vfs.paths, all);
                        lemma_small_set(seen@, g.vfs.paths.len() as int);
                    }
                }
            }
        }
        proof {
            assert(walked(self@, stack@, seen@, disk@, 0) == Some(self@));
            assert(walked(before, start, Set::empty(), disk@, 0 + steps) == Some(self@));
            lemma_ensured(before, file, disk@, steps);
            law_spliced_files_are_indexed(before, file, disk@, steps);
        }
    }
}

// ---------------------------------------------------------------------------
// Requests
// ---------------------------------------------------------------------------

/// What a request gives back: the answer in the surroundings of the file, or
/// `otherwise` where the file cannot be read.
pub open spec fn answered<A>(
    opened: (HostView, Option<CtxView>),
    answer: spec_fn(CtxView) -> A,
    otherwise: A,
) -> (HostView, A) {
    match opened.1 {
        Some(c) => (opened.0, answer(c)),
        None => (opened.0, otherwise),
    }
}

/// The host after the standard library was registered.
pub open spec fn with_stdlib(h: HostView, path: Seq<char>, disk: DiskView) -> HostView {
    let f = FileId { raw: h.vfs.id_of(path) as usize };
    let r = sourced(
        HostView { vfs: h.vfs.interned(path), stdlib: Some(f), ..h },
        f,
        disk,
    );
    HostView {
        ws: WsView {
            stdlib: match r.1 {
                Some(s) => Some((f, s)),
                None => None,
            },
            ..r.0.ws
        },
        ..r.0
    }
}

/// The host after a file was forgotten.
pub open spec fn forgotten(h: HostView, file: FileId) -> HostView {
    HostView {
        ws: WsView {
            file_srcs: h.ws.file_srcs.remove(file.raw),
            file_deps: h.ws.file_deps.remove(file.raw),
            ..h.ws
        },
        ..h
    }
}

/// The symbol of an item, with the host after its file was read.
pub open spec fn symbol_at(h: HostView, file: FileId, index: u32, disk: DiskView) -> (
    HostView,
    Option<SymbolView>,
) {
    let r = sourced(h, file, disk);
    (
        r.0,
        match r.1 {
            Some(s) => {
                let syms = r.0.db.sources[s.id as int].syms;
                if index < syms.len() {
                    Some(syms[index as int])
                } else {
                    None
                }
            },
            None => None,
        },
    )
}

/// The name of a definition.
pub open spec fn name_of_def(h: HostView, def: DefView, disk: DiskView) -> (
    HostView,
    Option<Seq<char>>,
) {
    match def {
        DefView::Item { file, index } => {
            let r = symbol_at(h, file, index, disk);
            (
                r.0,
                match r.1 {
                    Some(sym) => Some(sym.name),
                    None => None,
                },
            )
        },
        DefView::Local { name, .. } => (h, Some(name)),
    }
}

/// Where a definition stands: its file, the range of its name and its whole
/// range.
pub open spec fn place_of_def(h: HostView, def: DefView, disk: DiskView) -> (
    HostView,
    Option<(FileId, TextRange, TextRange)>,
) {
    match def {
        DefView::Item { file, index } => {
            let r = symbol_at(h, file, index, disk);
            (
                r.0,
                match r.1 {
                    Some(sym) => Some((file, sym.name_range, sym.full_range)),
                    None => None,
                },
            )
        },
        DefView::Local { file, name_range, .. } => (h, Some((file, name_range, name_range))),
    }
}

/// The data type whose methods a definition has, where it is a ledger field.
pub open spec fn adt_of_def(h: HostView, def: DefView, disk: DiskView) -> (
    HostView,
    Option<Seq<char>>,
) {
    match def {
        DefView::Item { file, index } => {
            let r = symbol_at(h, file, index, disk);
            (
                r.0,
                match r.1 {
                    Some(sym) => if sym.kind == SymbolKind::Ledger {
                        field_adt(
                            r.0.db.sources[r.0.ws.file_srcs[file.raw].id as int].tree,
                            sym.name_range,
                        )
                    } else {
                        None
                    },
                    None => None,
                },
            )
        },
        DefView::Local { .. } => (h, None),
    }
}

/// The host after the first `n` of `paths` were indexed in order.
pub open spec fn all_indexed(h: HostView, paths: Seq<Seq<char>>, n: int, disk: DiskView) -> HostView
    decreases n,
{
    if 0 < n <= paths.len() {
        let g = all_indexed(h, paths, n - 1, disk);
        indexed(
            HostView { vfs: g.vfs.interned(paths[n - 1]), ..g },
            FileId { raw: g.vfs.id_of(paths[n - 1]) as usize },
            disk,
        )
    } else {
        h
    }
}

/// The candidates of the imports from position `k` on, one after the other.
pub open spec fn places_from(
    dir: Seq<char>,
    search: Seq<Seq<char>>,
    raws: Seq<RawDepView>,
    k: int,
) -> Seq<Seq<char>>
    decreases raws.len() - k,
{
    if 0 <= k < raws.len() {
        candidates(dir, search, raws[k].raw) + places_from(dir, search, raws, k + 1)
    } else {
        Seq::empty()
    }
}

/// All places at which the imports of a file with this path and text are
/// looked for.
pub open spec fn places_of(search: Seq<Seq<char>>, path: Seq<char>, text: Seq<char>) -> Seq<
    Seq<char>,
> {
    match parent_of(path) {
        Some(dir) => places_from(
            dir,
            search,
            targets_of(analysis_of(text).tree, analysis_of(text).syms),
            0,
        ),
        None => Seq::empty(),
    }
}

impl AnalysisHost {
    /// Registers the standard library.
    pub fn register_stdlib(&mut self, path: &str, disk: &Disk) -> (r: FileId)
        requires
            old(self).ok(),
            disk_ok(disk@),
        ensures
            r.raw == old(self)@.vfs.id_of(path@),
            final(self)@ == with_stdlib(old(self)@, path@, disk@),
            final(self).ok(),
            final(self)@.stdlib == Some(r),
    {
        let ghost before = self@;
        let file = self.vfs.file_id(path);
        self.stdlib = Some(file);
        let ghost mid = self@;
        proof {
            assert forall|i: int, k: int|
                #![trigger mid.db.deps[i][k]]
                0 <= i < mid.db.deps.len() && 0 <= k < mid.db.deps[i].len() implies (
            mid.db.deps[i][k].target matches Some(x) ==> x.0.raw < mid.vfs.paths.len()) by {
                assert(before.db.deps[i][k].target == mid.db.deps[i][k].target);
            }
        }
        let src = self.source_for(file, disk);
        self.ws.stdlib = match src {
            Some(s) => Some((file, s)),
            None => None,
        };
        file
    }

    /// What is known of a file; `None` where it cannot be read.
    pub fn analyze(&mut self, file: FileId, disk: &Disk) -> (r: Option<&FileAnalysis>)
        requires
            old(self).ok(),
            disk_ok(disk@),
            old(self)@.vfs.knows(file),
        ensures
            final(self)@ == sourced(old(self)@, file, disk@).0,
            final(self).ok(),
            match old(self)@.vfs.text_of(file, disk@) {
                Some(text) => r matches Some(a) && a@ == analysis_of(text),
                None => r is None,
            },
    {
        match self.source_for(file, disk) {
            Some(s) => Some(parsed(&self.db, s)),
            None => None,
        }
    }

    /// Indexes the file at a path.
    pub fn index_path(&mut self, path: &str, disk: &Disk) -> (r: FileId)
        requires
            old(self).ok(),
            disk_ok(disk@),
        ensures
            r.raw == old(self)@.vfs.id_of(path@),
            final(self)@ == indexed(
                HostView { vfs: old(self)@.vfs.interned(path@), ..old(self)@ },
                r,
                disk@,
            ),
            final(self).ok(),
    {
        let ghost before = self@;
        let file = self.vfs.file_id(path);
        let ghost mid = self@;
        proof {
            assert forall|i: int, k: int|
                #![trigger mid.db.deps[i][k]]
                0 <= i < mid.db.deps.len() && 0 <= k < mid.db.deps[i].len() implies (
            mid.db.deps[i][k].target matches Some(x) ==> x.0.raw < mid.vfs.paths.len()) by {
                assert(before.db.deps[i][k].target == mid.db.deps[i][k].target);
            }
        }
        self.index_file(file, disk);
        file
    }

    /// One step of a crawl: indexes the file at `path` where the answer to the
    /// question whether to go on is yes, and hands the answer back. After a no
    /// nothing has changed and the crawl is over.
    pub fn crawl_step(&mut self, path: &str, go: bool, disk: &Disk) -> (r: bool)
        requires
            old(self).ok(),
            disk_ok(disk@),
        ensures
            final(self).ok(),
            r == go,
            final(self)@ == (if go {
                all_indexed(old(self)@, seq![path@], 1, disk@)
            } else {
                old(self)@
            }),
    {
        if go {
            let _file = self.index_path(path, disk);
            assert(all_indexed(old(self)@, seq![path@], 0, disk@) == old(self)@);
        }
        go
    }

    /// Indexes the files at `paths` in order. Asks before each of them whether
    /// to go on, and stops where the answer is no.
    pub fn discover_and_index<F: Fn() -> bool>(
        &mut self,
        paths: &Vec<String>,
        should_continue: F,
        disk: &Disk,
    )
        requires
            old(self).ok(),
            disk_ok(disk@),
            should_continue.requires(()),
        ensures
            final(self).ok(),
            exists|n: int|
                0 <= n <= paths@.len() && final(self)@ == #[trigger] all_indexed(
                    old(self)@,
                    texts(paths@),
                    n,
                    disk@,
                ) && (n > 0 ==> should_continue.ensures((), true)) && (n < paths@.len()
                    ==> should_continue.ensures((), false)),
    {
        let ghost before = self@;
        let ghost list = texts(paths@);
        let mut i: usize = 0;
        while i < paths.len()
            invariant
                i <= paths@.len(),
                list == texts(paths@),
                self.ok(),
                disk_ok(disk@),
                should_continue.requires(()),
                before == old(self)@,
                self@ == all_indexed(before, list, i as int, disk@),
                i > 0 ==> should_continue.ensures((), true),
            decreases paths@.len() - i,
        {
            assert(list[i as int] == paths@[i as int]@);
            let ghost now = self@;
            let go: bool = should_continue();
            if !self.crawl_step(&paths[i], go, disk) {
                return;
            }
            proof {
                let one = seq![list[i as int]];
                assert(all_indexed(now, one, 0, disk@) == now);
                assert(all_indexed(now, one, 1, disk@) == all_indexed(before, list, i + 1, disk@));
            }
            i = i + 1;
        }
    }

    /// All places at which the imports of a file with this path and text are
    /// looked for.
    pub fn import_places(&self, path: &str, text: &str) -> (r: Vec<String>)
        requires
            encode_utf8(text@).len() <= u32::MAX,
        ensures
            texts(r@) == places_of(self@.search, path@, text@),
    {
        let mut out: Vec<String> = Vec::new();
        assert(texts(out@) =~= Seq::<Seq<char>>::empty());
        let dir = match parent_dir(path) {
            Some(d) => d,
            None => {
                return out;
            },
        };
        let mut db = CompactDatabase::new();
        let src = SourceText::new(&mut db, text);
        assert(db@.sources[0] == analysis_of(text@));
        let raws = raw_imports(&db, src);
        let ghost list = raw_deps_view(raws@);
        let ghost whole = places_from(dir@, self@.search, list, 0);
        let mut k: usize = 0;
        assert(texts(out@) + whole =~= whole);
        while k < raws.len()
            invariant
                k <= raws@.len(),
                list == raw_deps_view(raws@),
                texts(out@) + places_from(dir@, self@.search, list, k as int) == whole,
            decreases raws@.len() - k,
        {
            assert(list[k as int] == raws@[k as int]@);
            let ghost rest = places_from(dir@, self@.search, list, k + 1);
            let ghost before = texts(out@);
            let mut more = source_candidates(&dir, &self.import_search_path, &raws[k].raw);
            let ghost own = texts(more@);
            assert(before + (own + rest) =~= before + own + rest);
            let ghost was = out@;
            out.append(&mut more);
            assert(texts(out@) =~= before + own);
            k = k + 1;
        }
        assert(texts(out@) + Seq::<Seq<char>>::empty() =~= texts(out@));
        out
    }

    /// Takes a file out of the index and forgets it.
    pub fn remove_workspace_file(&mut self, file: FileId)
        requires
            old(self).ok(),
        ensures
            final(self)@ == (HostView {
                index: old(self)@.index.without_file(file.raw),
                ..forgotten(old(self)@, file)
            }),
            final(self).ok(),
    {
        self.index.remove(file);
        self.forget_file(file);
    }

    /// Forgets the text and the imports of a file. They are made anew when they
    /// are next asked for.
    pub fn forget_file(&mut self, file: FileId)
        requires
            old(self).ok(),
        ensures
            final(self)@ == forgotten(old(self)@, file),
            final(self).ok(),
    {
        let ghost before = self@;
        let _src = self.ws.file_srcs.remove(file);
        let _fd = self.ws.file_deps.remove(file);
        proof {
            let g = self@;
            assert forall|f: usize|
                #![trigger g.ws.file_srcs[f]]
                g.ws.file_srcs.contains_key(f) implies g.ws.file_srcs[f].id
                < g.db.sources.len() by {
                assert(before.ws.file_srcs[f] == g.ws.file_srcs[f]);
            }
            assert forall|f: usize|
                #![trigger g.ws.file_deps[f]]
                g.ws.file_deps.contains_key(f) implies g.ws.file_deps[f].id < g.db.deps.len() by {
                assert(before.ws.file_deps[f] == g.ws.file_deps[f]);
            }
        }
    }

    /// The indexed files in ascending order.
    pub fn workspace_files(&self) -> (r: Vec<FileId>)
        requires
            self.ok(),
        ensures
            r@ == file_ids(ascending(self@.index.symbols.dom())),
            increasing(ascending(self@.index.symbols.dom())),
            ascending(self@.index.symbols.dom()).to_set() == self@.index.symbols.dom(),
    {
        self.index.files()
    }

    /// The files that import or splice `file`, in ascending order.
    pub fn dependents_of(&self, file: FileId) -> (r: Vec<FileId>)
        requires
            self.ok(),
        ensures
            r@ == file_ids(ascending(self@.index.dependents(file.raw))),
            increasing(ascending(self@.index.dependents(file.raw))),
            ascending(self@.index.dependents(file.raw)).to_set() == self@.index.dependents(
                file.raw,
            ),
    {
        self.index.dependents(file)
    }

    /// The indexed symbols whose name matches a query: the file and the index
    /// among its symbols.
    pub fn workspace_symbols(&self, query: &str) -> (r: Vec<(FileId, u32)>)
        requires
            self.ok(),
        ensures
            r@ == matches_from(self@.index, ascending(self@.index.symbols.dom()), query@, 0),
            hits_ascend(r@),
            indices_fit(self@.index) ==> hits_strictly_ascend(r@),
    {
        proof {
            if indices_fit(self@.index) {
                law_hits_strictly_ascend(self@.index, query@);
            }
        }
        self.index.symbols_matching(query)
    }

    fn open(&mut self, file: FileId, disk: &Disk) -> (r: Option<(SourceText, FileDeps)>)
        requires
            old(self).ok(),
            disk_ok(disk@),
            file.raw < old(self)@.vfs.paths.len(),
        ensures
            final(self)@ == opened(old(self)@, file, disk@).0,
            final(self).ok(),
            match opened(old(self)@, file, disk@).1 {
                Some(c) => (r matches Some(x) && c == final(self)@.ctx(file, x.0, x.1)) && c.ok(),
                None => r is None,
            },
    {
        self.ensure_indexed(file, disk);
        match self.source_for(file, disk) {
            Some(s) => {
                let fd = self.file_deps(file);
                assert(crate::syntax::well_formed(self@.db.sources[s.id as int].tree));
                Some((s, fd))
            },
            None => None,
        }
    }

    fn read_and_open(&mut self, file: FileId, disk: &Disk) -> (r: Option<(SourceText, FileDeps)>)
        requires
            old(self).ok(),
            disk_ok(disk@),
            file.raw < old(self)@.vfs.paths.len(),
        ensures
            final(self)@ == read_and_opened(old(self)@, file, disk@).0,
            final(self).ok(),
            grown(old(self)@, final(self)@),
            match read_and_opened(old(self)@, file, disk@).1 {
                Some(c) => (r matches Some(x) && c == final(self)@.ctx(file, x.0, x.1)) && c.ok(),
                None => r is None,
            },
    {
        let ghost before = self@;
        match self.source_for(file, disk) {
            Some(s) => {
                let ghost read = self@;
                self.ensure_indexed(file, disk);
                let ghost walk = self@;
                let fd = self.file_deps(file);
                assert(crate::syntax::well_formed(self@.db.sources[s.id as int].tree));
                proof {
                    let g = self@;
                    assert forall|i: int|
                        #![trigger g.vfs.paths[i]]
                        0 <= i < before.vfs.paths.len() implies g.vfs.paths[i]
                        == before.vfs.paths[i] by {
                        assert(walk.vfs.paths[i] == read.vfs.paths[i]);
                    }
                    assert forall|x: usize|
                        #![trigger g.vfs.contents.contains_key(x)]
                        before.vfs.contents.contains_key(x) implies g.vfs.contents.contains_key(
                        x,
                    ) by {
                        assert(read.vfs.contents.contains_key(x));
                        assert(walk.vfs.contents.contains_key(x));
                    }
                }
                Some((s, fd))
            },
            None => None,
        }
    }

    /// What the identifier at a position stands for.
    pub fn resolve(&mut self, pos: FilePosition, disk: &Disk) -> (r: Option<Definition>)
        requires
            old(self).ok(),
            disk_ok(disk@),
            pos.file.raw < old(self)@.vfs.paths.len(),
        ensures
            (final(self)@, odef(r)) == answered(
                opened(old(self)@, pos.file, disk@),
                |c: CtxView| resolved(c, pos.offset),
                None,
            ),
            final(self).ok(),
    {
        match self.open(pos.file, disk) {
            Some((src, fd)) => resolve_query(&self.db, pos.file, src, fd, &self.ws, pos.offset),
            None => None,
        }
    }

    /// What `name` would stand for at a position.
    pub fn resolve_name_at(&mut self, pos: FilePosition, name: &str, disk: &Disk) -> (r: Option<
        Definition,
    >)
        requires
            old(self).ok(),
            disk_ok(disk@),
            pos.file.raw < old(self)@.vfs.paths.len(),
        ensures
            (final(self)@, odef(r)) == answered(
                opened(old(self)@, pos.file, disk@),
                |c: CtxView| crate::db::def_at(c, pos.offset, name@),
                None,
            ),
            final(self).ok(),
    {
        match self.open(pos.file, disk) {
            Some((src, fd)) => resolve_name_query(
                &self.db,
                pos.file,
                src,
                fd,
                &self.ws,
                pos.offset,
                name,
            ),
            None => None,
        }
    }

    /// The name of a definition.
    pub fn def_name(&mut self, def: &Definition, disk: &Disk) -> (r: Option<String>)
        requires
            old(self).ok(),
            disk_ok(disk@),
            def@ matches DefView::Item { file, .. } ==> old(self)@.vfs.knows(file),
        ensures
            (final(self)@, otext(r)) == name_of_def(old(self)@, def@, disk@),
            final(self).ok(),
    {
        match def {
            Definition::Item { file, index } => {
                let src = match self.source_for(*file, disk) {
                    Some(s) => s,
                    None => {
                        return None;
                    },
                };
                let tree = item_tree(&self.db, src);
                let i: usize = *index as usize;
                if i < tree.symbols.len() {
                    assert(tree@[i as int] == tree.symbols@[i as int]@);
                    Some(tree.symbols[i].name.clone())
                } else {
                    None
                }
            },
            Definition::Local { name, .. } => Some(name.clone()),
        }
    }

    /// Where a definition stands: its file, the range of its name and its whole
    /// range.
    pub fn nav_info(&mut self, def: &Definition, disk: &Disk) -> (r: Option<
        (FileId, TextRange, TextRange),
    >)
        requires
            old(self).ok(),
            disk_ok(disk@),
            def@ matches DefView::Item { file, .. } ==> old(self)@.vfs.knows(file),
        ensures
            (final(self)@, r) == place_of_def(old(self)@, def@, disk@),
            final(self).ok(),
    {
        match def {
            Definition::Item { file, index } => {
                let src = match self.source_for(*file, disk) {
                    Some(s) => s,
                    None => {
                        return None;
                    },
                };
                let tree = item_tree(&self.db, src);
                let i: usize = *index as usize;
                if i < tree.symbols.len() {
                    assert(tree@[i as int] == tree.symbols@[i as int]@);
                    Some((*file, tree.symbols[i].name_range, tree.symbols[i].full_range))
                } else {
                    None
                }
            },
            Definition::Local { file, name_range, .. } => Some((*file, *name_range, *name_range)),
        }
    }

    /// The data type whose methods a definition has, where it is a ledger
    /// field.
    pub fn ledger_field_adt(&mut self, def: &Definition, disk: &Disk) -> (r: Option<String>)
        requires
            old(self).ok(),
            disk_ok(disk@),
            def@ matches DefView::Item { file, .. } ==> old(self)@.vfs.knows(file),
        ensures
            (final(self)@, otext(r)) == adt_of_def(old(self)@, def@, disk@),
            final(self).ok(),
    {
        match def {
            Definition::Item { file, index } => {
                let src = match self.source_for(*file, disk) {
                    Some(s) => s,
                    None => {
                        return None;
                    },
                };
                assert(self@.ws.file_srcs[file.raw] == src);
                let tree = item_tree(&self.db, src);
                let i: usize = *index as usize;
                if i >= tree.symbols.len() {
                    return None;
                }
                assert(tree@[i as int] == tree.symbols@[i as int]@);
                if tree.symbols[i].kind != SymbolKind::Ledger {
                    return None;
                }
                assert(crate::syntax::well_formed(self@.db.sources[src.id as int].tree));
                find_field_adt(syntax_tree(&self.db, src), tree.symbols[i].name_range)
            },
            Definition::Local { .. } => None,
        }
    }

    /// Complaints about imports and spliced files that were not found, or do
    /// not hold the module that they are imported as.
    pub fn resolution_diagnostics(&mut self, file: FileId, disk: &Disk) -> (r: Vec<Diagnostic>)
        requires
            old(self).ok(),
            disk_ok(disk@),
            file.raw < old(self)@.vfs.paths.len(),
        ensures
            (final(self)@, diags_view(r@)) == answered(
                read_and_opened(old(self)@, file, disk@),
                |c: CtxView|
                    resolution_problems(
                        ImportCtx {
                            db: c.db,
                            t: c.tree(),
                            syms: c.syms(),
                            deps: c.deps(),
                            from_dir: match parent_of(old(self)@.vfs.paths[file.raw as int]) {
                                Some(dir) => dir,
                                None => Seq::empty(),
                            },
                            search: join(old(self)@.search, ", "@),
                        },
                    ),
                Seq::empty(),
            ),
            final(self).ok(),
    {
        let ghost before = self@;
        let (src, fd) = match self.read_and_open(file, disk) {
            Some(x) => x,
            None => {
                let none: Vec<Diagnostic> = Vec::new();
                assert(diags_view(none@) =~= Seq::<DiagView>::empty());
                return none;
            },
        };
        assert(self@.vfs.paths[file.raw as int] == before.vfs.paths[file.raw as int]);
        let from_dir = match parent_dir(self.vfs.path(file)) {
            Some(d) => d,
            None => {
                proof {
                    reveal_strlit("");
                    assert(""@ =~= Seq::<char>::empty());
                }
                "".to_owned()
            },
        };
        let search = join_texts(&self.import_search_path, ", ");
        resolution_diagnostics_query(&self.db, src, fd, &from_dir, &search)
    }

    /// Complaints about literal return statements that do not fit the declared
    /// return type.
    pub fn type_diagnostics(&mut self, file: FileId, disk: &Disk) -> (r: Vec<Diagnostic>)
        requires
            old(self).ok(),
            disk_ok(disk@),
            old(self)@.vfs.knows(file),
        ensures
            final(self)@ == sourced(old(self)@, file, disk@).0,
            final(self).ok(),
            diags_view(r@) == (match old(self)@.vfs.text_of(file, disk@) {
                Some(text) => type_mismatches(analysis_of(text).tree, analysis_of(text).syms, 0),
                None => Seq::empty(),
            }),
    {
        match self.source_for(file, disk) {
            Some(s) => type_diagnostics_query(&self.db, s),
            None => {
                let none: Vec<Diagnostic> = Vec::new();
                assert(diags_view(none@) =~= Seq::<DiagView>::empty());
                none
            },
        }
    }

    /// Complaints about type references with a wrong number of generic
    /// arguments.
    pub fn generic_diagnostics(&mut self, file: FileId, disk: &Disk) -> (r: Vec<Diagnostic>)
        requires
            old(self).ok(),
            disk_ok(disk@),
            file.raw < old(self)@.vfs.paths.len(),
        ensures
            (final(self)@, diags_view(r@)) == answered(
                read_and_opened(old(self)@, file, disk@),
                |c: CtxView| arity_problems(c, 0),
                Seq::empty(),
            ),
            final(self).ok(),
    {
        match self.read_and_open(file, disk) {
            Some((src, fd)) => generic_diagnostics_query(&self.db, file, src, fd, &self.ws),
            None => {
                let none: Vec<Diagnostic> = Vec::new();
                assert(diags_view(none@) =~= Seq::<DiagView>::empty());
                none
            },
        }
    }

    /// Errors about witness values that are disclosed, and warnings about what
    /// could not be decided.
    pub fn disclosure_diagnostics(&mut self, file: FileId, disk: &Disk) -> (r: Vec<Diagnostic>)
        requires
            old(self).ok(),
            disk_ok(disk@),
            file.raw < old(self)@.vfs.paths.len(),
        ensures
            (final(self)@, diags_view(r@)) == answered(
                read_and_opened(old(self)@, file, disk@),
                |c: CtxView| disclosure_problems(c),
                Seq::empty(),
            ),
            final(self).ok(),
    {
        match self.read_and_open(file, disk) {
            Some((src, fd)) => disclosure_diagnostics_query(&self.db, file, src, fd, &self.ws),
            None => {
                let none: Vec<Diagnostic> = Vec::new();
                assert(diags_view(none@) =~= Seq::<DiagView>::empty());
                none
            },
        }
    }

    /// The type of the innermost expression around an offset; `None` where the
    /// file cannot be read.
    pub fn type_at(&mut self, file: FileId, offset: u32, disk: &Disk) -> (r: Option<TyKind>)
        requires
            old(self).ok(),
            disk_ok(disk@),
            file.raw < old(self)@.vfs.paths.len(),
        ensures
            (final(self)@, okind(r)) == answered(
                opened(old(self)@, file, disk@),
                |c: CtxView| Some(type_around(c, offset)),
                None,
            ),
            final(self).ok(),
    {
        match self.open(file, disk) {
            Some((src, fd)) => {
                let c = Ctx { db: &self.db, file, src, fd, ws: &self.ws };
                Some(expr_ty(&c, offset))
            },
            None => None,
        }
    }
}

} // verus!
