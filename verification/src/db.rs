//! The database of parsed files and the name resolution over it.
//!
//! A [`SourceText`] names a file text and its parse, a [`FileDeps`] the
//! resolved imports of a file. Both are handles into a [`CompactDatabase`].

use vstd::prelude::*;
use vstd::string::*;
use vstd::utf8::encode_utf8;

use crate::diagnostics::{DiagView, Diagnostic};
use crate::filemap::FileMap;
use crate::item_tree::{
    clamp_index, index32, symbols_of, ItemTree, Symbol, SymbolKind, SymbolView,
};
use crate::kinds::{
    Class, CALL_EXPR, CIRCUIT_DECL, CIRCUIT_DEF, CONTRACT_CIRCUIT, CONTRACT_DECL, ENUM_DEF,
    ENUM_VARIANT, FOR_STMT, GENERIC_PARAM, IDENT, IDENT_PAT, IMPORT, IMPORT_SPECIFIER, INCLUDE,
    LEDGER_DECL, MEMBER_EXPR, MODULE_DEF, NAME_EXPR, PREFIX_DECL, SOURCE_FILE, STRING_LIT,
    STRUCT_DEF, STRUCT_EXPR, STRUCT_FIELD, STRUCT_FIELD_INIT, STRUCT_PAT_FIELD, TYPE_DECL,
    TYPE_REF, TYPE_SIZE, WITNESS_DECL,
};
use crate::line_index::LineIndex;
use crate::resolve::{
    alias_of, enclosing_module, generic_def, generic_definition, ident_at, ident_at_offset,
    import_specifier_alias, local_from_pattern_site, local_of, module_around, odef,
    pattern_site_def, resolve_local_name, single_top_level_module, sole_module, DefView,
    Definition,
};
use crate::source_path::{module_name_of, path_module_name, string_lit_text, unquoted};
use crate::syntax::{
    child, child_token, children, ints, nearest, parse_result, range_of, tree_of, well_formed,
    SyntaxTree, Tree,
};
use crate::text::{begins_with, cat2, otext, same_text, strip_prefix, TextRange};
use crate::vfs::FileId;
use crate::workspace::in_order;

verus! {

// ---------------------------------------------------------------------------
// Inputs
// ---------------------------------------------------------------------------

/// A file text and its parse, by its place in the database.
#[derive(Clone, Copy, Debug, PartialEq, Eq, Hash, Structural)]
pub struct SourceText {
    pub id: usize,
}

/// The resolved imports of a file, by their place in the database.
#[derive(Clone, Copy, Debug, PartialEq, Eq, Hash, Structural)]
pub struct FileDeps {
    pub id: usize,
}

/// An import target as it is written, before it is looked for.
#[derive(Debug, PartialEq, Eq)]
pub struct RawDep {
    pub raw: String,
    pub is_include: bool,
}

/// The value of a [`RawDep`].
pub struct RawDepView {
    pub raw: Seq<char>,
    pub is_include: bool,
}

impl View for RawDep {
    type V = RawDepView;

    open spec fn view(&self) -> RawDepView {
        RawDepView { raw: self.raw@, is_include: self.is_include }
    }
}

/// The values of a list of import targets.
pub open spec fn raw_deps_view(s: Seq<RawDep>) -> Seq<RawDepView> {
    s.map_values(|d: RawDep| d@)
}

/// An import target after it was looked for; `None` where nothing was found.
#[derive(Debug, PartialEq, Eq)]
pub struct ResolvedDep {
    pub raw: String,
    pub is_include: bool,
    pub target: Option<(FileId, SourceText)>,
}

/// The value of a [`ResolvedDep`].
pub struct DepView {
    pub raw: Seq<char>,
    pub is_include: bool,
    pub target: Option<(FileId, SourceText)>,
}

impl View for ResolvedDep {
    type V = DepView;

    open spec fn view(&self) -> DepView {
        DepView { raw: self.raw@, is_include: self.is_include, target: self.target }
    }
}

/// The values of a list of resolved imports.
pub open spec fn deps_view(s: Seq<ResolvedDep>) -> Seq<DepView> {
    s.map_values(|d: ResolvedDep| d@)
}

/// What is known of one file.
pub struct FileAnalysis {
    pub text: String,
    pub tree: SyntaxTree,
    /// The complaints of the parser.
    pub diagnostics: Vec<Diagnostic>,
    pub line_index: LineIndex,
    pub item_tree: ItemTree,
}

/// The value of a [`FileAnalysis`].
pub struct SourceView {
    pub text: Seq<char>,
    pub tree: Tree,
    pub diagnostics: Seq<DiagView>,
    /// The text whose lines are indexed.
    pub lines: Seq<char>,
    pub syms: Seq<SymbolView>,
}

impl View for FileAnalysis {
    type V = SourceView;

    open spec fn view(&self) -> SourceView {
        SourceView {
            text: self.text@,
            tree: self.tree@,
            diagnostics: crate::diagnostics::diags_view(self.diagnostics@),
            lines: self.line_index@,
            syms: self.item_tree@,
        }
    }
}

/// All file texts with their parses, and all lists of resolved imports.
pub struct CompactDatabase {
    pub sources: Vec<FileAnalysis>,
    pub deps: Vec<Vec<ResolvedDep>>,
}

/// The value of a [`CompactDatabase`].
pub struct DbView {
    pub sources: Seq<SourceView>,
    pub deps: Seq<Seq<DepView>>,
}

impl View for CompactDatabase {
    type V = DbView;

    open spec fn view(&self) -> DbView {
        DbView {
            sources: self.sources@.map_values(|s: FileAnalysis| s@),
            deps: self.deps@.map_values(|d: Vec<ResolvedDep>| deps_view(d@)),
        }
    }
}

/// Whether a target names a text of the database.
pub open spec fn target_ok(db: DbView, target: Option<(FileId, SourceText)>) -> bool {
    target matches Some(x) ==> x.1.id < db.sources.len()
}

/// What every database keeps: trees are well formed, symbols are those of the
/// trees, and targets exist.
pub open spec fn db_ok(db: DbView) -> bool {
    &&& forall|i: int|
        #![trigger db.sources[i]]
        0 <= i < db.sources.len() ==> well_formed(db.sources[i].tree) && db.sources[i].syms
            == symbols_of(db.sources[i].tree)
    &&& forall|i: int, k: int|
        #![trigger db.deps[i][k]]
        0 <= i < db.deps.len() && 0 <= k < db.deps[i].len() ==> target_ok(db, db.deps[i][k].target)
}

/// What holds for the workspace as a whole: the standard library, and for each
/// file its imports and its text.
pub struct Workspace {
    pub stdlib: Option<(FileId, SourceText)>,
    pub file_deps: FileMap<FileDeps>,
    pub file_srcs: FileMap<SourceText>,
}

/// The value of a [`Workspace`].
pub struct WsView {
    pub stdlib: Option<(FileId, SourceText)>,
    pub file_deps: Map<usize, FileDeps>,
    pub file_srcs: Map<usize, SourceText>,
}

impl View for Workspace {
    type V = WsView;

    open spec fn view(&self) -> WsView {
        WsView {
            stdlib: self.stdlib,
            file_deps: self.file_deps@,
            file_srcs: self.file_srcs@,
        }
    }
}

/// Whether all handles of a workspace exist in the database.
pub open spec fn ws_ok(ws: WsView, db: DbView) -> bool {
    &&& target_ok(db, ws.stdlib)
    &&& forall|f: usize|
        #![trigger ws.file_deps[f]]
        ws.file_deps.contains_key(f) ==> ws.file_deps[f].id < db.deps.len()
    &&& forall|f: usize|
        #![trigger ws.file_srcs[f]]
        ws.file_srcs.contains_key(f) ==> ws.file_srcs[f].id < db.sources.len()
}

impl Workspace {
    /// A workspace with the given standard library and maps.
    pub fn new(
        stdlib: Option<(FileId, SourceText)>,
        file_deps: FileMap<FileDeps>,
        file_srcs: FileMap<SourceText>,
    ) -> (r: Workspace)
        ensures
            r@ == (WsView { stdlib, file_deps: file_deps@, file_srcs: file_srcs@ }),
    {
        Workspace { stdlib, file_deps, file_srcs }
    }
}

/// A file in its surroundings: what every query about it reads.
#[derive(Clone, Copy)]
pub struct Ctx<'a> {
    pub db: &'a CompactDatabase,
    pub file: FileId,
    pub src: SourceText,
    pub fd: FileDeps,
    pub ws: &'a Workspace,
}

/// The value of a [`Ctx`].
pub struct CtxView {
    pub db: DbView,
    pub file: FileId,
    pub src: SourceText,
    pub fd: FileDeps,
    pub ws: WsView,
}

impl<'a> View for Ctx<'a> {
    type V = CtxView;

    open spec fn view(&self) -> CtxView {
        CtxView { db: self.db@, file: self.file, src: self.src, fd: self.fd, ws: self.ws@ }
    }
}

impl CtxView {
    /// The tree of the file.
    pub open spec fn tree(self) -> Tree {
        self.db.sources[self.src.id as int].tree
    }

    /// The symbols of the file.
    pub open spec fn syms(self) -> Seq<SymbolView> {
        self.db.sources[self.src.id as int].syms
    }

    /// The resolved imports of the file.
    pub open spec fn deps(self) -> Seq<DepView> {
        self.db.deps[self.fd.id as int]
    }

    /// Whether every handle exists.
    pub open spec fn ok(self) -> bool {
        &&& db_ok(self.db)
        &&& ws_ok(self.ws, self.db)
        &&& self.src.id < self.db.sources.len()
        &&& self.fd.id < self.db.deps.len()
        &&& well_formed(self.tree())
        &&& self.syms() == symbols_of(self.tree())
    }
}

/// What a file with this text is known to be.
pub open spec fn analysis_of(text: Seq<char>) -> SourceView {
    let tree = tree_of(parse_result(text).0);
    SourceView {
        text,
        tree,
        diagnostics: crate::syntax::parse_diags(parse_result(text).1),
        lines: text,
        syms: symbols_of(tree),
    }
}

/// Parses a text and extracts its symbols.
pub fn analyze_text(text: &str) -> (r: FileAnalysis)
    requires
        encode_utf8(text@).len() <= u32::MAX,
    ensures
        r@ == analysis_of(text@),
        well_formed(r.tree@),
{
    let (tree, diagnostics) = crate::syntax::parse(text);
    let item_tree = ItemTree::extract(&tree);
    let line_index = LineIndex::new(text);
    FileAnalysis { text: text.to_owned(), tree, diagnostics, line_index, item_tree }
}

impl CompactDatabase {
    /// A database without files.
    pub fn new() -> (r: CompactDatabase)
        ensures
            r@.sources.len() == 0,
            r@.deps.len() == 0,
            db_ok(r@),
    {
        CompactDatabase { sources: Vec::new(), deps: Vec::new() }
    }
}

impl SourceText {
    /// Adds a file text to the database.
    pub fn new(db: &mut CompactDatabase, text: &str) -> (r: SourceText)
        requires
            db_ok(old(db)@),
            encode_utf8(text@).len() <= u32::MAX,
        ensures
            final(db)@ == (DbView {
                sources: old(db)@.sources.push(analysis_of(text@)),
                ..old(db)@
            }),
            r.id == old(db)@.sources.len(),
            db_ok(final(db)@),
    {
        let ghost before = db@;
        let id: usize = db.sources.len();
        let a = analyze_text(text);
        db.sources.push(a);
        proof {
            let after = db@;
            assert(after.sources =~= before.sources.push(analysis_of(text@)));
            assert(after.deps =~= before.deps);
            assert forall|i: int|
                #![trigger after.sources[i]]
                0 <= i < after.sources.len() implies well_formed(after.sources[i].tree)
                && after.sources[i].syms == symbols_of(after.sources[i].tree) by {
                if i < before.sources.len() {
                    assert(after.sources[i] == before.sources[i]);
                }
            }
            assert forall|i: int, k: int|
                #![trigger after.deps[i][k]]
                0 <= i < after.deps.len() && 0 <= k < after.deps[i].len() implies target_ok(
                after,
                after.deps[i][k].target,
            ) by {
                assert(target_ok(before, before.deps[i][k].target));
            }
        }
        SourceText { id }
    }

    /// Replaces the text of a file.
    pub fn set_text(&self, db: &mut CompactDatabase, text: &str)
        requires
            db_ok(old(db)@),
            self.id < old(db)@.sources.len(),
            encode_utf8(text@).len() <= u32::MAX,
        ensures
            final(db)@ == (DbView {
                sources: old(db)@.sources.update(self.id as int, analysis_of(text@)),
                ..old(db)@
            }),
            db_ok(final(db)@),
    {
        let ghost before = db@;
        let a = analyze_text(text);
        db.sources.set(self.id, a);
        proof {
            let after = db@;
            assert(after.sources =~= before.sources.update(self.id as int, analysis_of(text@)));
            assert(after.deps =~= before.deps);
            assert forall|i: int|
                #![trigger after.sources[i]]
                0 <= i < after.sources.len() implies well_formed(after.sources[i].tree)
                && after.sources[i].syms == symbols_of(after.sources[i].tree) by {
                if i != self.id {
                    assert(after.sources[i] == before.sources[i]);
                }
            }
            assert forall|i: int, k: int|
                #![trigger after.deps[i][k]]
                0 <= i < after.deps.len() && 0 <= k < after.deps[i].len() implies target_ok(
                after,
                after.deps[i][k].target,
            ) by {
                assert(target_ok(before, before.deps[i][k].target));
            }
        }
    }

    /// The text of a file.
    pub fn text<'a>(&self, db: &'a CompactDatabase) -> (r: &'a str)
        requires
            self.id < db@.sources.len(),
        ensures
            r@ == db@.sources[self.id as int].text,
    {
        db.sources[self.id].text.as_str()
    }
}

/// Whether every target of a list of imports exists in the database.
pub open spec fn deps_ok(db: DbView, deps: Seq<DepView>) -> bool {
    forall|k: int| #![trigger deps[k]] 0 <= k < deps.len() ==> target_ok(db, deps[k].target)
}

impl FileDeps {
    /// Adds a list of resolved imports to the database.
    pub fn new(db: &mut CompactDatabase, deps: Vec<ResolvedDep>) -> (r: FileDeps)
        requires
            db_ok(old(db)@),
            deps_ok(old(db)@, deps_view(deps@)),
        ensures
            final(db)@ == (DbView { deps: old(db)@.deps.push(deps_view(deps@)), ..old(db)@ }),
            r.id == old(db)@.deps.len(),
            db_ok(final(db)@),
    {
        let ghost before = db@;
        let ghost added = deps_view(deps@);
        let id: usize = db.deps.len();
        db.deps.push(deps);
        proof {
            let after = db@;
            assert(after.sources =~= before.sources);
            assert(after.deps =~= before.deps.push(added));
            assert forall|i: int, k: int|
                #![trigger after.deps[i][k]]
                0 <= i < after.deps.len() && 0 <= k < after.deps[i].len() implies target_ok(
                after,
                after.deps[i][k].target,
            ) by {
                if i < before.deps.len() {
                    assert(target_ok(before, before.deps[i][k].target));
                } else {
                    assert(target_ok(before, added[k].target));
                }
            }
        }
        FileDeps { id }
    }

    /// Replaces a list of resolved imports.
    pub fn set_deps(&self, db: &mut CompactDatabase, deps: Vec<ResolvedDep>)
        requires
            db_ok(old(db)@),
            self.id < old(db)@.deps.len(),
            deps_ok(old(db)@, deps_view(deps@)),
        ensures
            final(db)@ == (DbView {
                deps: old(db)@.deps.update(self.id as int, deps_view(deps@)),
                ..old(db)@
            }),
            db_ok(final(db)@),
    {
        let ghost before = db@;
        let ghost added = deps_view(deps@);
        db.deps.set(self.id, deps);
        proof {
            let after = db@;
            assert(after.sources =~= before.sources);
            assert(after.deps =~= before.deps.update(self.id as int, added));
            assert forall|i: int, k: int|
                #![trigger after.deps[i][k]]
                0 <= i < after.deps.len() && 0 <= k < after.deps[i].len() implies target_ok(
                after,
                after.deps[i][k].target,
            ) by {
                if i != self.id {
                    assert(target_ok(before, before.deps[i][k].target));
                } else {
                    assert(target_ok(before, added[k].target));
                }
            }
        }
    }
}

/// What is known of a file.
pub fn parsed<'a>(db: &'a CompactDatabase, src: SourceText) -> (r: &'a FileAnalysis)
    requires
        src.id < db@.sources.len(),
    ensures
        r@ == db@.sources[src.id as int],
{
    &db.sources[src.id]
}

/// The symbols of a file.
pub fn item_tree<'a>(db: &'a CompactDatabase, src: SourceText) -> (r: &'a ItemTree)
    requires
        src.id < db@.sources.len(),
    ensures
        r@ == db@.sources[src.id as int].syms,
{
    assert(db@.sources[src.id as int] == db.sources@[src.id as int]@);
    &db.sources[src.id].item_tree
}

/// The tree of a file.
pub fn syntax_tree<'a>(db: &'a CompactDatabase, src: SourceText) -> (r: &'a SyntaxTree)
    requires
        src.id < db@.sources.len(),
    ensures
        r@ == db@.sources[src.id as int].tree,
{
    assert(db@.sources[src.id as int] == db.sources@[src.id as int]@);
    &db.sources[src.id].tree
}

/// The resolved imports of a file.
pub fn resolved_deps<'a>(db: &'a CompactDatabase, fd: FileDeps) -> (r: &'a Vec<ResolvedDep>)
    requires
        fd.id < db@.deps.len(),
    ensures
        deps_view(r@) == db@.deps[fd.id as int],
{
    assert(db@.deps[fd.id as int] == deps_view(db.deps@[fd.id as int]@));
    &db.deps[fd.id]
}


// ---------------------------------------------------------------------------
// Symbols and imports of one file
// ---------------------------------------------------------------------------

/// The named symbols from index `i` on, each with its index.
pub open spec fn named_from(syms: Seq<SymbolView>, i: int) -> Seq<(Seq<char>, u32)>
    decreases syms.len() - i,
{
    if 0 <= i < syms.len() {
        if syms[i].name.len() == 0 {
            named_from(syms, i + 1)
        } else {
            seq![(syms[i].name, index32(i))] + named_from(syms, i + 1)
        }
    } else {
        Seq::empty()
    }
}

/// The named symbols of a file are in order.
pub proof fn lemma_named_in_order(syms: Seq<SymbolView>, i: int)
    requires
        0 <= i,
    ensures
        in_order(named_from(syms, i)),
        forall|k: int|
            #![trigger named_from(syms, i)[k]]
            0 <= k < named_from(syms, i).len() ==> named_from(syms, i)[k].1 >= index32(i),
    decreases syms.len() - i,
{
    if i < syms.len() {
        lemma_named_in_order(syms, i + 1);
        let rest = named_from(syms, i + 1);
        let all = named_from(syms, i);
        if syms[i].name.len() > 0 {
            assert forall|k: int| #![trigger all[k]] 0 <= k < all.len() implies all[k].1 >= index32(
                i,
            ) && all[k].0.len() > 0 by {
                if k > 0 {
                    assert(all[k] == rest[k - 1]);
                }
            }
            assert forall|a: int, b: int|
                #![trigger all[a], all[b]]
                0 <= a < b < all.len() implies all[a].1 < all[b].1 || (all[a].1 == u32::MAX
                && all[b].1 == u32::MAX) by {
                assert(all[b] == rest[b - 1]);
                if a > 0 {
                    assert(all[a] == rest[a - 1]);
                }
            }
        }
    }
}

/// The indices that are listed for a file are those of its symbols, as long as
/// these can be counted with 32 bits; the greatest index is then not in use.
pub proof fn law_listed_indices_fit(syms: Seq<SymbolView>, k: int)
    requires
        syms.len() <= u32::MAX,
        0 <= k < named_from(syms, 0).len(),
    ensures
        named_from(syms, 0)[k].1 < syms.len(),
        named_from(syms, 0)[k].0 == syms[named_from(syms, 0)[k].1 as int].name,
{
    lemma_listed(syms, 0, k);
}

proof fn lemma_listed(syms: Seq<SymbolView>, i: int, k: int)
    requires
        syms.len() <= u32::MAX,
        0 <= i,
        0 <= k < named_from(syms, i).len(),
    ensures
        named_from(syms, i)[k].1 < syms.len(),
        named_from(syms, i)[k].0 == syms[named_from(syms, i)[k].1 as int].name,
    decreases syms.len() - i,
{
    if i < syms.len() {
        if syms[i].name.len() > 0 {
            if k > 0 {
                lemma_listed(syms, i + 1, k - 1);
                assert(named_from(syms, i)[k] == named_from(syms, i + 1)[k - 1]);
            }
        } else {
            lemma_listed(syms, i + 1, k);
        }
    }
}

/// A list of names with indices as values.
pub open spec fn names_view(s: Seq<(String, u32)>) -> Seq<(Seq<char>, u32)> {
    s.map_values(|p: (String, u32)| (p.0@, p.1))
}

/// The symbols of a file that have a name, each with its index.
pub fn file_symbols(db: &CompactDatabase, src: SourceText) -> (r: Vec<(String, u32)>)
    requires
        src.id < db@.sources.len(),
    ensures
        names_view(r@) == named_from(db@.sources[src.id as int].syms, 0),
{
    let tree = item_tree(db, src);
    let ghost syms = tree@;
    let mut out: Vec<(String, u32)> = Vec::new();
    let mut i: usize = 0;
    assert(names_view(out@) + named_from(syms, 0) =~= named_from(syms, 0));
    while i < tree.symbols.len()
        invariant
            i <= tree.symbols@.len(),
            syms == tree@,
            names_view(out@) + named_from(syms, i as int) == named_from(syms, 0),
        decreases tree.symbols@.len() - i,
    {
        let s = &tree.symbols[i];
        assert(syms[i as int] == s@);
        if !s.name.as_str().is_empty() {
            let ghost before = names_view(out@);
            let ghost own = (s@.name, index32(i as int));
            out.push((s.name.clone(), clamp_index(i)));
            assert(names_view(out@) =~= before.push(own));
            assert(before + (seq![own] + named_from(syms, i + 1)) =~= before.push(own)
                + named_from(syms, i + 1));
        }
        i = i + 1;
    }
    assert(names_view(out@) + Seq::<(Seq<char>, u32)>::empty() =~= names_view(out@));
    out
}

/// Whether symbol `s` lies directly inside `parent` and has this name, this
/// kind where one is asked for, and an export where one is asked for.
pub open spec fn symbol_fits(
    s: SymbolView,
    parent: Option<u32>,
    name: Seq<char>,
    exported_only: bool,
    kind: Option<SymbolKind>,
) -> bool {
    &&& s.parent == parent
    &&& s.name == name
    &&& exported_only ==> s.exported
    &&& kind matches Some(k) ==> s.kind == k
}

/// The index of the first fitting symbol at or after `i`.
pub open spec fn symbol_from(
    syms: Seq<SymbolView>,
    i: int,
    parent: Option<u32>,
    name: Seq<char>,
    exported_only: bool,
    kind: Option<SymbolKind>,
) -> Option<u32>
    decreases syms.len() - i,
{
    if 0 <= i < syms.len() {
        if symbol_fits(syms[i], parent, name, exported_only, kind) {
            Some(index32(i))
        } else {
            symbol_from(syms, i + 1, parent, name, exported_only, kind)
        }
    } else {
        None
    }
}

/// The first symbol directly inside `parent` with this name, this kind where
/// one is asked for, and an export where one is asked for.
pub fn find_symbol(
    tree: &ItemTree,
    parent: Option<u32>,
    name: &str,
    exported_only: bool,
    kind: Option<SymbolKind>,
) -> (r: Option<u32>)
    ensures
        r == symbol_from(tree@, 0, parent, name@, exported_only, kind),
{
    let ghost syms = tree@;
    let mut i: usize = 0;
    while i < tree.symbols.len()
        invariant
            i <= tree.symbols@.len(),
            syms == tree@,
            symbol_from(syms, 0, parent, name@, exported_only, kind) == symbol_from(
                syms,
                i as int,
                parent,
                name@,
                exported_only,
                kind,
            ),
        decreases tree.symbols@.len() - i,
    {
        let s = &tree.symbols[i];
        assert(syms[i as int] == s@);
        let kind_fits: bool = match kind {
            Some(k) => s.kind == k,
            None => true,
        };
        if s.parent == parent && same_text(&s.name, name) && (!exported_only || s.exported)
            && kind_fits {
            return Some(clamp_index(i));
        }
        i = i + 1;
    }
    None
}

/// The name of the standard library.
pub open spec fn stdlib_name() -> Seq<char> {
    "CompactStandardLibrary"@
}

/// Whether a module with this name stands at the top level.
pub open spec fn has_module(syms: Seq<SymbolView>, name: Seq<char>) -> bool {
    symbol_from(syms, 0, None, name, false, Some(SymbolKind::Module)) is Some
}

/// Whether the tree is that of a source file.
pub open spec fn is_file(t: Tree) -> bool {
    t.len() > 0 && !t[0].token && t[0].kind == SOURCE_FILE
}

/// The target that an import declares, where it has to be looked for: the
/// standard library and modules of the file itself are left out.
pub open spec fn import_target(t: Tree, syms: Seq<SymbolView>, import: int) -> Option<Seq<char>> {
    match child_token(t, import, IDENT) {
        Some(x) => if t[x].text == stdlib_name() || has_module(syms, t[x].text) {
            None
        } else {
            Some(t[x].text)
        },
        None => match child_token(t, import, STRING_LIT) {
            Some(x) => Some(unquoted(t[x].text)),
            None => None,
        },
    }
}

/// The targets of the imports `kids` from position `k` on.
pub open spec fn import_targets(t: Tree, syms: Seq<SymbolView>, kids: Seq<int>, k: int) -> Seq<
    RawDepView,
>
    decreases kids.len() - k,
{
    if 0 <= k < kids.len() {
        match import_target(t, syms, kids[k]) {
            Some(raw) => seq![RawDepView { raw, is_include: false }] + import_targets(
                t,
                syms,
                kids,
                k + 1,
            ),
            None => import_targets(t, syms, kids, k + 1),
        }
    } else {
        Seq::empty()
    }
}

/// The targets of the spliced files `kids` from position `k` on.
pub open spec fn splice_targets(t: Tree, kids: Seq<int>, k: int) -> Seq<RawDepView>
    decreases kids.len() - k,
{
    if 0 <= k < kids.len() {
        match child_token(t, kids[k], STRING_LIT) {
            Some(x) => seq![RawDepView { raw: unquoted(t[x].text), is_include: true }]
                + splice_targets(t, kids, k + 1),
            None => splice_targets(t, kids, k + 1),
        }
    } else {
        Seq::empty()
    }
}

/// All targets of a file that have to be looked for.
pub open spec fn targets_of(t: Tree, syms: Seq<SymbolView>) -> Seq<RawDepView> {
    if is_file(t) {
        import_targets(t, syms, children(t, 0, Class::Kind(IMPORT)), 0) + splice_targets(
            t,
            children(t, 0, Class::Kind(INCLUDE)),
            0,
        )
    } else {
        Seq::empty()
    }
}

fn import_target_of(t: &SyntaxTree, tree: &ItemTree, import: usize) -> (r: Option<String>)
    requires
        well_formed(t@),
        import < t@.len(),
    ensures
        otext(r) == import_target(t@, tree@, import as int),
{
    match t.child_token(import, IDENT) {
        Some(x) => {
            let name = t.token_text(x);
            if same_text(name, "CompactStandardLibrary") {
                return None;
            }
            if find_symbol(tree, None, name, false, Some(SymbolKind::Module)).is_some() {
                return None;
            }
            Some(name.to_owned())
        },
        None => match t.child_token(import, STRING_LIT) {
            Some(x) => Some(string_lit_text(t.token_text(x))),
            None => None,
        },
    }
}

/// The import targets of a file that have to be looked for, imports first.
pub fn raw_imports(db: &CompactDatabase, src: SourceText) -> (r: Vec<RawDep>)
    requires
        db_ok(db@),
        src.id < db@.sources.len(),
    ensures
        raw_deps_view(r@) == targets_of(
            db@.sources[src.id as int].tree,
            db@.sources[src.id as int].syms,
        ),
{
    let t = syntax_tree(db, src);
    let tree = item_tree(db, src);
    let mut out: Vec<RawDep> = Vec::new();
    assert(raw_deps_view(out@) =~= Seq::<RawDepView>::empty());
    if t.len() == 0 || t.is_token(0) || t.kind(0) != SOURCE_FILE {
        return out;
    }
    let imports = t.children(0, Class::Kind(IMPORT));
    let ghost list = ints(imports@);
    let ghost first = import_targets(t@, tree@, list, 0);
    let mut k: usize = 0;
    assert(raw_deps_view(out@) + first =~= first);
    while k < imports.len()
        invariant
            well_formed(t@),
            k <= imports@.len(),
            list == ints(imports@),
            forall|k: int| #![trigger imports@[k]] 0 <= k < imports@.len() ==> imports@[k] < t@.len(),
            raw_deps_view(out@) + import_targets(t@, tree@, list, k as int) == first,
        decreases imports@.len() - k,
    {
        assert(list[k as int] == imports@[k as int]);
        let ghost before = raw_deps_view(out@);
        let ghost rest = import_targets(t@, tree@, list, k + 1);
        if let Some(raw) = import_target_of(t, tree, imports[k]) {
            let ghost own = RawDepView { raw: raw@, is_include: false };
            out.push(RawDep { raw, is_include: false });
            assert(raw_deps_view(out@) =~= before.push(own));
            assert(before + (seq![own] + rest) =~= before.push(own) + rest);
        }
        k = k + 1;
    }
    assert(raw_deps_view(out@) + Seq::<RawDepView>::empty() =~= raw_deps_view(out@));
    let splices = t.children(0, Class::Kind(INCLUDE));
    let ghost slist = ints(splices@);
    let ghost whole = first + splice_targets(t@, slist, 0);
    let mut j: usize = 0;
    while j < splices.len()
        invariant
            well_formed(t@),
            j <= splices@.len(),
            slist == ints(splices@),
            forall|k: int| #![trigger splices@[k]] 0 <= k < splices@.len() ==> splices@[k] < t@.len(),
            raw_deps_view(out@) + splice_targets(t@, slist, j as int) == whole,
        decreases splices@.len() - j,
    {
        assert(slist[j as int] == splices@[j as int]);
        let ghost before = raw_deps_view(out@);
        let ghost rest = splice_targets(t@, slist, j + 1);
        if let Some(x) = t.child_token(splices[j], STRING_LIT) {
            let raw = string_lit_text(t.token_text(x));
            let ghost own = RawDepView { raw: raw@, is_include: true };
            out.push(RawDep { raw, is_include: true });
            assert(raw_deps_view(out@) =~= before.push(own));
            assert(before + (seq![own] + rest) =~= before.push(own) + rest);
        }
        j = j + 1;
    }
    assert(raw_deps_view(out@) + Seq::<RawDepView>::empty() =~= raw_deps_view(out@));
    out
}

// ---------------------------------------------------------------------------
// Names at file scope
// ---------------------------------------------------------------------------

/// How many files there can be.
pub open spec fn file_limit() -> int {
    usize::MAX + 1
}

/// What `name` stands for among the declarations of the files spliced in by
/// `deps` from position `k` on, depth first. Files on the path `active` are
/// not entered again.
pub open spec fn spliced_def(
    db: DbView,
    ws: WsView,
    deps: Seq<DepView>,
    k: int,
    name: Seq<char>,
    active: Seq<FileId>,
) -> Option<DefView>
    decreases file_limit() - active.len(), deps.len() - k,
{
    if 0 <= k < deps.len() {
        match deps[k].target {
            Some((f, s)) => if deps[k].is_include && !active.contains(f) {
                match symbol_from(db.sources[s.id as int].syms, 0, None, name, false, None) {
                    Some(index) => Some(DefView::Item { file: f, index }),
                    None => {
                        let deeper = if ws.file_deps.contains_key(f.raw) && active.len()
                            < file_limit() {
                            spliced_def(
                                db,
                                ws,
                                db.deps[ws.file_deps[f.raw].id as int],
                                0,
                                name,
                                active.push(f),
                            )
                        } else {
                            None
                        };
                        match deeper {
                            Some(d) => Some(d),
                            None => spliced_def(db, ws, deps, k + 1, name, active),
                        }
                    },
                }
            } else {
                spliced_def(db, ws, deps, k + 1, name, active)
            },
            None => spliced_def(db, ws, deps, k + 1, name, active),
        }
    } else {
        None
    }
}

/// A list of distinct files is no longer than there are files.
pub proof fn lemma_distinct_files(s: Seq<FileId>)
    requires
        s.no_duplicates(),
    ensures
        s.len() <= file_limit(),
{
    let raws = s.map_values(|f: FileId| f.raw as int);
    assert(raws.no_duplicates()) by {
        assert forall|i: int, j: int|
            0 <= i < raws.len() && 0 <= j < raws.len() && i != j implies raws[i] != raws[j] by {
            assert(s[i] != s[j]);
        }
    }
    raws.unique_seq_to_set();
    let all = vstd::set_lib::set_int_range(0, file_limit());
    vstd::set_lib::lemma_int_range(0, file_limit());
    assert(raws.to_set().subset_of(all)) by {
        assert forall|x: int| raws.to_set().contains(x) implies all.contains(x) by {
            let i = choose|i: int| 0 <= i < raws.len() && raws[i] == x;
            assert(raws[i] == s[i].raw as int);
        }
    }
    vstd::set_lib::lemma_len_subset(raws.to_set(), all);
}

fn contains_file(files: &Vec<FileId>, f: FileId) -> (r: bool)
    ensures
        r == files@.contains(f),
{
    let mut i: usize = 0;
    while i < files.len()
        invariant
            i <= files@.len(),
            forall|j: int| 0 <= j < i ==> files@[j] != f,
        decreases files@.len() - i,
    {
        if files[i] == f {
            assert(files@[i as int] == f);
            return true;
        }
        i = i + 1;
    }
    false
}

/// Resolves `name` among the declarations of the files that `fd` splices in,
/// depth first. The path of files being searched keeps a cycle from being
/// followed.
pub fn resolve_includes(
    db: &CompactDatabase,
    fd: FileDeps,
    ws: &Workspace,
    name: &str,
    active: &mut Vec<FileId>,
) -> (r: Option<Definition>)
    requires
        db_ok(db@),
        ws_ok(ws@, db@),
        fd.id < db@.deps.len(),
        old(active)@.no_duplicates(),
    ensures
        final(active)@ == old(active)@,
        odef(r) == spliced_def(
            db@,
            ws@,
            db@.deps[fd.id as int],
            0,
            name@,
            old(active)@,
        ),
    decreases file_limit() - old(active)@.len(),
{
    let deps = resolved_deps(db, fd);
    let ghost list = db@.deps[fd.id as int];
    let ghost path = active@;
    let mut k: usize = 0;
    while k < deps.len()
        invariant
            db_ok(db@),
            ws_ok(ws@, db@),
            fd.id < db@.deps.len(),
            k <= deps@.len(),
            list == deps_view(deps@),
            list == db@.deps[fd.id as int],
            active@ == path,
            path == old(active)@,
            path.no_duplicates(),
            spliced_def(db@, ws@, list, 0, name@, path) == spliced_def(
                db@,
                ws@,
                list,
                k as int,
                name@,
                path,
            ),
        decreases deps@.len() - k,
    {
        let dep = &deps[k];
        assert(list[k as int] == dep@);
        assert(target_ok(db@, db@.deps[fd.id as int][k as int].target));
        if let Some((f, s)) = dep.target {
            if dep.is_include && !contains_file(active, f) {
                let found = find_symbol(item_tree(db, s), None, name, false, None);
                if let Some(index) = found {
                    return Some(Definition::Item { file: f, index });
                }
                if let Some(next) = ws.file_deps.get(f) {
                    assert(ws@.file_deps[f.raw].id < db@.deps.len());
                    proof {
                        assert(path.push(f).no_duplicates());
                        lemma_distinct_files(path.push(f));
                    }
                    active.push(f);
                    let deeper = resolve_includes(db, *next, ws, name, active);
                    active.pop();
                    assert(active@ =~= path);
                    if deeper.is_some() {
                        return deeper;
                    }
                }
            }
        }
        k = k + 1;
    }
    None
}

/// The import specifiers from index `i` up to `end` that have a name: what
/// they are called here, and what they are called in the module.
pub open spec fn specifiers_from(t: Tree, i: int, end: int) -> Seq<(Seq<char>, Seq<char>)>
    decreases end - i,
{
    if 0 <= i < end && i < t.len() {
        let rest = specifiers_from(t, i + 1, end);
        if !t[i].token && t[i].kind == IMPORT_SPECIFIER {
            match child_token(t, i, IDENT) {
                Some(x) => seq![
                    (
                        match alias_of(t, i) {
                            Some(a) => a,
                            None => t[x].text,
                        },
                        t[x].text,
                    ),
                ] + rest,
                None => rest,
            }
        } else {
            rest
        }
    } else {
        Seq::empty()
    }
}

/// The imported name of the first specifier at or after `k` called `alias`.
pub open spec fn original_of(
    specs: Seq<(Seq<char>, Seq<char>)>,
    k: int,
    alias: Seq<char>,
) -> Option<Seq<char>>
    decreases specs.len() - k,
{
    if 0 <= k < specs.len() {
        if specs[k].0 == alias {
            Some(specs[k].1)
        } else {
            original_of(specs, k + 1, alias)
        }
    } else {
        None
    }
}

/// The prefix that import `import` puts in front of its names.
pub open spec fn import_prefix(t: Tree, import: int) -> Option<int> {
    match child(t, import, Class::Kind(PREFIX_DECL)) {
        Some(p) => child_token(t, p, IDENT),
        None => None,
    }
}

/// The name under which the module of `import` knows `name`: its prefix is
/// stripped and its specifier list, where there is one, is consulted.
pub open spec fn imported_name(t: Tree, import: int, name: Seq<char>) -> Option<Seq<char>> {
    let lookup = match import_prefix(t, import) {
        Some(x) => if begins_with(name, t[x].text) {
            Some(name.skip(t[x].text.len() as int))
        } else {
            None
        },
        None => Some(name),
    };
    match lookup {
        Some(l) => {
            let specs = specifiers_from(t, import, t[import].next);
            if specs.len() == 0 {
                Some(l)
            } else {
                original_of(specs, 0, l)
            }
        },
        None => None,
    }
}

/// The first resolved import at or after `k` that is written `raw` and is
/// spliced in or not as asked.
pub open spec fn dep_from(deps: Seq<DepView>, k: int, raw: Seq<char>, is_include: bool) -> Option<
    DepView,
>
    decreases deps.len() - k,
{
    if 0 <= k < deps.len() {
        if deps[k].raw == raw && deps[k].is_include == is_include {
            Some(deps[k])
        } else {
            dep_from(deps, k + 1, raw, is_include)
        }
    } else {
        None
    }
}

/// The target of the first resolved import that is written `raw`.
pub open spec fn dep_target(deps: Seq<DepView>, raw: Seq<char>, is_include: bool) -> Option<
    (FileId, SourceText),
> {
    match dep_from(deps, 0, raw, is_include) {
        Some(d) => d.target,
        None => None,
    }
}

/// The exported member `target` of the only module of the file that `raw`
/// resolves to, where that module is called `expected`.
pub open spec fn external_member(
    db: DbView,
    deps: Seq<DepView>,
    raw: Seq<char>,
    expected: Seq<char>,
    target: Seq<char>,
) -> Option<DefView> {
    match dep_target(deps, raw, false) {
        Some((f, s)) => {
            let syms = db.sources[s.id as int].syms;
            match sole_module(syms) {
                Some((m, sym)) => if sym.name == expected {
                    match symbol_from(syms, 0, Some(m), target, true, None) {
                        Some(index) => Some(DefView::Item { file: f, index }),
                        None => None,
                    }
                } else {
                    None
                },
                None => None,
            }
        },
        None => None,
    }
}

/// The exported member `name` of the standard library.
pub open spec fn stdlib_member(db: DbView, ws: WsView, name: Seq<char>) -> Option<DefView> {
    match ws.stdlib {
        Some((f, s)) => match symbol_from(
            db.sources[s.id as int].syms,
            0,
            None,
            name,
            true,
            None,
        ) {
            Some(index) => Some(DefView::Item { file: f, index }),
            None => None,
        },
        None => None,
    }
}

/// What `name` stands for through one import. A module of the file itself
/// wins over one that is looked for, even where it lacks the member.
pub open spec fn through_import(c: CtxView, import: int, name: Seq<char>) -> Option<DefView> {
    let t = c.tree();
    match imported_name(t, import, name) {
        Some(target) => match child_token(t, import, IDENT) {
            Some(x) => {
                let module = t[x].text;
                if module == stdlib_name() {
                    stdlib_member(c.db, c.ws, target)
                } else {
                    match symbol_from(
                        c.syms(),
                        0,
                        None,
                        module,
                        false,
                        Some(SymbolKind::Module),
                    ) {
                        Some(m) => match symbol_from(c.syms(), 0, Some(m), target, true, None) {
                            Some(index) => Some(DefView::Item { file: c.file, index }),
                            None => None,
                        },
                        None => external_member(c.db, c.deps(), module, module, target),
                    }
                }
            },
            None => match child_token(t, import, STRING_LIT) {
                Some(x) => {
                    let raw = unquoted(t[x].text);
                    match module_name_of(raw) {
                        Some(expected) => external_member(c.db, c.deps(), raw, expected, target),
                        None => None,
                    }
                },
                None => None,
            },
        },
        None => None,
    }
}

/// What `name` stands for through the imports `kids` from position `k` on.
pub open spec fn through_imports(c: CtxView, kids: Seq<int>, k: int, name: Seq<char>) -> Option<
    DefView,
>
    decreases kids.len() - k,
{
    if 0 <= k < kids.len() {
        match through_import(c, kids[k], name) {
            Some(d) => Some(d),
            None => through_imports(c, kids, k + 1, name),
        }
    } else {
        None
    }
}

/// What `name` stands for through the imports of the file.
pub open spec fn imported_def(c: CtxView, name: Seq<char>) -> Option<DefView> {
    if is_file(c.tree()) {
        through_imports(c, children(c.tree(), 0, Class::Kind(IMPORT)), 0, name)
    } else {
        None
    }
}

/// What `name` stands for at file scope, seen from `offset`: members of the
/// module around it, then top-level items, then spliced files, then imports.
pub open spec fn file_def(c: CtxView, offset: u32, name: Seq<char>) -> Option<DefView> {
    let syms = c.syms();
    let sibling = match module_around(syms, syms.len() as int, offset) {
        Some(m) => symbol_from(syms, 0, Some(m), name, false, None),
        None => None,
    };
    match sibling {
        Some(index) => Some(DefView::Item { file: c.file, index }),
        None => match symbol_from(syms, 0, None, name, false, None) {
            Some(index) => Some(DefView::Item { file: c.file, index }),
            None => match spliced_def(c.db, c.ws, c.deps(), 0, name, seq![c.file]) {
                Some(d) => Some(d),
                None => imported_def(c, name),
            },
        },
    }
}

fn import_specifiers(t: &SyntaxTree, import: usize) -> (r: Vec<(String, String)>)
    requires
        well_formed(t@),
        import < t@.len(),
    ensures
        pairs_view(r@) == specifiers_from(t@, import as int, t@[import as int].next),
{
    let end: usize = t.next(import);
    let mut out: Vec<(String, String)> = Vec::new();
    let ghost whole = specifiers_from(t@, import as int, end as int);
    let mut i: usize = import;
    assert(pairs_view(out@) + whole =~= whole);
    while i < end
        invariant
            well_formed(t@),
            i <= end <= t@.len(),
            pairs_view(out@) + specifiers_from(t@, i as int, end as int) == whole,
        decreases end - i,
    {
        let ghost before = pairs_view(out@);
        let ghost rest = specifiers_from(t@, i + 1, end as int);
        if !t.is_token(i) && t.kind(i) == IMPORT_SPECIFIER {
            if let Some(x) = t.child_token(i, IDENT) {
                let imported = t.token_text(x).to_owned();
                let alias = match import_specifier_alias(t, i) {
                    Some(a) => a,
                    None => imported.clone(),
                };
                let ghost own = (alias@, imported@);
                out.push((alias, imported));
                assert(pairs_view(out@) =~= before.push(own));
                assert(before + (seq![own] + rest) =~= before.push(own) + rest);
            }
        }
        i = i + 1;
    }
    assert(pairs_view(out@) + Seq::<(Seq<char>, Seq<char>)>::empty() =~= pairs_view(out@));
    out
}

/// A list of pairs of strings as values.
pub open spec fn pairs_view(s: Seq<(String, String)>) -> Seq<(Seq<char>, Seq<char>)> {
    s.map_values(|p: (String, String)| (p.0@, p.1@))
}

fn lookup_in_import(t: &SyntaxTree, import: usize, name: &str) -> (r: Option<String>)
    requires
        well_formed(t@),
        import < t@.len(),
    ensures
        otext(r) == imported_name(t@, import as int, name@),
{
    let prefix = match t.child(import, Class::Kind(PREFIX_DECL)) {
        Some(p) => t.child_token(p, IDENT),
        None => None,
    };
    let lookup = match prefix {
        Some(x) => match strip_prefix(name, t.token_text(x)) {
            Some(rest) => rest,
            None => {
                return None;
            },
        },
        None => name.to_owned(),
    };
    let specs = import_specifiers(t, import);
    let ghost all = pairs_view(specs@);
    assert(all.len() == specs@.len());
    if specs.len() == 0 {
        return Some(lookup);
    }
    let mut k: usize = 0;
    while k < specs.len()
        invariant
            k <= specs@.len(),
            all == pairs_view(specs@),
            imported_name(t@, import as int, name@) == original_of(all, k as int, lookup@),
        decreases specs@.len() - k,
    {
        assert(all[k as int] == (specs@[k as int].0@, specs@[k as int].1@));
        if same_text(&specs[k].0, &lookup) {
            return Some(specs[k].1.clone());
        }
        k = k + 1;
    }
    None
}

/// The target of the first resolved import that is written `raw` and is
/// spliced in or not as asked.
pub fn find_dep_target(deps: &Vec<ResolvedDep>, raw: &str, is_include: bool) -> (r: Option<
    (FileId, SourceText),
>)
    ensures
        r == dep_target(deps_view(deps@), raw@, is_include),
{
    let ghost list = deps_view(deps@);
    let mut k: usize = 0;
    while k < deps.len()
        invariant
            k <= deps@.len(),
            list == deps_view(deps@),
            dep_from(list, 0, raw@, is_include) == dep_from(list, k as int, raw@, is_include),
        decreases deps@.len() - k,
    {
        assert(list[k as int] == deps@[k as int]@);
        if same_text(&deps[k].raw, raw) && deps[k].is_include == is_include {
            return deps[k].target;
        }
        k = k + 1;
    }
    None
}

/// A target found among imports of the database exists in it.
pub proof fn lemma_dep_target(db: DbView, i: int, raw: Seq<char>, is_include: bool, k: int)
    requires
        db_ok(db),
        0 <= i < db.deps.len(),
        0 <= k,
    ensures
        dep_from(db.deps[i], k, raw, is_include) matches Some(d) ==> target_ok(db, d.target),
    decreases db.deps[i].len() - k,
{
    if k < db.deps[i].len() {
        assert(target_ok(db, db.deps[i][k].target));
        lemma_dep_target(db, i, raw, is_include, k + 1);
    }
}

/// Resolves the exported member `target` of the only module of the file that
/// `raw` resolves to; that module has to be called `expected`.
pub fn resolve_external_module_member(
    db: &CompactDatabase,
    fd: FileDeps,
    raw: &str,
    expected: &str,
    target: &str,
) -> (r: Option<Definition>)
    requires
        db_ok(db@),
        fd.id < db@.deps.len(),
    ensures
        odef(r) == external_member(db@, db@.deps[fd.id as int], raw@, expected@, target@),
{
    let deps = resolved_deps(db, fd);
    proof {
        lemma_dep_target(db@, fd.id as int, raw@, false, 0);
    }
    match find_dep_target(deps, raw, false) {
        Some((f, s)) => {
            let tree = item_tree(db, s);
            match single_top_level_module(tree) {
                Some((m, sym)) => {
                    if !same_text(&sym.name, expected) {
                        return None;
                    }
                    match find_symbol(tree, Some(m), target, true, None) {
                        Some(index) => Some(Definition::Item { file: f, index }),
                        None => None,
                    }
                },
                None => None,
            }
        },
        None => None,
    }
}

fn resolve_stdlib_member(db: &CompactDatabase, ws: &Workspace, name: &str) -> (r: Option<
    Definition,
>)
    requires
        ws_ok(ws@, db@),
    ensures
        odef(r) == stdlib_member(db@, ws@, name@),
{
    match ws.stdlib {
        Some((f, s)) => match find_symbol(item_tree(db, s), None, name, true, None) {
            Some(index) => Some(Definition::Item { file: f, index }),
            None => None,
        },
        None => None,
    }
}

fn resolve_one_import(c: &Ctx, import: usize, name: &str) -> (r: Option<Definition>)
    requires
        c@.ok(),
        import < c@.tree().len(),
    ensures
        odef(r) == through_import(c@, import as int, name@),
{
    let t = syntax_tree(c.db, c.src);
    let tree = item_tree(c.db, c.src);
    let target = match lookup_in_import(t, import, name) {
        Some(n) => n,
        None => {
            return None;
        },
    };
    match t.child_token(import, IDENT) {
        Some(x) => {
            let module = t.token_text(x);
            if same_text(module, "CompactStandardLibrary") {
                return resolve_stdlib_member(c.db, c.ws, &target);
            }
            match find_symbol(tree, None, module, false, Some(SymbolKind::Module)) {
                Some(m) => match find_symbol(tree, Some(m), &target, true, None) {
                    Some(index) => Some(Definition::Item { file: c.file, index }),
                    None => None,
                },
                None => resolve_external_module_member(c.db, c.fd, module, module, &target),
            }
        },
        None => match t.child_token(import, STRING_LIT) {
            Some(x) => {
                let raw = string_lit_text(t.token_text(x));
                match path_module_name(&raw) {
                    Some(expected) => resolve_external_module_member(
                        c.db,
                        c.fd,
                        &raw,
                        &expected,
                        &target,
                    ),
                    None => None,
                }
            },
            None => None,
        },
    }
}

/// Resolves `name` through the imports of a file, in the order of their
/// declaration.
pub fn resolve_imports(
    db: &CompactDatabase,
    file: FileId,
    src: SourceText,
    fd: FileDeps,
    ws: &Workspace,
    name: &str,
) -> (r: Option<Definition>)
    requires
        (CtxView { db: db@, file, src, fd, ws: ws@ }).ok(),
    ensures
        odef(r) == imported_def(CtxView { db: db@, file, src, fd, ws: ws@ }, name@),
{
    let c = Ctx { db, file, src, fd, ws };
    let t = syntax_tree(db, src);
    if t.len() == 0 || t.is_token(0) || t.kind(0) != SOURCE_FILE {
        return None;
    }
    let imports = t.children(0, Class::Kind(IMPORT));
    let ghost list = ints(imports@);
    let mut k: usize = 0;
    while k < imports.len()
        invariant
            c@.ok(),
            c@ == (CtxView { db: db@, file, src, fd, ws: ws@ }),
            t@ == c@.tree(),
            k <= imports@.len(),
            list == ints(imports@),
            forall|k: int| #![trigger imports@[k]] 0 <= k < imports@.len() ==> imports@[k] < t@.len(),
            imported_def(c@, name@) == through_imports(c@, list, k as int, name@),
        decreases imports@.len() - k,
    {
        assert(list[k as int] == imports@[k as int]);
        let found = resolve_one_import(&c, imports[k], name);
        if found.is_some() {
            return found;
        }
        k = k + 1;
    }
    None
}

/// Resolves `name` at file scope, seen from `offset`: members of the module
/// around it first, then top-level items, then the declarations of spliced
/// files, then imports.
pub fn resolve_in_file(
    db: &CompactDatabase,
    file: FileId,
    src: SourceText,
    fd: FileDeps,
    ws: &Workspace,
    offset: u32,
    name: &str,
) -> (r: Option<Definition>)
    requires
        (CtxView { db: db@, file, src, fd, ws: ws@ }).ok(),
    ensures
        odef(r) == file_def(CtxView { db: db@, file, src, fd, ws: ws@ }, offset, name@),
{
    let tree = item_tree(db, src);
    if let Some(m) = enclosing_module(tree, offset) {
        if let Some(index) = find_symbol(tree, Some(m), name, false, None) {
            return Some(Definition::Item { file, index });
        }
    }
    if let Some(index) = find_symbol(tree, None, name, false, None) {
        return Some(Definition::Item { file, index });
    }
    let mut active: Vec<FileId> = Vec::new();
    active.push(file);
    assert(active@ =~= seq![file]);
    let spliced = resolve_includes(db, fd, ws, name, &mut active);
    if spliced.is_some() {
        return spliced;
    }
    resolve_imports(db, file, src, fd, ws, name)
}


// ---------------------------------------------------------------------------
// Names at a position
// ---------------------------------------------------------------------------

/// What `name` stands for where it is referred to at `offset`: locals first,
/// then file scope.
pub open spec fn def_at(c: CtxView, offset: u32, name: Seq<char>) -> Option<DefView> {
    match local_of(c.file, c.tree(), offset, name) {
        Some(d) => Some(d),
        None => file_def(c, offset, name),
    }
}

/// The text of `target`, seen from the file of the context: the file itself,
/// the standard library, or a file of the workspace.
pub open spec fn source_of(c: CtxView, target: FileId) -> Option<SourceText> {
    if target == c.file {
        Some(c.src)
    } else {
        let listed = if c.ws.file_srcs.contains_key(target.raw) {
            Some(c.ws.file_srcs[target.raw])
        } else {
            None
        };
        match c.ws.stdlib {
            Some((f, s)) => if f == target {
                Some(s)
            } else {
                listed
            },
            None => listed,
        }
    }
}

/// The member of `parent` with this kind and name.
pub open spec fn member_def(
    c: CtxView,
    parent: DefView,
    kind: SymbolKind,
    name: Seq<char>,
) -> Option<DefView> {
    match parent {
        DefView::Item { file, index } => match source_of(c, file) {
            Some(s) => match symbol_from(
                c.db.sources[s.id as int].syms,
                0,
                Some(index),
                name,
                false,
                Some(kind),
            ) {
                Some(i) => Some(DefView::Item { file, index: i }),
                None => None,
            },
            None => None,
        },
        DefView::Local { .. } => None,
    }
}

/// What the label `name` of field initializer `init` stands for: the field of
/// the struct that the literal around it names.
pub open spec fn literal_field_def(c: CtxView, init: int, name: Seq<char>) -> Option<DefView> {
    let t = c.tree();
    match nearest(t, init, Class::Kind(STRUCT_EXPR)) {
        Some(e) => match child_token(t, e, IDENT) {
            Some(x) => match def_at(c, t[e].start, t[x].text) {
                Some(d) => member_def(c, d, SymbolKind::StructField, name),
                None => None,
            },
            None => None,
        },
        None => None,
    }
}

/// What member `name` of member access `m` stands for: the variant of an enum,
/// where the receiver is a bare name of one.
pub open spec fn access_def(c: CtxView, m: int, name: Seq<char>) -> Option<DefView> {
    let t = c.tree();
    match child(t, m, Class::Kind(NAME_EXPR)) {
        Some(e) => match child_token(t, e, IDENT) {
            Some(x) => match def_at(c, t[e].start, t[x].text) {
                Some(d) => match d {
                    DefView::Item { file, index } => match source_of(c, file) {
                        Some(s) => {
                            let syms = c.db.sources[s.id as int].syms;
                            if index < syms.len() && syms[index as int].kind == SymbolKind::Enum {
                                member_def(c, d, SymbolKind::EnumVariant, name)
                            } else {
                                None
                            }
                        },
                        None => None,
                    },
                    DefView::Local { .. } => None,
                },
                None => None,
            },
            None => None,
        },
        None => None,
    }
}

/// What the imported name `name` of import specifier `n` stands for, through
/// its own import.
pub open spec fn specifier_def(c: CtxView, n: int, name: Seq<char>) -> Option<DefView> {
    let t = c.tree();
    match (child_token(t, n, IDENT), nearest(t, n, Class::Kind(IMPORT))) {
        (Some(x), Some(import)) => if t[x].text != name {
            None
        } else {
            match child_token(t, import, IDENT) {
                Some(y) => if t[y].text == stdlib_name() {
                    stdlib_member(c.db, c.ws, name)
                } else {
                    match symbol_from(
                        c.syms(),
                        0,
                        None,
                        t[y].text,
                        false,
                        Some(SymbolKind::Module),
                    ) {
                        Some(m) => match symbol_from(c.syms(), 0, Some(m), name, true, None) {
                            Some(index) => Some(DefView::Item { file: c.file, index }),
                            None => None,
                        },
                        None => None,
                    }
                },
                None => None,
            }
        },
        _ => None,
    }
}

/// Whether nodes of `kind` declare the identifier directly under them.
pub open spec fn declares(kind: u16) -> bool {
    kind == CIRCUIT_DEF || kind == CIRCUIT_DECL || kind == WITNESS_DECL || kind == LEDGER_DECL
        || kind == STRUCT_DEF || kind == STRUCT_FIELD || kind == ENUM_DEF || kind == ENUM_VARIANT
        || kind == MODULE_DEF || kind == TYPE_DECL || kind == CONTRACT_DECL || kind
        == CONTRACT_CIRCUIT
}

/// The index of the first symbol at or after `i` whose name stands at `range`.
pub open spec fn symbol_named_at(syms: Seq<SymbolView>, i: int, range: TextRange) -> Option<u32>
    decreases syms.len() - i,
{
    if 0 <= i < syms.len() {
        if syms[i].name_range == range {
            Some(index32(i))
        } else {
            symbol_named_at(syms, i + 1, range)
        }
    } else {
        None
    }
}

/// The item that identifier `x` under `parent` declares.
pub open spec fn declared_def(c: CtxView, parent: int, x: int) -> Option<DefView> {
    if declares(c.tree()[parent].kind) {
        match symbol_named_at(c.syms(), 0, range_of(c.tree(), x)) {
            Some(index) => Some(DefView::Item { file: c.file, index }),
            None => None,
        }
    } else {
        None
    }
}

/// What the identifier at `offset` stands for, decided by the node around it.
/// A name at the place of its definition stands for itself.
pub open spec fn resolved(c: CtxView, offset: u32) -> Option<DefView> {
    let t = c.tree();
    match ident_at(t, offset) {
        Some(x) => match t[x].parent {
            Some(p) => {
                let kind = t[p].kind;
                let name = t[x].text;
                if kind == IDENT_PAT || kind == STRUCT_PAT_FIELD {
                    Some(pattern_site_def(c.file, t, x))
                } else if kind == FOR_STMT {
                    Some(
                        DefView::Local {
                            file: c.file,
                            name,
                            name_range: range_of(t, x),
                            detail: "for "@ + name,
                        },
                    )
                } else if kind == GENERIC_PARAM {
                    Some(generic_def(c.file, t, p, x))
                } else {
                    match declared_def(c, p, x) {
                        Some(d) => Some(d),
                        None => if kind == NAME_EXPR || kind == CALL_EXPR || kind == TYPE_REF
                            || kind == STRUCT_EXPR || kind == TYPE_SIZE {
                            def_at(c, offset, name)
                        } else if kind == STRUCT_FIELD_INIT {
                            literal_field_def(c, p, name)
                        } else if kind == MEMBER_EXPR {
                            access_def(c, p, name)
                        } else if kind == IMPORT_SPECIFIER {
                            specifier_def(c, p, name)
                        } else {
                            None
                        },
                    }
                }
            },
            None => None,
        },
        None => None,
    }
}

/// Resolves `name` as if it was referred to at `offset`.
pub fn resolve_name_at(c: &Ctx, offset: u32, name: &str) -> (r: Option<Definition>)
    requires
        c@.ok(),
    ensures
        odef(r) == def_at(c@, offset, name@),
{
    let local = resolve_local_name(c.file, syntax_tree(c.db, c.src), offset, name);
    if local.is_some() {
        return local;
    }
    resolve_in_file(c.db, c.file, c.src, c.fd, c.ws, offset, name)
}

/// Resolves `name` as if it was referred to at `offset`, whatever stands there.
pub fn resolve_name_query(
    db: &CompactDatabase,
    file: FileId,
    src: SourceText,
    fd: FileDeps,
    ws: &Workspace,
    offset: u32,
    name: &str,
) -> (r: Option<Definition>)
    requires
        (CtxView { db: db@, file, src, fd, ws: ws@ }).ok(),
    ensures
        odef(r) == def_at(CtxView { db: db@, file, src, fd, ws: ws@ }, offset, name@),
{
    let c = Ctx { db, file, src, fd, ws };
    resolve_name_at(&c, offset, name)
}

/// The text of `target`, seen from `this_file`: the file itself, the standard
/// library, or a file of the workspace.
pub fn source_text_for(
    target: FileId,
    this_file: FileId,
    this_src: SourceText,
    ws: &Workspace,
) -> (r: Option<SourceText>)
    ensures
        forall|c: CtxView|
            c.file == this_file && c.src == this_src && c.ws == ws@ ==> r == #[trigger] source_of(
                c,
                target,
            ),
{
    if target == this_file {
        return Some(this_src);
    }
    if let Some((f, s)) = ws.stdlib {
        if f == target {
            return Some(s);
        }
    }
    match ws.file_srcs.get(target) {
        Some(s) => Some(*s),
        None => None,
    }
}

/// A text found from a context exists in its database.
pub proof fn lemma_source_of(c: CtxView, target: FileId)
    requires
        c.ok(),
    ensures
        source_of(c, target) matches Some(s) ==> s.id < c.db.sources.len(),
{
    if c.ws.file_srcs.contains_key(target.raw) {
        assert(c.ws.file_srcs[target.raw].id < c.db.sources.len());
    }
}

fn field_of(c: &Ctx, parent: &Definition, kind: SymbolKind, name: &str) -> (r: Option<Definition>)
    requires
        c@.ok(),
    ensures
        odef(r) == member_def(c@, parent@, kind, name@),
{
    match parent {
        Definition::Item { file, index } => {
            proof {
                lemma_source_of(c@, *file);
            }
            match source_text_for(*file, c.file, c.src, c.ws) {
                Some(s) => match find_symbol(
                    item_tree(c.db, s),
                    Some(*index),
                    name,
                    false,
                    Some(kind),
                ) {
                    Some(i) => Some(Definition::Item { file: *file, index: i }),
                    None => None,
                },
                None => None,
            }
        },
        Definition::Local { .. } => None,
    }
}

fn resolve_struct_literal_field(c: &Ctx, init: usize, name: &str) -> (r: Option<Definition>)
    requires
        c@.ok(),
        init < c@.tree().len(),
    ensures
        odef(r) == literal_field_def(c@, init as int, name@),
{
    let t = syntax_tree(c.db, c.src);
    let e = match t.nearest(init, Class::Kind(STRUCT_EXPR)) {
        Some(e) => e,
        None => {
            return None;
        },
    };
    let x = match t.child_token(e, IDENT) {
        Some(x) => x,
        None => {
            return None;
        },
    };
    match resolve_name_at(c, t.range(e).start, t.token_text(x)) {
        Some(d) => field_of(c, &d, SymbolKind::StructField, name),
        None => None,
    }
}

fn resolve_member(c: &Ctx, m: usize, name: &str) -> (r: Option<Definition>)
    requires
        c@.ok(),
        m < c@.tree().len(),
    ensures
        odef(r) == access_def(c@, m as int, name@),
{
    let t = syntax_tree(c.db, c.src);
    let e = match t.child(m, Class::Kind(NAME_EXPR)) {
        Some(e) => e,
        None => {
            return None;
        },
    };
    let x = match t.child_token(e, IDENT) {
        Some(x) => x,
        None => {
            return None;
        },
    };
    let d = match resolve_name_at(c, t.range(e).start, t.token_text(x)) {
        Some(d) => d,
        None => {
            return None;
        },
    };
    match &d {
        Definition::Item { file, index } => {
            proof {
                lemma_source_of(c@, *file);
            }
            match source_text_for(*file, c.file, c.src, c.ws) {
                Some(s) => {
                    let tree = item_tree(c.db, s);
                    let i: usize = *index as usize;
                    if i < tree.symbols.len() {
                        assert(tree@[i as int] == tree.symbols@[i as int]@);
                        if tree.symbols[i].kind == SymbolKind::Enum {
                            return field_of(c, &d, SymbolKind::EnumVariant, name);
                        }
                    }
                    None
                },
                None => None,
            }
        },
        Definition::Local { .. } => None,
    }
}

fn resolve_import_specifier(c: &Ctx, n: usize, name: &str) -> (r: Option<Definition>)
    requires
        c@.ok(),
        n < c@.tree().len(),
    ensures
        odef(r) == specifier_def(c@, n as int, name@),
{
    let t = syntax_tree(c.db, c.src);
    let tree = item_tree(c.db, c.src);
    let x = match t.child_token(n, IDENT) {
        Some(x) => x,
        None => {
            return None;
        },
    };
    let import = match t.nearest(n, Class::Kind(IMPORT)) {
        Some(i) => i,
        None => {
            return None;
        },
    };
    if !same_text(t.token_text(x), name) {
        return None;
    }
    match t.child_token(import, IDENT) {
        Some(y) => {
            let module = t.token_text(y);
            if same_text(module, "CompactStandardLibrary") {
                return resolve_stdlib_member(c.db, c.ws, name);
            }
            match find_symbol(tree, None, module, false, Some(SymbolKind::Module)) {
                Some(m) => match find_symbol(tree, Some(m), name, true, None) {
                    Some(index) => Some(Definition::Item { file: c.file, index }),
                    None => None,
                },
                None => None,
            }
        },
        None => None,
    }
}

fn is_decl_kind(kind: u16) -> (r: bool)
    ensures
        r == declares(kind),
{
    kind == CIRCUIT_DEF || kind == CIRCUIT_DECL || kind == WITNESS_DECL || kind == LEDGER_DECL
        || kind == STRUCT_DEF || kind == STRUCT_FIELD || kind == ENUM_DEF || kind == ENUM_VARIANT
        || kind == MODULE_DEF || kind == TYPE_DECL || kind == CONTRACT_DECL || kind
        == CONTRACT_CIRCUIT
}

fn item_declaration_at(c: &Ctx, parent: usize, x: usize) -> (r: Option<Definition>)
    requires
        c@.ok(),
        parent < c@.tree().len(),
        x < c@.tree().len(),
    ensures
        odef(r) == declared_def(c@, parent as int, x as int),
{
    let t = syntax_tree(c.db, c.src);
    if !is_decl_kind(t.kind(parent)) {
        return None;
    }
    let tree = item_tree(c.db, c.src);
    let range = t.range(x);
    let ghost syms = tree@;
    let mut i: usize = 0;
    while i < tree.symbols.len()
        invariant
            i <= tree.symbols@.len(),
            syms == tree@,
            symbol_named_at(syms, 0, range) == symbol_named_at(syms, i as int, range),
            declared_def(c@, parent as int, x as int) == (match symbol_named_at(syms, 0, range) {
                Some(index) => Some(DefView::Item { file: c.file, index }),
                None => None,
            }),
        decreases tree.symbols@.len() - i,
    {
        assert(syms[i as int] == tree.symbols@[i as int]@);
        if tree.symbols[i].name_range == range {
            return Some(Definition::Item { file: c.file, index: clamp_index(i) });
        }
        i = i + 1;
    }
    None
}

/// Resolves the identifier at `offset`.
pub fn resolve_at(c: &Ctx, offset: u32) -> (r: Option<Definition>)
    requires
        c@.ok(),
    ensures
        odef(r) == resolved(c@, offset),
{
    let t = syntax_tree(c.db, c.src);
    let x = match ident_at_offset(t, offset) {
        Some(x) => x,
        None => {
            return None;
        },
    };
    let p = match t.parent(x) {
        Some(p) => p,
        None => {
            return None;
        },
    };
    assert(t@[x as int].parent == Some(p as int));
    let kind: u16 = t.kind(p);
    if kind == IDENT_PAT || kind == STRUCT_PAT_FIELD {
        return Some(local_from_pattern_site(c.file, t, x));
    }
    let name = t.token_text(x);
    if kind == FOR_STMT {
        return Some(
            Definition::Local {
                file: c.file,
                name: name.to_owned(),
                name_range: t.range(x),
                detail: cat2("for ", name),
            },
        );
    }
    if kind == GENERIC_PARAM {
        return Some(generic_definition(c.file, t, p, x));
    }
    let declared = item_declaration_at(c, p, x);
    if declared.is_some() {
        return declared;
    }
    if kind == NAME_EXPR || kind == CALL_EXPR || kind == TYPE_REF || kind == STRUCT_EXPR || kind
        == TYPE_SIZE {
        resolve_name_at(c, offset, name)
    } else if kind == STRUCT_FIELD_INIT {
        resolve_struct_literal_field(c, p, name)
    } else if kind == MEMBER_EXPR {
        resolve_member(c, p, name)
    } else if kind == IMPORT_SPECIFIER {
        resolve_import_specifier(c, p, name)
    } else {
        None
    }
}

/// Resolves the identifier at `offset` to its definition.
pub fn resolve_query(
    db: &CompactDatabase,
    file: FileId,
    src: SourceText,
    fd: FileDeps,
    ws: &Workspace,
    offset: u32,
) -> (r: Option<Definition>)
    requires
        (CtxView { db: db@, file, src, fd, ws: ws@ }).ok(),
    ensures
        odef(r) == resolved(CtxView { db: db@, file, src, fd, ws: ws@ }, offset),
{
    let c = Ctx { db, file, src, fd, ws };
    resolve_at(&c, offset)
}

/// The first target of the imports from position `k` on that is file `f`.
pub open spec fn dep_source_from(deps: Seq<DepView>, k: int, f: FileId) -> Option<SourceText>
    decreases deps.len() - k,
{
    if 0 <= k < deps.len() {
        match deps[k].target {
            Some((file, s)) => if file == f {
                Some(s)
            } else {
                dep_source_from(deps, k + 1, f)
            },
            None => dep_source_from(deps, k + 1, f),
        }
    } else {
        None
    }
}

/// The text of the file in which an item is declared: the file itself or one
/// that it imports.
pub open spec fn item_source(c: CtxView, def_file: FileId) -> Option<SourceText> {
    if def_file == c.file {
        Some(c.src)
    } else {
        dep_source_from(c.deps(), 0, def_file)
    }
}

/// The symbol of an item, where its file is in reach.
pub open spec fn symbol_of_item(c: CtxView, def_file: FileId, index: u32) -> Option<SymbolView> {
    match item_source(c, def_file) {
        Some(s) => {
            let syms = c.db.sources[s.id as int].syms;
            if index < syms.len() {
                Some(syms[index as int])
            } else {
                None
            }
        },
        None => None,
    }
}

/// The text of the file in which an item is declared.
pub fn find_item_source(c: &Ctx, def_file: FileId) -> (r: Option<SourceText>)
    requires
        c@.ok(),
    ensures
        r == item_source(c@, def_file),
        r matches Some(s) ==> s.id < c@.db.sources.len(),
{
    if def_file == c.file {
        return Some(c.src);
    }
    let deps = resolved_deps(c.db, c.fd);
    let ghost list = deps_view(deps@);
    let mut k: usize = 0;
    while k < deps.len()
        invariant
            c@.ok(),
            k <= deps@.len(),
            list == deps_view(deps@),
            list == c@.db.deps[c.fd.id as int],
            def_file != c.file,
            item_source(c@, def_file) == dep_source_from(list, k as int, def_file),
        decreases deps@.len() - k,
    {
        assert(list[k as int] == deps@[k as int]@);
        assert(target_ok(c@.db, c@.db.deps[c.fd.id as int][k as int].target));
        if let Some((f, s)) = deps[k].target {
            if f == def_file {
                return Some(s);
            }
        }
        k = k + 1;
    }
    None
}

/// The symbol of an item, where its file is in reach: the file itself or one
/// that it imports.
pub fn item_symbol<'a>(c: &Ctx<'a>, def_file: FileId, index: u32) -> (r: Option<&'a Symbol>)
    requires
        c@.ok(),
    ensures
        match r {
            Some(s) => symbol_of_item(c@, def_file, index) == Some(s@),
            None => symbol_of_item(c@, def_file, index) is None,
        },
{
    match find_item_source(c, def_file) {
        Some(s) => {
            let tree = item_tree(c.db, s);
            let i: usize = index as usize;
            if i < tree.symbols.len() {
                assert(tree@[i as int] == tree.symbols@[i as int]@);
                Some(&tree.symbols[i])
            } else {
                None
            }
        },
        None => None,
    }
}

} // verus!
