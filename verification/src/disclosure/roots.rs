//! Where the disclosure analysis starts: exported circuits and the
//! constructor, each with its parameters as witnesses.

use vstd::prelude::*;
use vstd::string::*;

use crate::db::{
    file_def, is_file, item_symbol, item_tree, resolve_in_file, symbol_of_item, syntax_tree,
    CompactDatabase, Ctx, CtxView, FileDeps, SourceText, Workspace,
};
use crate::disclosure::abs::{witnesses_view, InfoView, Witness, WitnessInfo, WitnessView};
use crate::disclosure::env::{Env, WalkState};
use crate::disclosure::interp::{
    abs_of_type, int_pairs, interp_stmt, named_params, new_witness, one_witness, InterpCtx,
};
use crate::disclosure::leaks::{DisclosureSink, SinkView};
use crate::disclosure::model::{params_parts, run, typed_abs, EnvView, St, Walk};
use crate::infer::{decl_named, find_decl};
use crate::item_tree::{clamp_index, index32, ItemTree, SymbolKind, SymbolView};
use crate::kinds::{
    Class, BLOCK, CIRCUIT_DEF, CONSTRUCTOR_DEF, EXPORT_LIST, IDENT, PARAM, SOURCE_FILE,
};
use crate::resolve::{DefView, Definition};
use crate::syntax::{child, child_tokens, children, ints, oint, range_of, SyntaxTree, Tree};
use crate::text::{cat3, TextRange};
use crate::typing::{resolved_type, type_kind_resolved};
use crate::vfs::FileId;

verus! {

/// Where an analysis starts.
#[derive(Debug, PartialEq, Eq)]
pub enum Root {
    /// An exported circuit.
    Circuit { name: String, symbol: u32 },
    /// The constructor.
    Constructor { symbol: u32 },
}

/// The value of a [`Root`].
pub enum RootView {
    Circuit { name: Seq<char>, symbol: u32 },
    Constructor { symbol: u32 },
}

impl View for Root {
    type V = RootView;

    open spec fn view(&self) -> RootView {
        match self {
            Root::Circuit { name, symbol } => RootView::Circuit { name: name@, symbol: *symbol },
            Root::Constructor { symbol } => RootView::Constructor { symbol: *symbol },
        }
    }
}

/// The values of a list of roots.
pub open spec fn roots_view(s: Seq<Root>) -> Seq<RootView> {
    s.map_values(|r: Root| r@)
}

/// The container of symbol `i`, `n` steps out.
pub open spec fn container_of(syms: Seq<SymbolView>, i: int, n: nat) -> Option<int>
    decreases n,
{
    if n == 0 {
        if 0 <= i < syms.len() {
            Some(i)
        } else {
            None
        }
    } else {
        match container_of(syms, i, (n - 1) as nat) {
            Some(c) => match syms[c].parent {
                Some(p) => if p < syms.len() {
                    Some(p as int)
                } else {
                    None
                },
                None => None,
            },
            None => None,
        }
    }
}

/// Whether the container `n` steps out is a module.
pub open spec fn module_at(syms: Seq<SymbolView>, i: int, n: nat) -> bool {
    container_of(syms, i, n) matches Some(c) && syms[c].kind == SymbolKind::Module
}

/// Whether symbol `i` lies inside a module, at whatever depth.
pub open spec fn module_nested(syms: Seq<SymbolView>, i: int) -> bool {
    exists|n: nat| n > 0 && #[trigger] module_at(syms, i, n)
}

/// Steps out of two symbols that have met stay together.
proof fn lemma_containers_meet(syms: Seq<SymbolView>, i: int, a: nat, b: nat, n: nat)
    requires
        container_of(syms, i, a) == container_of(syms, i, b),
    ensures
        container_of(syms, i, a + n) == container_of(syms, i, b + n),
    decreases n,
{
    if n > 0 {
        lemma_containers_meet(syms, i, a, b, (n - 1) as nat);
    }
}

proof fn lemma_container_before(syms: Seq<SymbolView>, i: int, a: nat, b: nat)
    requires
        a <= b,
        container_of(syms, i, b) is Some,
    ensures
        container_of(syms, i, a) is Some,
        0 <= container_of(syms, i, a)->0 < syms.len(),
    decreases b,
{
    if a < b {
        lemma_container_before(syms, i, a, (b - 1) as nat);
    } else if b > 0 {
        lemma_container_before(syms, i, (b - 1) as nat, (b - 1) as nat);
    }
}

/// Where the way out ends without a module, there is none.
proof fn lemma_way_ends(syms: Seq<SymbolView>, i: int, n: nat)
    requires
        container_of(syms, i, n) is None,
        forall|m: nat| 0 < m < n ==> !#[trigger] module_at(syms, i, m),
    ensures
        !module_nested(syms, i),
{
    if module_nested(syms, i) {
        let m = choose|m: nat| m > 0 && #[trigger] module_at(syms, i, m);
        if m >= n {
            lemma_container_before(syms, i, n, m);
        }
    }
}

/// A module that is reached at all is reached in no more steps than there are
/// symbols: on a longer way out some container comes twice.
proof fn lemma_module_is_near(syms: Seq<SymbolView>, i: int, n: nat)
    requires
        n > 0,
        module_at(syms, i, n),
    ensures
        exists|m: nat| 0 < m <= syms.len() && #[trigger] module_at(syms, i, m),
    decreases n,
{
    if n > syms.len() {
        let way = Seq::new(n, |k: int| container_of(syms, i, (k + 1) as nat)->0);
        let all = vstd::set_lib::set_int_range(0, syms.len() as int);
        vstd::set_lib::lemma_int_range(0, syms.len() as int);
        assert forall|k: int| 0 <= k < way.len() implies all.contains(#[trigger] way[k]) by {
            lemma_container_before(syms, i, (k + 1) as nat, n);
        }
        if way.no_duplicates() {
            way.unique_seq_to_set();
            assert(way.to_set().subset_of(all));
            vstd::set_lib::lemma_len_subset(way.to_set(), all);
        }
        let (a, b) = choose|a: int, b: int|
            0 <= a < way.len() && 0 <= b < way.len() && a != b && #[trigger] way[a]
                == #[trigger] way[b];
        let (first, second) = if a < b {
            (a, b)
        } else {
            (b, a)
        };
        let lo = (first + 1) as nat;
        let hi = (second + 1) as nat;
        lemma_container_before(syms, i, lo, n);
        lemma_container_before(syms, i, hi, n);
        let rest = (n - hi) as nat;
        lemma_containers_meet(syms, i, lo, hi, rest);
        assert(hi + rest == n);
        assert(module_at(syms, i, lo + rest));
        lemma_module_is_near(syms, i, lo + rest);
    }
}

/// The sink and the re-exported module circuits after the exported names
/// `toks` from position `k` on. A circuit of another file is advised about.
pub open spec fn exported_names(
    c: CtxView,
    syms: Seq<SymbolView>,
    toks: Seq<int>,
    k: int,
    sink: SinkView,
    found: Seq<u32>,
) -> (SinkView, Seq<u32>)
    decreases toks.len() - k,
{
    let t = c.tree();
    if 0 <= k < toks.len() {
        let x = toks[k];
        let next = match file_def(c, t[x].start, t[x].text) {
            Some(DefView::Item { file, index }) => if file == c.file {
                if index < syms.len() && syms[index as int].kind == SymbolKind::Circuit
                    && module_nested(syms, index as int) {
                    (sink, found.push(index))
                } else {
                    (sink, found)
                }
            } else {
                match symbol_of_item(c, file, index) {
                    Some(sym) => if sym.kind == SymbolKind::Circuit {
                        (
                            sink.advised(
                                range_of(t, x),
                                "re-exported circuit `"@ + t[x].text
                                    + "` is defined in another module/file; not analyzed as a disclosing root here"@,
                            ),
                            found,
                        )
                    } else {
                        (sink, found)
                    },
                    None => (sink, found),
                }
            },
            _ => (sink, found),
        };
        exported_names(c, syms, toks, k + 1, next.0, next.1)
    } else {
        (sink, found)
    }
}

/// The same for the export lists `lists` from position `k` on.
pub open spec fn export_lists(
    c: CtxView,
    syms: Seq<SymbolView>,
    lists: Seq<int>,
    k: int,
    sink: SinkView,
    found: Seq<u32>,
) -> (SinkView, Seq<u32>)
    decreases lists.len() - k,
{
    if 0 <= k < lists.len() {
        let next = exported_names(
            c,
            syms,
            child_tokens(c.tree(), lists[k], IDENT),
            0,
            sink,
            found,
        );
        export_lists(c, syms, lists, k + 1, next.0, next.1)
    } else {
        (sink, found)
    }
}

/// The module circuits that the file exports again at its top level.
pub open spec fn reexported(c: CtxView, syms: Seq<SymbolView>, sink: SinkView) -> (
    SinkView,
    Seq<u32>,
) {
    if is_file(c.tree()) {
        export_lists(
            c,
            syms,
            children(c.tree(), 0, Class::Kind(EXPORT_LIST)),
            0,
            sink,
            Seq::empty(),
        )
    } else {
        (sink, Seq::empty())
    }
}

/// The roots among the symbols from index `i` on. An exported circuit in a
/// module is a root only where it is exported again, and else advised about.
pub open spec fn roots_from(syms: Seq<SymbolView>, i: int, again: Seq<u32>, sink: SinkView) -> (
    SinkView,
    Seq<RootView>,
)
    decreases syms.len() - i,
{
    if 0 <= i < syms.len() {
        let s = syms[i];
        if s.kind == SymbolKind::Circuit && s.exported {
            if module_nested(syms, i) && !again.contains(index32(i)) {
                roots_from(
                    syms,
                    i + 1,
                    again,
                    sink.advised(
                        s.name_range,
                        "module-nested circuit `"@ + s.name
                            + "` is not re-exported to the top level, so it is not analyzed as a disclosing root"@,
                    ),
                )
            } else {
                let r = roots_from(syms, i + 1, again, sink);
                (r.0, seq![RootView::Circuit { name: s.name, symbol: index32(i) }] + r.1)
            }
        } else if s.kind == SymbolKind::Constructor {
            let r = roots_from(syms, i + 1, again, sink);
            (r.0, seq![RootView::Constructor { symbol: index32(i) }] + r.1)
        } else {
            roots_from(syms, i + 1, again, sink)
        }
    } else {
        (sink, Seq::empty())
    }
}

/// All roots of a file.
pub open spec fn roots_of(c: CtxView, syms: Seq<SymbolView>, sink: SinkView) -> (
    SinkView,
    Seq<RootView>,
) {
    let r = reexported(c, syms, sink);
    roots_from(syms, 0, r.1, r.0)
}

/// The first constructor from index `i` on that spans `range`.
pub open spec fn constructor_at(t: Tree, i: int, range: TextRange) -> Option<int>
    decreases t.len() - i,
{
    if 0 <= i < t.len() {
        if !t[i].token && t[i].kind == CONSTRUCTOR_DEF && range_of(t, i) == range {
            Some(i)
        } else {
            constructor_at(t, i + 1, range)
        }
    } else {
        None
    }
}

/// The node that a root stands for.
pub open spec fn root_node(c: CtxView, root: RootView) -> Option<int> {
    match root {
        RootView::Circuit { symbol, .. } => if symbol < c.syms().len() {
            decl_named(c.tree(), CIRCUIT_DEF, c.syms()[symbol as int].name_range)
        } else {
            None
        },
        RootView::Constructor { symbol } => if symbol < c.syms().len() {
            constructor_at(c.tree(), 0, c.syms()[symbol as int].full_range)
        } else {
            None
        },
    }
}

/// The origin of the witness for parameter `arg` of a root.
pub open spec fn param_info(root: RootView, arg: Seq<char>) -> InfoView {
    match root {
        RootView::Circuit { name, .. } => InfoView::CircuitArg { function: name, arg },
        RootView::Constructor { .. } => InfoView::ConstructorArg { arg },
    }
}

/// The sink and environment after the parameters from position `k` on were
/// seeded: each is a value of its declared type with a new witness at every
/// leaf.
pub open spec fn seeded_from(
    c: CtxView,
    root: RootView,
    params: Seq<(int, int)>,
    k: int,
    sink: SinkView,
    env: EnvView,
) -> (SinkView, EnvView)
    decreases params.len() - k,
{
    if 0 <= k < params.len() {
        let t = c.tree();
        let (x, ty) = params[k];
        let witness = WitnessView {
            uid: sink.next_uid,
            src: range_of(t, x),
            info: param_info(root, t[x].text),
            path: Seq::empty(),
        };
        let r = typed_abs(sink.counted(), resolved_type(c, ty), seq![witness]);
        seeded_from(c, root, params, k + 1, r.0, env.insert(t[x].text, r.1))
    } else {
        (sink, env)
    }
}

/// The sink and environment with which a root is walked.
pub open spec fn seeded(c: CtxView, root: RootView, sink: SinkView) -> (SinkView, EnvView) {
    match root_node(c, root) {
        Some(n) => seeded_from(
            c,
            root,
            params_parts(c.tree(), children(c.tree(), n, Class::Kind(PARAM)), 0),
            0,
            sink,
            Map::empty(),
        ),
        None => (sink, Map::empty()),
    }
}

/// The body of a root.
pub open spec fn body_of(c: CtxView, root: RootView) -> Option<int> {
    match root_node(c, root) {
        Some(n) => child(c.tree(), n, Class::Kind(BLOCK)),
        None => None,
    }
}

/// The exported circuit that a root is.
pub open spec fn watched(root: RootView) -> Option<Seq<char>> {
    match root {
        RootView::Circuit { name, .. } => Some(name),
        RootView::Constructor { .. } => None,
    }
}

/// The sink after a root was walked.
pub open spec fn root_walked(c: CtxView, root: RootView, sink: SinkView) -> SinkView {
    let s = seeded(c, root, sink);
    match body_of(c, root) {
        Some(b) => run(
            Walk { c, f: watched(root), active: Seq::empty(), depth: 0 },
            St { sink: s.0, cache: Seq::empty(), ret: Seq::empty() },
            s.1,
            Seq::empty(),
            b,
        ).0.sink,
        None => s.0,
    }
}

fn is_module_nested(tree: &ItemTree, i: usize) -> (r: bool)
    ensures
        r == module_nested(tree@, i as int),
{
    let ghost syms = tree@;
    let count: usize = tree.symbols.len();
    let mut cur: usize = i;
    let mut n: usize = 0;
    if cur >= count {
        proof {
            lemma_way_ends(syms, i as int, 0);
        }
        return false;
    }
    while n < count
        invariant
            syms == tree@,
            count == tree.symbols@.len(),
            n <= count,
            cur < count,
            container_of(syms, i as int, n as nat) == Some(cur as int),
            forall|m: nat| 0 < m <= n ==> !#[trigger] module_at(syms, i as int, m),
        decreases count - n,
    {
        assert(syms[cur as int] == tree.symbols@[cur as int]@);
        let next: usize = match tree.symbols[cur].parent {
            Some(p) => p as usize,
            None => count,
        };
        n = n + 1;
        if next >= count {
            proof {
                assert(container_of(syms, i as int, n as nat) is None);
                lemma_way_ends(syms, i as int, n as nat);
            }
            return false;
        }
        assert(syms[next as int] == tree.symbols@[next as int]@);
        assert(container_of(syms, i as int, n as nat) == Some(next as int));
        if tree.symbols[next].kind == SymbolKind::Module {
            assert(module_at(syms, i as int, n as nat));
            return true;
        }
        cur = next;
    }
    proof {
        if module_nested(syms, i as int) {
            let m = choose|m: nat| m > 0 && #[trigger] module_at(syms, i as int, m);
            lemma_module_is_near(syms, i as int, m);
        }
    }
    false
}

fn push_exported_names(
    c: &Ctx,
    tree: &ItemTree,
    list: usize,
    sink: &mut DisclosureSink,
    found: &mut Vec<u32>,
)
    requires
        c@.ok(),
        list < c@.tree().len(),
    ensures
        (final(sink)@, final(found)@) == exported_names(
            c@,
            tree@,
            child_tokens(c@.tree(), list as int, IDENT),
            0,
            old(sink)@,
            old(found)@,
        ),
{
    let t = syntax_tree(c.db, c.src);
    let toks = t.child_tokens(list, IDENT);
    let ghost all = ints(toks@);
    let ghost syms = tree@;
    let ghost whole = exported_names(c@, syms, all, 0, sink@, found@);
    let mut k: usize = 0;
    while k < toks.len()
        invariant
            c@.ok(),
            t@ == c@.tree(),
            syms == tree@,
            k <= toks@.len(),
            all == ints(toks@),
            forall|k: int| #![trigger toks@[k]] 0 <= k < toks@.len() ==> toks@[k] < t@.len(),
            exported_names(c@, syms, all, k as int, sink@, found@) == whole,
        decreases toks@.len() - k,
    {
        let x: usize = toks[k];
        assert(all[k as int] == x);
        let name = t.token_text(x);
        let d = resolve_in_file(c.db, c.file, c.src, c.fd, c.ws, t.range(x).start, name);
        if let Some(Definition::Item { file, index }) = d {
            if file == c.file {
                let i: usize = index as usize;
                if i < tree.symbols.len() {
                    assert(syms[i as int] == tree.symbols@[i as int]@);
                    if tree.symbols[i].kind == SymbolKind::Circuit && is_module_nested(tree, i) {
                        found.push(index);
                    }
                }
            } else if let Some(sym) = item_symbol(c, file, index) {
                if sym.kind == SymbolKind::Circuit {
                    let reason = cat3(
                        "re-exported circuit `",
                        name,
                        "` is defined in another module/file; not analyzed as a disclosing root here",
                    );
                    sink.emit_advisory(t.range(x), &reason);
                }
            }
        }
        k = k + 1;
    }
}

fn reexported_module_circuits(c: &Ctx, tree: &ItemTree, sink: &mut DisclosureSink) -> (r: Vec<u32>)
    requires
        c@.ok(),
    ensures
        (final(sink)@, r@) == reexported(c@, tree@, old(sink)@),
{
    let t = syntax_tree(c.db, c.src);
    let mut found: Vec<u32> = Vec::new();
    assert(found@ =~= Seq::<u32>::empty());
    if t.len() == 0 || t.is_token(0) || t.kind(0) != SOURCE_FILE {
        return found;
    }
    let lists = t.children(0, Class::Kind(EXPORT_LIST));
    let ghost all = ints(lists@);
    let ghost syms = tree@;
    let ghost whole = export_lists(c@, syms, all, 0, sink@, found@);
    let mut k: usize = 0;
    while k < lists.len()
        invariant
            c@.ok(),
            t@ == c@.tree(),
            syms == tree@,
            k <= lists@.len(),
            all == ints(lists@),
            forall|k: int| #![trigger lists@[k]] 0 <= k < lists@.len() ==> lists@[k] < t@.len(),
            export_lists(c@, syms, all, k as int, sink@, found@) == whole,
        decreases lists@.len() - k,
    {
        assert(all[k as int] == lists@[k as int]);
        push_exported_names(c, tree, lists[k], sink, &mut found);
        k = k + 1;
    }
    found
}

fn contains_index(list: &Vec<u32>, i: u32) -> (r: bool)
    ensures
        r == list@.contains(i),
{
    let mut k: usize = 0;
    while k < list.len()
        invariant
            k <= list@.len(),
            forall|j: int| 0 <= j < k ==> list@[j] != i,
        decreases list@.len() - k,
    {
        if list[k] == i {
            assert(list@[k as int] == i);
            return true;
        }
        k = k + 1;
    }
    false
}

/// Finds the roots of a file: exported circuits and the constructor. A circuit
/// inside a module counts only where the file exports it again; other exported
/// circuits of modules are advised about.
pub fn discover_roots(ctx: &InterpCtx, tree: &ItemTree, sink: &mut DisclosureSink) -> (r: Vec<Root>)
    requires
        ctx.c().ok(),
    ensures
        (final(sink)@, roots_view(r@)) == roots_of(ctx.c(), tree@, old(sink)@),
{
    let c = ctx.ctx();
    let again = reexported_module_circuits(&c, tree, sink);
    let ghost syms = tree@;
    let ghost whole = roots_from(syms, 0, again@, sink@);
    let mut out: Vec<Root> = Vec::new();
    let mut i: usize = 0;
    assert(roots_view(out@) + whole.1 =~= whole.1);
    while i < tree.symbols.len()
        invariant
            i <= tree.symbols@.len(),
            syms == tree@,
            roots_from(syms, i as int, again@, sink@).0 == whole.0,
            roots_view(out@) + roots_from(syms, i as int, again@, sink@).1 == whole.1,
        decreases tree.symbols@.len() - i,
    {
        let s = &tree.symbols[i];
        assert(syms[i as int] == s@);
        let ghost before = roots_view(out@);
        let index: u32 = clamp_index(i);
        if s.kind == SymbolKind::Circuit && s.exported {
            if is_module_nested(tree, i) && !contains_index(&again, index) {
                let reason = cat3(
                    "module-nested circuit `",
                    &s.name,
                    "` is not re-exported to the top level, so it is not analyzed as a disclosing root",
                );
                sink.emit_advisory(s.name_range, &reason);
            } else {
                let ghost rest = roots_from(syms, i + 1, again@, sink@).1;
                let r = Root::Circuit { name: s.name.clone(), symbol: index };
                let ghost own = r@;
                out.push(r);
                assert(roots_view(out@) =~= before.push(own));
                assert(before + (seq![own] + rest) =~= before.push(own) + rest);
            }
        } else if s.kind == SymbolKind::Constructor {
            let ghost rest = roots_from(syms, i + 1, again@, sink@).1;
            let r = Root::Constructor { symbol: index };
            let ghost own = r@;
            out.push(r);
            assert(roots_view(out@) =~= before.push(own));
            assert(before + (seq![own] + rest) =~= before.push(own) + rest);
        }
        i = i + 1;
    }
    assert(roots_view(out@) + Seq::<RootView>::empty() =~= roots_view(out@));
    out
}

fn find_constructor(t: &SyntaxTree, range: TextRange) -> (r: Option<usize>)
    ensures
        oint(r) == constructor_at(t@, 0, range),
        r matches Some(n) ==> n < t@.len(),
{
    let end: usize = t.len();
    let mut i: usize = 0;
    while i < end
        invariant
            end == t@.len(),
            constructor_at(t@, 0, range) == constructor_at(t@, i as int, range),
        decreases end - i,
    {
        if !t.is_token(i) && t.kind(i) == CONSTRUCTOR_DEF && t.range(i) == range {
            return Some(i);
        }
        i = i + 1;
    }
    None
}

fn find_root_node(c: &Ctx, root: &Root) -> (r: Option<usize>)
    requires
        c@.ok(),
    ensures
        oint(r) == root_node(c@, root@),
        r matches Some(n) ==> n < c@.tree().len(),
{
    let t = syntax_tree(c.db, c.src);
    let tree = item_tree(c.db, c.src);
    match root {
        Root::Circuit { symbol, .. } => {
            let i: usize = *symbol as usize;
            if i >= tree.symbols.len() {
                return None;
            }
            assert(tree@[i as int] == tree.symbols@[i as int]@);
            find_decl(t, CIRCUIT_DEF, tree.symbols[i].name_range)
        },
        Root::Constructor { symbol } => {
            let i: usize = *symbol as usize;
            if i >= tree.symbols.len() {
                return None;
            }
            assert(tree@[i as int] == tree.symbols@[i as int]@);
            find_constructor(t, tree.symbols[i].full_range)
        },
    }
}

/// Binds the parameters of a root to values of their declared types, each with
/// a new witness.
pub fn seed_sources(
    db: &CompactDatabase,
    file: FileId,
    src: SourceText,
    fd: FileDeps,
    ws: &Workspace,
    root: &Root,
    sink: &mut DisclosureSink,
) -> (r: Env)
    requires
        (CtxView { db: db@, file, src, fd, ws: ws@ }).ok(),
    ensures
        (final(sink)@, r@) == seeded(
            CtxView { db: db@, file, src, fd, ws: ws@ },
            root@,
            old(sink)@,
        ),
{
    let c = Ctx { db, file, src, fd, ws };
    let t = syntax_tree(db, src);
    let mut env = Env::new();
    let n = match find_root_node(&c, root) {
        Some(n) => n,
        None => {
            return env;
        },
    };
    let params = named_params(t, n);
    let ghost list = int_pairs(params@);
    let ghost whole = seeded_from(c@, root@, list, 0, sink@, env@);
    let mut k: usize = 0;
    while k < params.len()
        invariant
            c@.ok(),
            t@ == c@.tree(),
            k <= params@.len(),
            list == int_pairs(params@),
            forall|k: int|
                #![trigger params@[k]]
                0 <= k < params@.len() ==> params@[k].0 < t@.len() && params@[k].1 < t@.len(),
            seeded_from(c@, root@, list, k as int, sink@, env@) == whole,
        decreases params@.len() - k,
    {
        let (x, ty) = params[k];
        assert(list[k as int] == (x as int, ty as int));
        let name = t.token_text(x);
        let kind = type_kind_resolved(&c, ty);
        let info = match root {
            Root::Circuit { name: function, .. } => WitnessInfo::CircuitArg {
                function: function.clone(),
                arg: name.to_owned(),
            },
            Root::Constructor { .. } => WitnessInfo::ConstructorArg { arg: name.to_owned() },
        };
        let uid: u32 = sink.next_witness_uid();
        let seed = one_witness(new_witness(uid, t.range(x), info));
        let a = abs_of_type(sink, &kind, &seed);
        env.insert(name.to_owned(), a);
        k = k + 1;
    }
    env
}

/// Seeds and walks one root. What it leaks and what could not be decided goes
/// to `sink`.
pub fn interp_root(ctx: &InterpCtx, sink: &mut DisclosureSink, root: &Root)
    requires
        ctx.c().ok(),
    ensures
        final(sink)@ == root_walked(ctx.c(), root@, old(sink)@),
{
    let disclosing_fn: Option<&str> = match root {
        Root::Circuit { name, .. } => Some(name.as_str()),
        Root::Constructor { .. } => None,
    };
    let inner = InterpCtx {
        db: ctx.db,
        file: ctx.file,
        src: ctx.src,
        fd: ctx.fd,
        ws: ctx.ws,
        disclosing_fn,
    };
    let c = ctx.ctx();
    let mut env = seed_sources(ctx.db, ctx.file, ctx.src, ctx.fd, ctx.ws, root, sink);
    let t = ctx.tree();
    let n = match find_root_node(&c, root) {
        Some(n) => n,
        None => {
            return;
        },
    };
    let body = match t.child(n, Class::Kind(BLOCK)) {
        Some(b) => b,
        None => {
            return;
        },
    };
    let mut state = WalkState::new();
    let control: Vec<Witness> = Vec::new();
    assert(witnesses_view(control@) =~= Seq::<WitnessView>::empty());
    interp_stmt(&inner, sink, &mut state, &mut env, &control, body);
}

} // verus!
