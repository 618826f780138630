//! Types that need names looked up: named types, expressions and callees.

use vstd::prelude::*;
use vstd::string::*;

use crate::db::{
    item_symbol, item_tree, lemma_source_of, resolve_at, resolved, source_of, source_text_for,
    symbol_of_item, syntax_tree, Ctx, CtxView, FileDeps, SourceText,
};
use crate::infer::{
    annotated, decl_named, expr_ty_kind, find_decl, lower_type_node, lowered, shown_type,
    type_node_kind,
};
use crate::item_tree::{ItemTree, Symbol, SymbolKind, SymbolView};
use crate::kinds::{
    Class, ARRAY_EXPR, CALL_EXPR, CAST_EXPR, CIRCUIT_DEF, CONST_STMT, DOT, IDENT, IDENT_PAT,
    LITERAL_EXPR, MEMBER_EXPR, NAME_EXPR, PARAM, STRUCT_DEF, STRUCT_EXPR, STRUCT_FIELD, TYPE_REF,
    WITNESS_DECL,
};
use crate::resolve::{anchor, anchor_token, DefView, Definition};
use crate::syntax::{
    child, child_token, children, ints, nearest, oint, range_of, well_formed, SyntaxTree, Tree,
};
use crate::text::{same_text, texts, TextRange};
use crate::ty::{
    fields_view, lemma_struct_view, tys_view, TyKind, TyView,
};
use crate::vfs::FileId;

verus! {

/// How many steps a chain of names is followed.
pub const MAX_NOMINAL_DEPTH: usize = 32;

// ---------------------------------------------------------------------------
// Named types
// ---------------------------------------------------------------------------

/// The variant names of the enum with the given index, from symbol `i` on.
pub open spec fn variant_names(syms: Seq<SymbolView>, i: int, index: u32) -> Seq<Seq<char>>
    decreases syms.len() - i,
{
    if 0 <= i < syms.len() {
        let rest = variant_names(syms, i + 1, index);
        if syms[i].parent == Some(index) && syms[i].kind == SymbolKind::EnumVariant {
            seq![syms[i].name] + rest
        } else {
            rest
        }
    } else {
        Seq::empty()
    }
}

/// The imports of `target`, seen from the context: its own where it is the
/// file itself, and else those that the workspace lists.
pub open spec fn deps_of(c: CtxView, target: FileId) -> Option<FileDeps> {
    if target == c.file {
        Some(c.fd)
    } else if c.ws.file_deps.contains_key(target.raw) {
        Some(c.ws.file_deps[target.raw])
    } else {
        None
    }
}

/// The type that the name at `offset` declares. Structs on the path `visited`
/// and chains beyond the limit are unknown, so that no cycle is followed.
pub open spec fn named_type(c: CtxView, offset: u32, visited: Seq<Seq<char>>) -> TyView
    decreases MAX_NOMINAL_DEPTH - visited.len(), 0int, 0int,
{
    if visited.len() >= MAX_NOMINAL_DEPTH {
        TyView::Unknown
    } else {
        match resolved(c, offset) {
            Some(DefView::Item { file, index }) => match source_of(c, file) {
                Some(s) => {
                    let syms = c.db.sources[s.id as int].syms;
                    let t = c.db.sources[s.id as int].tree;
                    if index >= syms.len() {
                        TyView::Unknown
                    } else {
                        let sym = syms[index as int];
                        if sym.kind == SymbolKind::Struct {
                            if visited.contains(sym.name) {
                                TyView::Unknown
                            } else {
                                TyView::Struct {
                                    name: sym.name,
                                    fields: match decl_named(t, STRUCT_DEF, sym.name_range) {
                                        Some(n) => struct_fields(
                                            CtxView { file, src: s, ..c },
                                            deps_of(c, file),
                                            children(t, n, Class::Kind(STRUCT_FIELD)),
                                            0,
                                            visited.push(sym.name),
                                        ),
                                        None => Seq::empty(),
                                    },
                                }
                            }
                        } else if sym.kind == SymbolKind::Enum {
                            TyView::Enum {
                                name: sym.name,
                                variants: variant_names(syms, 0, index),
                            }
                        } else {
                            TyView::Unknown
                        }
                    }
                },
                None => TyView::Unknown,
            },
            _ => TyView::Unknown,
        }
    }
}

/// The named fields among `kids` from position `k` on, each with its type. The
/// file of the context declares the struct, `fd` are its imports.
pub open spec fn struct_fields(
    c: CtxView,
    fd: Option<FileDeps>,
    kids: Seq<int>,
    k: int,
    visited: Seq<Seq<char>>,
) -> Seq<(Seq<char>, TyView)>
    decreases MAX_NOMINAL_DEPTH - visited.len(), 2int, kids.len() - k,
{
    if 0 <= k < kids.len() && visited.len() <= MAX_NOMINAL_DEPTH {
        let t = c.tree();
        let rest = struct_fields(c, fd, kids, k + 1, visited);
        match child_token(t, kids[k], IDENT) {
            Some(x) => seq![
                (
                    t[x].text,
                    match child(t, kids[k], Class::Type) {
                        Some(ty) => field_type(c, fd, ty, visited),
                        None => TyView::Unknown,
                    },
                ),
            ] + rest,
            None => rest,
        }
    } else {
        Seq::empty()
    }
}

/// The type of annotation `ty` in the file of the context. A name is looked up
/// where the imports of the file are known.
pub open spec fn field_type(
    c: CtxView,
    fd: Option<FileDeps>,
    ty: int,
    visited: Seq<Seq<char>>,
) -> TyView
    decreases MAX_NOMINAL_DEPTH - visited.len(), 1int, 0int,
{
    let t = c.tree();
    if t[ty].kind == TYPE_REF {
        match (child_token(t, ty, IDENT), fd) {
            (Some(x), Some(d)) => if visited.len() <= MAX_NOMINAL_DEPTH {
                named_type(CtxView { fd: d, ..c }, t[x].start, visited)
            } else {
                TyView::Unknown
            },
            _ => TyView::Unknown,
        }
    } else {
        lowered(t, ty)
    }
}

/// The type of annotation `ty`, names looked up.
pub open spec fn resolved_type(c: CtxView, ty: int) -> TyView {
    field_type(c, Some(c.fd), ty, Seq::empty())
}

fn collect_variants(tree: &ItemTree, index: u32) -> (r: Vec<String>)
    ensures
        texts(r@) == variant_names(tree@, 0, index),
{
    let ghost syms = tree@;
    let ghost whole = variant_names(syms, 0, index);
    let mut out: Vec<String> = Vec::new();
    let mut i: usize = 0;
    assert(texts(out@) + whole =~= whole);
    while i < tree.symbols.len()
        invariant
            i <= tree.symbols@.len(),
            syms == tree@,
            texts(out@) + variant_names(syms, i as int, index) == whole,
        decreases tree.symbols@.len() - i,
    {
        let s = &tree.symbols[i];
        assert(syms[i as int] == s@);
        if s.parent == Some(index) && s.kind == SymbolKind::EnumVariant {
            let ghost before = texts(out@);
            let ghost rest = variant_names(syms, i + 1, index);
            out.push(s.name.clone());
            assert(texts(out@) =~= before.push(s@.name));
            assert(before + (seq![s@.name] + rest) =~= before.push(s@.name) + rest);
        }
        i = i + 1;
    }
    assert(texts(out@) + Seq::<Seq<char>>::empty() =~= texts(out@));
    out
}

fn contains_text(list: &Vec<String>, s: &str) -> (r: bool)
    ensures
        r == texts(list@).contains(s@),
{
    let mut i: usize = 0;
    while i < list.len()
        invariant
            i <= list@.len(),
            forall|j: int| 0 <= j < i ==> list@[j]@ != s@,
        decreases list@.len() - i,
    {
        if same_text(&list[i], s) {
            assert(texts(list@)[i as int] == s@);
            return true;
        }
        i = i + 1;
    }
    assert forall|j: int| 0 <= j < texts(list@).len() implies texts(list@)[j] != s@ by {
        assert(list@[j]@ != s@);
    }
    false
}

/// The imports of `target`, seen from the context.
fn deps_for(c: &Ctx, target: FileId) -> (r: Option<FileDeps>)
    requires
        c@.ok(),
    ensures
        r == deps_of(c@, target),
        r matches Some(d) ==> d.id < c@.db.deps.len(),
{
    if target == c.file {
        return Some(c.fd);
    }
    match c.ws.file_deps.get(target) {
        Some(d) => {
            assert(c@.ws.file_deps[target.raw].id < c@.db.deps.len());
            Some(*d)
        },
        None => None,
    }
}

proof fn lemma_moved_ok(c: CtxView, file: FileId, src: SourceText, fd: FileDeps)
    requires
        c.ok(),
        src.id < c.db.sources.len(),
        fd.id < c.db.deps.len(),
    ensures
        (CtxView { file, src, fd, ..c }).ok(),
{
    assert(c.db.sources[src.id as int].syms == crate::item_tree::symbols_of(
        c.db.sources[src.id as int].tree,
    ));
}

fn lower_named_at(c: &Ctx, offset: u32, visited: &mut Vec<String>) -> (r: TyKind)
    requires
        c@.ok(),
    ensures
        texts(final(visited)@) == texts(old(visited)@),
        r@ == named_type(c@, offset, texts(old(visited)@)),
    decreases MAX_NOMINAL_DEPTH - old(visited)@.len(), 0int,
{
    let ghost path = texts(visited@);
    assert(path.len() == visited@.len());
    if visited.len() >= MAX_NOMINAL_DEPTH {
        return TyKind::Unknown;
    }
    let (file, index) = match resolve_at(c, offset) {
        Some(Definition::Item { file, index }) => (file, index),
        _ => {
            return TyKind::Unknown;
        },
    };
    proof {
        lemma_source_of(c@, file);
    }
    let s = match source_text_for(file, c.file, c.src, c.ws) {
        Some(s) => s,
        None => {
            return TyKind::Unknown;
        },
    };
    let tree = item_tree(c.db, s);
    let i: usize = index as usize;
    if i >= tree.symbols.len() {
        return TyKind::Unknown;
    }
    let sym = &tree.symbols[i];
    assert(tree@[i as int] == sym@);
    if sym.kind == SymbolKind::Struct {
        if contains_text(visited, &sym.name) {
            return TyKind::Unknown;
        }
        let fd = deps_for(c, file);
        let t = syntax_tree(c.db, s);
        assert(well_formed(c@.db.sources[s.id as int].tree));
        let name = sym.name.clone();
        let fields: Vec<(String, TyKind)> = match find_decl(t, STRUCT_DEF, sym.name_range) {
            Some(n) => {
                let kids = t.children(n, Class::Kind(STRUCT_FIELD));
                visited.push(sym.name.clone());
                assert(texts(visited@) =~= path.push(sym@.name));
                proof {
                    lemma_moved_ok(c@, file, s, c@.fd);
                }
                let inner = Ctx { db: c.db, file, src: s, fd: c.fd, ws: c.ws };
                let fields = build_struct_fields(&inner, fd, &kids, visited);
                assert(texts(visited@).drop_last() =~= path);
                let ghost before = texts(visited@);
                visited.pop();
                assert(texts(visited@) =~= before.drop_last());
                fields
            },
            None => {
                let none: Vec<(String, TyKind)> = Vec::new();
                assert(fields_view(none@) =~= Seq::<(Seq<char>, TyView)>::empty());
                none
            },
        };
        proof {
            lemma_struct_view(name, fields);
        }
        TyKind::Struct { name, fields }
    } else if sym.kind == SymbolKind::Enum {
        TyKind::Enum { name: sym.name.clone(), variants: collect_variants(tree, index) }
    } else {
        TyKind::Unknown
    }
}

fn build_struct_fields(
    c: &Ctx,
    fd: Option<FileDeps>,
    kids: &Vec<usize>,
    visited: &mut Vec<String>,
) -> (r: Vec<(String, TyKind)>)
    requires
        c@.ok(),
        fd matches Some(d) ==> d.id < c@.db.deps.len(),
        old(visited)@.len() <= MAX_NOMINAL_DEPTH,
        forall|k: int| #![trigger kids@[k]] 0 <= k < kids@.len() ==> kids@[k] < c@.tree().len(),
    ensures
        texts(final(visited)@) == texts(old(visited)@),
        fields_view(r@) == struct_fields(c@, fd, ints(kids@), 0, texts(old(visited)@)),
    decreases MAX_NOMINAL_DEPTH - old(visited)@.len(), 2int,
{
    let t = syntax_tree(c.db, c.src);
    let ghost path = texts(visited@);
    assert(path.len() == visited@.len());
    let ghost list = ints(kids@);
    let ghost whole = struct_fields(c@, fd, list, 0, path);
    let mut out: Vec<(String, TyKind)> = Vec::new();
    let mut k: usize = 0;
    assert(fields_view(out@) + whole =~= whole);
    while k < kids.len()
        invariant
            c@.ok(),
            t@ == c@.tree(),
            k <= kids@.len(),
            list == ints(kids@),
            path == texts(visited@),
            path == texts(old(visited)@),
            path.len() <= MAX_NOMINAL_DEPTH,
            visited@.len() == path.len(),
            old(visited)@.len() == path.len(),
            fd matches Some(d) ==> d.id < c@.db.deps.len(),
            forall|k: int| #![trigger kids@[k]] 0 <= k < kids@.len() ==> kids@[k] < t@.len(),
            fields_view(out@) + struct_fields(c@, fd, list, k as int, path) == whole,
        decreases kids@.len() - k,
    {
        let f: usize = kids[k];
        assert(list[k as int] == f);
        let ghost before = fields_view(out@);
        let ghost rest = struct_fields(c@, fd, list, k + 1, path);
        if let Some(x) = t.child_token(f, IDENT) {
            let ty = match t.child(f, Class::Type) {
                Some(ty) => lower_type_in(c, fd, ty, visited),
                None => TyKind::Unknown,
            };
            assert(texts(visited@).len() == visited@.len());
            let name = t.token_text(x).to_owned();
            let ghost own = (name@, ty@);
            out.push((name, ty));
            assert(fields_view(out@) =~= before.push(own));
            assert(before + (seq![own] + rest) =~= before.push(own) + rest);
        }
        k = k + 1;
    }
    assert(fields_view(out@) + Seq::<(Seq<char>, TyView)>::empty() =~= fields_view(out@));
    out
}

fn lower_type_in(c: &Ctx, fd: Option<FileDeps>, ty: usize, visited: &mut Vec<String>) -> (r: TyKind)
    requires
        c@.ok(),
        ty < c@.tree().len(),
        old(visited)@.len() <= MAX_NOMINAL_DEPTH,
        fd matches Some(d) ==> d.id < c@.db.deps.len(),
    ensures
        texts(final(visited)@) == texts(old(visited)@),
        r@ == field_type(c@, fd, ty as int, texts(old(visited)@)),
    decreases MAX_NOMINAL_DEPTH - old(visited)@.len(), 1int,
{
    let t = syntax_tree(c.db, c.src);
    assert(texts(visited@).len() == visited@.len());
    if t.kind(ty) == TYPE_REF {
        match (t.child_token(ty, IDENT), fd) {
            (Some(x), Some(d)) => {
                proof {
                    lemma_moved_ok(c@, c@.file, c@.src, d);
                }
                let inner = Ctx { db: c.db, file: c.file, src: c.src, fd: d, ws: c.ws };
                lower_named_at(&inner, t.range(x).start, visited)
            },
            _ => TyKind::Unknown,
        }
    } else {
        lower_type_node(t, ty)
    }
}

/// The type that the name at `name_offset` declares: a struct with the types
/// of its fields, or an enum. Everything else is unknown.
pub fn named_type_ty(c: &Ctx, name_offset: u32) -> (r: TyKind)
    requires
        c@.ok(),
    ensures
        r@ == named_type(c@, name_offset, Seq::empty()),
{
    let mut visited: Vec<String> = Vec::new();
    assert(texts(visited@) =~= Seq::<Seq<char>>::empty());
    lower_named_at(c, name_offset, &mut visited)
}

/// The type of annotation `ty`, names looked up.
pub fn type_kind_resolved(c: &Ctx, ty: usize) -> (r: TyKind)
    requires
        c@.ok(),
        ty < c@.tree().len(),
    ensures
        r@ == resolved_type(c@, ty as int),
{
    let mut visited: Vec<String> = Vec::new();
    assert(texts(visited@) =~= Seq::<Seq<char>>::empty());
    lower_type_in(c, Some(c.fd), ty, &mut visited)
}


// ---------------------------------------------------------------------------
// Callees
// ---------------------------------------------------------------------------

/// Whether symbols of this kind can be called.
pub open spec fn callable(kind: SymbolKind) -> bool {
    kind == SymbolKind::Circuit || kind == SymbolKind::Witness
}

/// How many of the first `n` symbols are called `name` and can be called.
pub open spec fn callables_named(syms: Seq<SymbolView>, n: int, name: Seq<char>) -> nat
    decreases n,
{
    if 0 < n <= syms.len() {
        callables_named(syms, n - 1, name) + (if syms[n - 1].name == name && callable(
            syms[n - 1].kind,
        ) {
            1nat
        } else {
            0nat
        })
    } else {
        0
    }
}

/// The callee that the name at `offset` stands for, where there is no doubt
/// about it: a circuit or witness of the same file that is not generic and
/// shares its name with no other.
pub open spec fn sure_callee(c: CtxView, offset: u32) -> Option<SymbolView> {
    match resolved(c, offset) {
        Some(DefView::Item { file, index }) => if file != c.file {
            None
        } else {
            match symbol_of_item(c, file, index) {
                Some(sym) => if callable(sym.kind) && sym.generic_param_count == 0
                    && callables_named(c.syms(), c.syms().len() as int, sym.name) == 1 {
                    Some(sym)
                } else {
                    None
                },
                None => None,
            }
        },
        _ => None,
    }
}

/// The node that declares callee `sym`.
pub open spec fn callee_node(t: Tree, sym: SymbolView) -> Option<int> {
    if sym.kind == SymbolKind::Circuit {
        decl_named(t, CIRCUIT_DEF, sym.name_range)
    } else {
        decl_named(t, WITNESS_DECL, sym.name_range)
    }
}

/// The declared return type of the callee of call `n`: unknown for a method
/// call, a callee in doubt, or one without annotation.
pub open spec fn call_type(c: CtxView, n: int) -> TyView {
    let t = c.tree();
    if child_token(t, n, DOT) is Some {
        TyView::Unknown
    } else {
        match child_token(t, n, IDENT) {
            Some(x) => match sure_callee(c, t[x].start) {
                Some(sym) => match callee_node(t, sym) {
                    Some(d) => match child(t, d, Class::Type) {
                        Some(ty) => resolved_type(c, ty),
                        None => TyView::Unknown,
                    },
                    None => TyView::Unknown,
                },
                None => TyView::Unknown,
            },
            None => TyView::Unknown,
        }
    }
}

/// The types of the parameters `kids` from position `k` on.
pub open spec fn param_types(t: Tree, kids: Seq<int>, k: int) -> Seq<TyView>
    decreases kids.len() - k,
{
    if 0 <= k < kids.len() {
        seq![
            match child(t, kids[k], Class::Type) {
                Some(ty) => annotated(t, ty),
                None => TyView::Unknown,
            },
        ] + param_types(t, kids, k + 1)
    } else {
        Seq::empty()
    }
}

/// The parameter types of the callee that the name at `offset` stands for,
/// where there is no doubt about it.
pub open spec fn callee_params(c: CtxView, offset: u32) -> Option<Seq<TyView>> {
    match sure_callee(c, offset) {
        Some(sym) => match callee_node(c.tree(), sym) {
            Some(d) => Some(
                param_types(
                    c.tree(),
                    children(
                        c.tree(),
                        d,
                        Class::Kind(
                            if sym.kind == SymbolKind::Circuit {
                                PARAM
                            } else {
                                STRUCT_FIELD
                            },
                        ),
                    ),
                    0,
                ),
            ),
            None => None,
        },
        None => None,
    }
}

fn is_callable(kind: SymbolKind) -> (r: bool)
    ensures
        r == callable(kind),
{
    kind == SymbolKind::Circuit || kind == SymbolKind::Witness
}

proof fn lemma_callables_bound(syms: Seq<SymbolView>, n: int, name: Seq<char>)
    requires
        0 <= n <= syms.len(),
    ensures
        callables_named(syms, n, name) <= n,
    decreases n,
{
    if n > 0 {
        lemma_callables_bound(syms, n - 1, name);
    }
}

fn count_callables(tree: &ItemTree, name: &str) -> (r: usize)
    ensures
        r == callables_named(tree@, tree@.len() as int, name@),
{
    let ghost syms = tree@;
    let mut count: usize = 0;
    let mut i: usize = 0;
    while i < tree.symbols.len()
        invariant
            i <= tree.symbols@.len(),
            syms == tree@,
            count == callables_named(syms, i as int, name@),
            count <= i,
        decreases tree.symbols@.len() - i,
    {
        let s = &tree.symbols[i];
        assert(syms[i as int] == s@);
        if same_text(&s.name, name) && is_callable(s.kind) {
            count = count + 1;
        }
        i = i + 1;
    }
    count
}

fn find_sure_callee<'a>(c: &Ctx<'a>, offset: u32) -> (r: Option<&'a Symbol>)
    requires
        c@.ok(),
    ensures
        match r {
            Some(s) => sure_callee(c@, offset) == Some(s@) && callable(s.kind),
            None => sure_callee(c@, offset) is None,
        },
{
    let (file, index) = match resolve_at(c, offset) {
        Some(Definition::Item { file, index }) => (file, index),
        _ => {
            return None;
        },
    };
    if file != c.file {
        return None;
    }
    let sym = match item_symbol(c, file, index) {
        Some(s) => s,
        None => {
            return None;
        },
    };
    if !is_callable(sym.kind) || sym.generic_param_count > 0 {
        return None;
    }
    if count_callables(item_tree(c.db, c.src), &sym.name) != 1 {
        return None;
    }
    Some(sym)
}

fn find_callee_node(t: &SyntaxTree, sym: &Symbol) -> (r: Option<usize>)
    requires
        well_formed(t@),
    ensures
        oint(r) == callee_node(t@, sym@),
        r matches Some(n) ==> n < t@.len(),
{
    if sym.kind == SymbolKind::Circuit {
        find_decl(t, CIRCUIT_DEF, sym.name_range)
    } else {
        find_decl(t, WITNESS_DECL, sym.name_range)
    }
}

/// The declared return type of the callee of call `n`.
pub fn callee_return_ty(c: &Ctx, n: usize) -> (r: TyKind)
    requires
        c@.ok(),
        n < c@.tree().len(),
    ensures
        r@ == call_type(c@, n as int),
{
    let t = syntax_tree(c.db, c.src);
    if t.child_token(n, DOT).is_some() {
        return TyKind::Unknown;
    }
    let x = match t.child_token(n, IDENT) {
        Some(x) => x,
        None => {
            return TyKind::Unknown;
        },
    };
    let sym = match find_sure_callee(c, t.range(x).start) {
        Some(s) => s,
        None => {
            return TyKind::Unknown;
        },
    };
    match find_callee_node(t, sym) {
        Some(d) => match t.child(d, Class::Type) {
            Some(ty) => type_kind_resolved(c, ty),
            None => TyKind::Unknown,
        },
        None => TyKind::Unknown,
    }
}

/// The parameter types of a callee.
pub struct CalleeSig {
    pub params: Vec<TyKind>,
}

/// The parameter types of the callee that the name at `callee_off` stands for,
/// where there is no doubt about it.
pub fn callee_sig(c: &Ctx, callee_off: u32) -> (r: Option<CalleeSig>)
    requires
        c@.ok(),
    ensures
        match r {
            Some(sig) => callee_params(c@, callee_off) == Some(tys_view(sig.params@)),
            None => callee_params(c@, callee_off) is None,
        },
{
    let t = syntax_tree(c.db, c.src);
    let sym = match find_sure_callee(c, callee_off) {
        Some(s) => s,
        None => {
            return None;
        },
    };
    let d = match find_callee_node(t, sym) {
        Some(d) => d,
        None => {
            return None;
        },
    };
    let kids = if sym.kind == SymbolKind::Circuit {
        t.children(d, Class::Kind(PARAM))
    } else {
        t.children(d, Class::Kind(STRUCT_FIELD))
    };
    let ghost list = ints(kids@);
    let ghost whole = param_types(t@, list, 0);
    let mut params: Vec<TyKind> = Vec::new();
    let mut k: usize = 0;
    assert(tys_view(params@) + whole =~= whole);
    while k < kids.len()
        invariant
            well_formed(t@),
            k <= kids@.len(),
            list == ints(kids@),
            forall|k: int| #![trigger kids@[k]] 0 <= k < kids@.len() ==> kids@[k] < t@.len(),
            tys_view(params@) + param_types(t@, list, k as int) == whole,
        decreases kids@.len() - k,
    {
        assert(list[k as int] == kids@[k as int]);
        let ghost before = tys_view(params@);
        let ghost rest = param_types(t@, list, k + 1);
        let ty = match t.child(kids[k], Class::Type) {
            Some(ty) => type_node_kind(t, ty),
            None => TyKind::Unknown,
        };
        let ghost own = ty@;
        params.push(ty);
        assert(tys_view(params@) =~= before.push(own));
        assert(before + (seq![own] + rest) =~= before.push(own) + rest);
        k = k + 1;
    }
    assert(tys_view(params@) + Seq::<TyView>::empty() =~= tys_view(params@));
    Some(CalleeSig { params })
}

// ---------------------------------------------------------------------------
// Expressions
// ---------------------------------------------------------------------------

/// The type of the first field at or after `k` called `name`.
pub open spec fn field_named(fields: Seq<(Seq<char>, TyView)>, k: int, name: Seq<char>) -> TyView
    decreases fields.len() - k,
{
    if 0 <= k < fields.len() {
        if fields[k].0 == name {
            fields[k].1
        } else {
            field_named(fields, k + 1, name)
        }
    } else {
        TyView::Unknown
    }
}

/// The first token at or after index `i` that spans `range`.
pub open spec fn token_spanning(t: Tree, i: int, range: TextRange) -> Option<int>
    decreases t.len() - i,
{
    if 0 <= i < t.len() {
        if t[i].token && range_of(t, i) == range {
            Some(i)
        } else {
            token_spanning(t, i + 1, range)
        }
    } else {
        None
    }
}

/// Whether the pattern of `n` is one identifier, and stands at `range`.
pub open spec fn binds_simply(t: Tree, n: int, range: TextRange) -> bool {
    match child(t, n, Class::Pat) {
        Some(p) => t[p].kind == IDENT_PAT && (match child_token(t, p, IDENT) {
            Some(x) => range_of(t, x) == range,
            None => false,
        }),
        None => false,
    }
}

/// The type of expression `n`, followed through at most as many names and
/// members as the limit leaves. What is not modelled is unknown.
pub open spec fn expr_type(c: CtxView, n: int, depth: int) -> TyView
    decreases MAX_NOMINAL_DEPTH - depth, 1int, 0int,
{
    let t = c.tree();
    let kind = t[n].kind;
    if depth >= MAX_NOMINAL_DEPTH {
        TyView::Unknown
    } else if kind == LITERAL_EXPR || kind == CAST_EXPR || kind == ARRAY_EXPR {
        shown_type(t, n)
    } else if kind == NAME_EXPR {
        match child_token(t, n, IDENT) {
            Some(x) => match resolved(c, t[x].start) {
                Some(DefView::Local { file, name_range, .. }) => if file == c.file {
                    match token_spanning(t, 0, name_range) {
                        Some(y) => match t[y].parent {
                            Some(p) => binding_type(c, p, name_range, depth),
                            None => TyView::Unknown,
                        },
                        None => TyView::Unknown,
                    }
                } else {
                    TyView::Unknown
                },
                _ => TyView::Unknown,
            },
            None => TyView::Unknown,
        }
    } else if kind == MEMBER_EXPR {
        match (child(t, n, Class::Expr), child_token(t, n, IDENT)) {
            (Some(r), Some(x)) => match expr_type(c, r, depth + 1) {
                TyView::Struct { fields, .. } => field_named(fields, 0, t[x].text),
                _ => TyView::Unknown,
            },
            _ => TyView::Unknown,
        }
    } else if kind == CALL_EXPR {
        call_type(c, n)
    } else if kind == STRUCT_EXPR {
        match child_token(t, n, IDENT) {
            Some(x) => named_type(c, t[x].start, Seq::empty()),
            None => TyView::Unknown,
        }
    } else {
        TyView::Unknown
    }
}

/// The type of the local binding at `range`, decided by the nearest parameter
/// or constant at or above `i`: its annotation, or for a constant without one
/// the type of its value. A destructuring pattern is unknown.
pub open spec fn binding_type(c: CtxView, i: int, range: TextRange, depth: int) -> TyView
    decreases MAX_NOMINAL_DEPTH - depth, 0int, i,
{
    let t = c.tree();
    if 0 <= i < t.len() && depth < MAX_NOMINAL_DEPTH {
        if t[i].kind == PARAM && !t[i].token {
            match child(t, i, Class::Type) {
                Some(ty) => if binds_simply(t, i, range) {
                    resolved_type(c, ty)
                } else {
                    TyView::Unknown
                },
                None => TyView::Unknown,
            }
        } else if t[i].kind == CONST_STMT && !t[i].token {
            if !binds_simply(t, i, range) {
                TyView::Unknown
            } else {
                match child(t, i, Class::Type) {
                    Some(ty) => resolved_type(c, ty),
                    None => match child(t, i, Class::Expr) {
                        Some(v) => expr_type(c, v, depth + 1),
                        None => TyView::Unknown,
                    },
                }
            }
        } else {
            match t[i].parent {
                Some(p) => if 0 <= p < i {
                    binding_type(c, p, range, depth)
                } else {
                    TyView::Unknown
                },
                None => TyView::Unknown,
            }
        }
    } else {
        TyView::Unknown
    }
}

/// The innermost expression around `offset`.
pub open spec fn expr_around(t: Tree, offset: u32) -> Option<int> {
    match anchor(t, offset) {
        Some(x) => match t[x].parent {
            Some(p) => nearest(t, p, Class::Expr),
            None => None,
        },
        None => None,
    }
}

/// The type of the innermost expression around `offset`.
pub open spec fn type_around(c: CtxView, offset: u32) -> TyView {
    match expr_around(c.tree(), offset) {
        Some(n) => expr_type(c, n, 0),
        None => TyView::Unknown,
    }
}

fn find_token_spanning(t: &SyntaxTree, range: TextRange) -> (r: Option<usize>)
    ensures
        oint(r) == token_spanning(t@, 0, range),
        r matches Some(x) ==> x < t@.len(),
{
    let n: usize = t.len();
    let mut i: usize = 0;
    while i < n
        invariant
            n == t@.len(),
            token_spanning(t@, 0, range) == token_spanning(t@, i as int, range),
        decreases n - i,
    {
        if t.is_token(i) && t.range(i) == range {
            return Some(i);
        }
        i = i + 1;
    }
    None
}

fn simple_ident(t: &SyntaxTree, n: usize, range: TextRange) -> (r: bool)
    requires
        well_formed(t@),
        n < t@.len(),
    ensures
        r == binds_simply(t@, n as int, range),
{
    match t.child(n, Class::Pat) {
        Some(p) => {
            if t.kind(p) != IDENT_PAT {
                return false;
            }
            match t.child_token(p, IDENT) {
                Some(x) => t.range(x) == range,
                None => false,
            }
        },
        None => false,
    }
}

fn find_field_type(fields: &Vec<(String, TyKind)>, name: &str) -> (r: TyKind)
    ensures
        r@ == field_named(fields_view(fields@), 0, name@),
{
    let ghost list = fields_view(fields@);
    let mut k: usize = 0;
    while k < fields.len()
        invariant
            k <= fields@.len(),
            list == fields_view(fields@),
            field_named(list, 0, name@) == field_named(list, k as int, name@),
        decreases fields@.len() - k,
    {
        assert(list[k as int] == (fields@[k as int].0@, fields@[k as int].1@));
        if same_text(&fields[k].0, name) {
            return fields[k].1.clone();
        }
        k = k + 1;
    }
    TyKind::Unknown
}

fn type_expr(c: &Ctx, n: usize, depth: usize) -> (r: TyKind)
    requires
        c@.ok(),
        n < c@.tree().len(),
        depth <= MAX_NOMINAL_DEPTH,
    ensures
        r@ == expr_type(c@, n as int, depth as int),
    decreases MAX_NOMINAL_DEPTH - depth, 2int,
{
    if depth >= MAX_NOMINAL_DEPTH {
        return TyKind::Unknown;
    }
    let t = syntax_tree(c.db, c.src);
    let kind: u16 = t.kind(n);
    if kind == LITERAL_EXPR || kind == CAST_EXPR || kind == ARRAY_EXPR {
        expr_ty_kind(t, n)
    } else if kind == NAME_EXPR {
        match t.child_token(n, IDENT) {
            Some(x) => match resolve_at(c, t.range(x).start) {
                Some(d) => type_of_definition(c, &d, depth),
                None => TyKind::Unknown,
            },
            None => TyKind::Unknown,
        }
    } else if kind == MEMBER_EXPR {
        match (t.child(n, Class::Expr), t.child_token(n, IDENT)) {
            (Some(e), Some(x)) => {
                let base = type_expr(c, e, depth + 1);
                match &base {
                    TyKind::Struct { name, fields } => {
                        proof {
                            lemma_struct_view(*name, *fields);
                        }
                        find_field_type(fields, t.token_text(x))
                    },
                    _ => TyKind::Unknown,
                }
            },
            _ => TyKind::Unknown,
        }
    } else if kind == CALL_EXPR {
        callee_return_ty(c, n)
    } else if kind == STRUCT_EXPR {
        match t.child_token(n, IDENT) {
            Some(x) => named_type_ty(c, t.range(x).start),
            None => TyKind::Unknown,
        }
    } else {
        TyKind::Unknown
    }
}

/// The type of the value that a definition names.
pub open spec fn definition_type(c: CtxView, d: DefView, depth: int) -> TyView {
    match d {
        DefView::Local { file, name_range, .. } => if file == c.file {
            match token_spanning(c.tree(), 0, name_range) {
                Some(y) => match c.tree()[y].parent {
                    Some(p) => binding_type(c, p, name_range, depth),
                    None => TyView::Unknown,
                },
                None => TyView::Unknown,
            }
        } else {
            TyView::Unknown
        },
        DefView::Item { .. } => TyView::Unknown,
    }
}

fn type_of_definition(c: &Ctx, d: &Definition, depth: usize) -> (r: TyKind)
    requires
        c@.ok(),
        depth < MAX_NOMINAL_DEPTH,
    ensures
        r@ == definition_type(c@, d@, depth as int),
    decreases MAX_NOMINAL_DEPTH - depth, 1int,
{
    match d {
        Definition::Local { file, name_range, .. } => {
            if *file != c.file {
                return TyKind::Unknown;
            }
            local_binding_ty(c, *name_range, depth)
        },
        Definition::Item { .. } => TyKind::Unknown,
    }
}


fn local_binding_ty(c: &Ctx, name_range: TextRange, depth: usize) -> (r: TyKind)
    requires
        c@.ok(),
        depth < MAX_NOMINAL_DEPTH,
    ensures
        r@ == (match token_spanning(c@.tree(), 0, name_range) {
            Some(y) => match c@.tree()[y].parent {
                Some(p) => binding_type(c@, p, name_range, depth as int),
                None => TyView::Unknown,
            },
            None => TyView::Unknown,
        }),
    decreases MAX_NOMINAL_DEPTH - depth, 0int,
{
    let t = syntax_tree(c.db, c.src);
    let y = match find_token_spanning(t, name_range) {
        Some(y) => y,
        None => {
            return TyKind::Unknown;
        },
    };
    let mut i: usize = match t.parent(y) {
        Some(p) => p,
        None => {
            return TyKind::Unknown;
        },
    };
    assert(t@[y as int].parent == Some(i as int));
    let ghost whole = binding_type(c@, i as int, name_range, depth as int);
    loop
        invariant
            c@.ok(),
            t@ == c@.tree(),
            i < t@.len(),
            depth < MAX_NOMINAL_DEPTH,
            token_spanning(c@.tree(), 0, name_range) == Some(y as int),
            c@.tree()[y as int].parent matches Some(p) && whole == binding_type(
                c@,
                p,
                name_range,
                depth as int,
            ),
            whole == binding_type(c@, i as int, name_range, depth as int),
        decreases i,
    {
        let kind: u16 = t.kind(i);
        let node: bool = !t.is_token(i);
        if kind == PARAM && node {
            if !simple_ident(t, i, name_range) {
                return TyKind::Unknown;
            }
            return match t.child(i, Class::Type) {
                Some(ty) => type_kind_resolved(c, ty),
                None => TyKind::Unknown,
            };
        }
        if kind == CONST_STMT && node {
            if !simple_ident(t, i, name_range) {
                return TyKind::Unknown;
            }
            if let Some(ty) = t.child(i, Class::Type) {
                return type_kind_resolved(c, ty);
            }
            return match t.child(i, Class::Expr) {
                Some(v) => type_expr(c, v, depth + 1),
                None => TyKind::Unknown,
            };
        }
        match t.parent(i) {
            Some(p) => {
                assert(t@[i as int].parent == Some(p as int));
                i = p;
            },
            None => {
                return TyKind::Unknown;
            },
        }
    }
}

fn enclosing_expr(t: &SyntaxTree, offset: u32) -> (r: Option<usize>)
    requires
        well_formed(t@),
    ensures
        oint(r) == expr_around(t@, offset),
        r matches Some(n) ==> n < t@.len(),
{
    match anchor_token(t, offset) {
        Some(x) => match t.parent(x) {
            Some(p) => {
                assert(t@[x as int].parent == Some(p as int));
                t.nearest(p, Class::Expr)
            },
            None => None,
        },
        None => None,
    }
}

/// The type of the innermost expression around `offset`. What is not modelled
/// is unknown.
pub fn expr_ty(c: &Ctx, offset: u32) -> (r: TyKind)
    requires
        c@.ok(),
    ensures
        r@ == type_around(c@, offset),
{
    match enclosing_expr(syntax_tree(c.db, c.src), offset) {
        Some(n) => type_expr(c, n, 0),
        None => TyKind::Unknown,
    }
}

} // verus!
