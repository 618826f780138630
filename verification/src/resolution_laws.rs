//! Laws of symbols and of name resolution.

use vstd::prelude::*;

use crate::db::{def_at, file_def, imported_def, resolved, spliced_def, symbol_fits, symbol_from, CtxView};
use crate::item_tree::{
    constructor_symbol, index32, is_exported, item_symbol_kind, member_kind, member_symbol,
    named_symbol, symbols_of, with_item, with_items, with_members, SymbolKind, SymbolView,
};
use crate::kinds::{
    Class, CONSTRUCTOR_DEF, CONTRACT_CIRCUIT, ENUM_VARIANT, FOR_STMT, GENERIC_PARAM, IDENT,
    IDENT_PAT, MODULE_DEF, STRUCT_FIELD, STRUCT_PAT_FIELD,
};
use crate::resolve::{
    covers, ident_at, local_from, module_around, visible_bindings, BindingView, DefView,
};
use crate::source_path::{candidates, first_true};
use crate::syntax::{child_token, children, nodes_from, range_of, Tree};
use crate::vfs::FileId;

verus! {

// ---------------------------------------------------------------------------
// Symbols
// ---------------------------------------------------------------------------

/// Whether a symbol of this kind lies in `container`: fields in structs,
/// variants in enums, circuits of contracts in contracts, with the export of
/// their container, and everything else in modules.
pub open spec fn member_fits(container: SymbolView, member: SymbolView) -> bool {
    match member.kind {
        SymbolKind::StructField => container.kind == SymbolKind::Struct && member.exported
            == container.exported,
        SymbolKind::EnumVariant => container.kind == SymbolKind::Enum && member.exported
            == container.exported,
        SymbolKind::ContractCircuit => container.kind == SymbolKind::Contract && member.exported
            == container.exported,
        _ => container.kind == SymbolKind::Module,
    }
}

/// Whether every container comes before its members and fits them. Indices
/// have 32 bits, so what lies behind the greatest of them is left open.
pub open spec fn nested_right(syms: Seq<SymbolView>) -> bool {
    forall|i: int|
        #![trigger syms[i]]
        0 <= i < syms.len() ==> (syms[i].parent matches Some(p) ==> p < i && (p < u32::MAX
            ==> member_fits(syms[p as int], syms[i])))
}

proof fn lemma_pushed(syms: Seq<SymbolView>, s: SymbolView)
    requires
        nested_right(syms),
        s.parent matches Some(p) ==> p < syms.len() && (p < u32::MAX ==> member_fits(
            syms[p as int],
            s,
        )),
    ensures
        nested_right(syms.push(s)),
{
    let out = syms.push(s);
    assert forall|i: int| #![trigger out[i]] 0 <= i < out.len() implies (
    out[i].parent matches Some(p) ==> p < i && (p < u32::MAX ==> member_fits(
        out[p as int],
        out[i],
    ))) by {
        if i < syms.len() {
            assert(out[i] == syms[i]);
        }
    }
}

proof fn lemma_kinds(t: Tree, i: int, end: int, kind: u16)
    ensures
        forall|k: int|
            #![trigger nodes_from(t, i, end, Class::Kind(kind))[k]]
            0 <= k < nodes_from(t, i, end, Class::Kind(kind)).len()
                ==> t[nodes_from(t, i, end, Class::Kind(kind))[k]].kind == kind,
    decreases t.len() - i,
{
    if 0 <= i < end && i < t.len() && i < t[i].next <= t.len() {
        lemma_kinds(t, t[i].next, end, kind);
        let rest = nodes_from(t, t[i].next, end, Class::Kind(kind));
        let all = nodes_from(t, i, end, Class::Kind(kind));
        assert forall|k: int| #![trigger all[k]] 0 <= k < all.len() implies t[all[k]].kind
            == kind by {
            if all.len() == rest.len() + 1 {
                if k > 0 {
                    assert(all[k] == rest[k - 1]);
                }
            } else {
                assert(all[k] == rest[k]);
            }
        }
    }
}

proof fn lemma_members(
    t: Tree,
    syms: Seq<SymbolView>,
    kids: Seq<int>,
    k: int,
    exported: bool,
    parent: u32,
    kind: u16,
)
    requires
        nested_right(syms),
        parent < syms.len(),
        parent < u32::MAX ==> syms[parent as int].exported == exported,
        parent < u32::MAX ==> (kind == STRUCT_FIELD ==> syms[parent as int].kind
            == SymbolKind::Struct) && (kind == ENUM_VARIANT ==> syms[parent as int].kind
            == SymbolKind::Enum) && (kind == CONTRACT_CIRCUIT ==> syms[parent as int].kind
            == SymbolKind::Contract),
        kind == STRUCT_FIELD || kind == ENUM_VARIANT || kind == CONTRACT_CIRCUIT,
        forall|j: int| #![trigger kids[j]] 0 <= j < kids.len() ==> t[kids[j]].kind == kind,
    ensures
        nested_right(with_members(t, syms, kids, k, exported, parent)),
    decreases kids.len() - k,
{
    if 0 <= k < kids.len() {
        match child_token(t, kids[k], IDENT) {
            Some(x) => {
                let s = member_symbol(t, kids[k], x, exported, parent);
                lemma_pushed(syms, s);
                lemma_members(t, syms.push(s), kids, k + 1, exported, parent, kind);
            },
            None => lemma_members(t, syms, kids, k + 1, exported, parent, kind),
        }
    }
}

proof fn lemma_item(t: Tree, syms: Seq<SymbolView>, n: int, parent: Option<u32>)
    requires
        nested_right(syms),
        parent matches Some(p) ==> p < syms.len() && (p < u32::MAX ==> syms[p as int].kind
            == SymbolKind::Module),
    ensures
        nested_right(with_item(t, syms, n, parent)),
        with_item(t, syms, n, parent).len() >= syms.len(),
        forall|i: int|
            #![trigger with_item(t, syms, n, parent)[i]]
            0 <= i < syms.len() ==> with_item(t, syms, n, parent)[i] == syms[i],
    decreases t.len() - n, 0int, 0int,
{
    let kind = t[n].kind;
    if kind == CONSTRUCTOR_DEF {
        lemma_pushed(syms, constructor_symbol(t, n, parent));
    } else if let Some(k) = item_symbol_kind(kind) {
        let s = named_symbol(t, n, k, parent);
        let own = syms.push(s);
        lemma_pushed(syms, s);
        let index = index32(syms.len() as int);
        assert(index < u32::MAX ==> own[index as int] == s);
        match member_kind(kind) {
            Some(m) => {
                let kids = children(t, n, Class::Kind(m));
                lemma_kinds(t, n + 1, t[n].next, m);
                lemma_members(t, own, kids, 0, is_exported(t, n), index, m);
                lemma_members_grow(t, own, kids, 0, is_exported(t, n), index);
            },
            None => {
                if kind == MODULE_DEF && 0 <= n < t.len() {
                    lemma_items(t, own, children(t, n, Class::Item), 0, Some(index), n);
                }
            },
        }
    }
}

proof fn lemma_members_grow(
    t: Tree,
    syms: Seq<SymbolView>,
    kids: Seq<int>,
    k: int,
    exported: bool,
    parent: u32,
)
    ensures
        with_members(t, syms, kids, k, exported, parent).len() >= syms.len(),
        forall|i: int|
            #![trigger with_members(t, syms, kids, k, exported, parent)[i]]
            0 <= i < syms.len() ==> with_members(t, syms, kids, k, exported, parent)[i] == syms[i],
    decreases kids.len() - k,
{
    if 0 <= k < kids.len() {
        match child_token(t, kids[k], IDENT) {
            Some(x) => lemma_members_grow(
                t,
                syms.push(member_symbol(t, kids[k], x, exported, parent)),
                kids,
                k + 1,
                exported,
                parent,
            ),
            None => lemma_members_grow(t, syms, kids, k + 1, exported, parent),
        }
    }
}

proof fn lemma_items(
    t: Tree,
    syms: Seq<SymbolView>,
    kids: Seq<int>,
    k: int,
    parent: Option<u32>,
    after: int,
)
    requires
        nested_right(syms),
        parent matches Some(p) ==> p < syms.len() && (p < u32::MAX ==> syms[p as int].kind
            == SymbolKind::Module),
    ensures
        nested_right(with_items(t, syms, kids, k, parent, after)),
        with_items(t, syms, kids, k, parent, after).len() >= syms.len(),
        forall|i: int|
            #![trigger with_items(t, syms, kids, k, parent, after)[i]]
            0 <= i < syms.len() ==> with_items(t, syms, kids, k, parent, after)[i] == syms[i],
    decreases t.len() - after - 1, 1int, kids.len() - k,
{
    if 0 <= k < kids.len() && after < kids[k] < t.len() {
        let next = with_item(t, syms, kids[k], parent);
        lemma_item(t, syms, kids[k], parent);
        if let Some(p) = parent {
            assert(next[p as int] == syms[p as int]);
        }
        lemma_items(t, next, kids, k + 1, parent, after);
        let all = with_items(t, next, kids, k + 1, parent, after);
        assert forall|i: int| #![trigger all[i]] 0 <= i < syms.len() implies all[i]
            == syms[i] by {
            assert(next[i] == syms[i]);
        }
    }
}

/// Among the symbols of a file every container comes before its members and
/// fits them.
pub proof fn law_containers_come_first(t: Tree)
    ensures
        nested_right(symbols_of(t)),
{
    lemma_items(t, Seq::empty(), children(t, 0, Class::Item), 0, None, 0);
}

/// Whether the symbols from index `from` on have a container at or behind index
/// `base` and before themselves.
pub open spec fn inside_from(syms: Seq<SymbolView>, from: int, base: int) -> bool {
    forall|i: int|
        #![trigger syms[i]]
        from <= i < syms.len() ==> (syms[i].parent matches Some(q) && index32(base) <= q && q < i)
}

proof fn lemma_members_inside(
    t: Tree,
    syms: Seq<SymbolView>,
    kids: Seq<int>,
    k: int,
    exported: bool,
    parent: u32,
    from: int,
    base: int,
)
    requires
        0 <= base < from <= syms.len(),
        parent == index32(base),
        inside_from(syms, from, base),
    ensures
        inside_from(with_members(t, syms, kids, k, exported, parent), from, base),
    decreases kids.len() - k,
{
    if 0 <= k < kids.len() {
        match child_token(t, kids[k], IDENT) {
            Some(x) => lemma_members_inside(
                t,
                syms.push(member_symbol(t, kids[k], x, exported, parent)),
                kids,
                k + 1,
                exported,
                parent,
                from,
                base,
            ),
            None => lemma_members_inside(t, syms, kids, k + 1, exported, parent, from, base),
        }
    }
}

proof fn lemma_items_inside(
    t: Tree,
    syms: Seq<SymbolView>,
    kids: Seq<int>,
    k: int,
    parent: u32,
    after: int,
    from: int,
    base: int,
)
    requires
        0 <= base < from <= syms.len(),
        parent == index32(base),
        inside_from(syms, from, base),
    ensures
        inside_from(with_items(t, syms, kids, k, Some(parent), after), from, base),
        with_items(t, syms, kids, k, Some(parent), after).len() >= syms.len(),
        forall|i: int|
            #![trigger with_items(t, syms, kids, k, Some(parent), after)[i]]
            0 <= i < syms.len() ==> with_items(t, syms, kids, k, Some(parent), after)[i] == syms[i],
    decreases t.len() - after - 1, 1int, kids.len() - k,
{
    if 0 <= k < kids.len() && after < kids[k] < t.len() {
        let next = with_item(t, syms, kids[k], Some(parent));
        law_one_item_is_added(t, syms, kids[k], Some(parent));
        assert forall|i: int| #![trigger next[i]] from <= i < next.len() implies (
        next[i].parent matches Some(q) && index32(base) <= q && q < i) by {
            if i < syms.len() {
                assert(next[i] == syms[i]);
            }
        }
        lemma_items_inside(t, next, kids, k + 1, parent, after, from, base);
        let all = with_items(t, next, kids, k + 1, Some(parent), after);
        assert forall|i: int| #![trigger all[i]] 0 <= i < syms.len() implies all[i] == syms[i] by {
            assert(next[i] == syms[i]);
        }
    }
}

/// Adding one item leaves the symbols before it alone. An item that declares
/// nothing adds nothing; any other adds itself, inside `parent`, and behind it
/// what it contains, each inside a symbol between it and itself.
pub proof fn law_one_item_is_added(t: Tree, syms: Seq<SymbolView>, n: int, parent: Option<u32>)
    ensures
        ({
            let all = with_item(t, syms, n, parent);
            let count = syms.len() as int;
            &&& all.len() >= count
            &&& forall|i: int| #![trigger all[i]] 0 <= i < count ==> all[i] == syms[i]
            &&& t[n].kind != CONSTRUCTOR_DEF && item_symbol_kind(t[n].kind) is None ==> all == syms
            &&& t[n].kind == CONSTRUCTOR_DEF ==> all.len() == count + 1 && all[count]
                == constructor_symbol(t, n, parent)
            &&& t[n].kind != CONSTRUCTOR_DEF ==> (item_symbol_kind(t[n].kind) matches Some(k)
                ==> all.len() > count && all[count] == named_symbol(t, n, k, parent))
            &&& all.len() > count ==> all[count].parent == parent && all[count].full_range
                == range_of(t, n)
            &&& inside_from(all, count + 1, count)
        }),
    decreases t.len() - n, 0int, 0int,
{
    let kind = t[n].kind;
    let count = syms.len() as int;
    if kind != CONSTRUCTOR_DEF {
        if let Some(k) = item_symbol_kind(kind) {
            let own = syms.push(named_symbol(t, n, k, parent));
            let index = index32(count);
            match member_kind(kind) {
                Some(m) => {
                    let kids = children(t, n, Class::Kind(m));
                    lemma_members_inside(t, own, kids, 0, is_exported(t, n), index, count + 1, count);
                    lemma_members_grow(t, own, kids, 0, is_exported(t, n), index);
                    let all = with_members(t, own, kids, 0, is_exported(t, n), index);
                    assert(all[count] == own[count]);
                },
                None => {
                    if kind == MODULE_DEF && 0 <= n < t.len() {
                        let kids = children(t, n, Class::Item);
                        lemma_items_inside(t, own, kids, 0, index, n, count + 1, count);
                        let all = with_items(t, own, kids, 0, Some(index), n);
                        assert(all[count] == own[count]);
                    }
                },
            }
        }
    }
}

/// A symbol that is looked up is the first that fits, and none is found only
/// where none fits.
pub proof fn law_first_symbol_wins(
    syms: Seq<SymbolView>,
    from: int,
    parent: Option<u32>,
    name: Seq<char>,
    exported_only: bool,
    kind: Option<SymbolKind>,
)
    requires
        0 <= from <= syms.len() <= u32::MAX,
    ensures
        match symbol_from(syms, from, parent, name, exported_only, kind) {
            Some(i) => from <= i < syms.len() && symbol_fits(
                syms[i as int],
                parent,
                name,
                exported_only,
                kind,
            ) && forall|j: int|
                #![trigger syms[j]]
                from <= j < i ==> !symbol_fits(syms[j], parent, name, exported_only, kind),
            None => forall|j: int|
                #![trigger syms[j]]
                from <= j < syms.len() ==> !symbol_fits(
                    syms[j],
                    parent,
                    name,
                    exported_only,
                    kind,
                ),
        },
    decreases syms.len() - from,
{
    if from < syms.len() && !symbol_fits(syms[from], parent, name, exported_only, kind) {
        law_first_symbol_wins(syms, from + 1, parent, name, exported_only, kind);
    }
}

/// The module around an offset is the last one that contains it, and none is
/// found only where none contains it.
pub proof fn law_innermost_module(syms: Seq<SymbolView>, n: int, offset: u32)
    requires
        0 <= n <= syms.len() <= u32::MAX,
    ensures
        match module_around(syms, n, offset) {
            Some(i) => i < n && syms[i as int].kind == SymbolKind::Module && covers(
                syms[i as int].full_range,
                offset,
            ) && forall|j: int|
                #![trigger syms[j]]
                i < j < n ==> !(syms[j].kind == SymbolKind::Module && covers(
                    syms[j].full_range,
                    offset,
                )),
            None => forall|j: int|
                #![trigger syms[j]]
                0 <= j < n ==> !(syms[j].kind == SymbolKind::Module && covers(
                    syms[j].full_range,
                    offset,
                )),
        },
    decreases n,
{
    if n > 0 && !(syms[n - 1].kind == SymbolKind::Module && covers(
        syms[n - 1].full_range,
        offset,
    )) {
        law_innermost_module(syms, n - 1, offset);
    }
}

// ---------------------------------------------------------------------------
// Scopes
// ---------------------------------------------------------------------------

proof fn lemma_nearest(file: FileId, all: Seq<BindingView>, k: int, name: Seq<char>)
    requires
        0 <= k <= all.len(),
    ensures
        match local_from(file, all, k, name) {
            Some(d) => exists|i: int|
                k <= i < all.len() && (#[trigger] all[i]).name == name && d == (DefView::Local {
                    file,
                    name,
                    name_range: all[i].name_range,
                    detail: all[i].detail,
                }) && forall|j: int| #![trigger all[j]] k <= j < i ==> all[j].name != name,
            None => forall|j: int| #![trigger all[j]] k <= j < all.len() ==> all[j].name != name,
        },
    decreases all.len() - k,
{
    if k < all.len() && all[k].name != name {
        lemma_nearest(file, all, k + 1, name);
        if local_from(file, all, k + 1, name) is Some {
            let d = local_from(file, all, k + 1, name)->0;
            let i = choose|i: int|
                k + 1 <= i < all.len() && (#[trigger] all[i]).name == name && d == (
                DefView::Local {
                    file,
                    name,
                    name_range: all[i].name_range,
                    detail: all[i].detail,
                }) && forall|j: int| #![trigger all[j]] k + 1 <= j < i ==> all[j].name != name;
            assert(all[i].name == name);
        }
    } else if k < all.len() {
        assert(all[k].name == name);
    }
}

/// A local binding hides every item of the same name, and among the local
/// bindings the nearest wins.
pub proof fn law_locals_shadow_items(c: CtxView, offset: u32, name: Seq<char>)
    ensures
        ({
            let near = visible_bindings(c.tree(), offset);
            &&& (forall|j: int| #![trigger near[j]] 0 <= j < near.len() ==> near[j].name != name)
                ==> def_at(c, offset, name) == file_def(c, offset, name)
            &&& (exists|j: int| 0 <= j < near.len() && (#[trigger] near[j]).name == name)
                ==> exists|i: int|
                0 <= i < near.len() && (#[trigger] near[i]).name == name && def_at(c, offset, name)
                    == Some(
                    DefView::Local {
                        file: c.file,
                        name,
                        name_range: near[i].name_range,
                        detail: near[i].detail,
                    },
                ) && forall|j: int| #![trigger near[j]] 0 <= j < i ==> near[j].name != name
        }),
{
    lemma_nearest(c.file, visible_bindings(c.tree(), offset), 0, name);
}

/// At file scope the members of the module around come first, then the items
/// of the file, then spliced files, then imports.
pub proof fn law_order_of_scopes(c: CtxView, offset: u32, name: Seq<char>)
    requires
        c.syms().len() <= u32::MAX,
    ensures
        ({
            let syms = c.syms();
            let around = module_around(syms, syms.len() as int, offset);
            let inner = exists|j: int|
                0 <= j < syms.len() && around is Some && symbol_fits(
                    #[trigger] syms[j],
                    around,
                    name,
                    false,
                    None,
                );
            let top = exists|j: int|
                0 <= j < syms.len() && symbol_fits(#[trigger] syms[j], None, name, false, None);
            let spliced = spliced_def(c.db, c.ws, c.deps(), 0, name, seq![c.file]);
            let d = file_def(c, offset, name);
            &&& inner ==> (d matches Some(DefView::Item { file, index }) && file == c.file
                && symbol_fits(syms[index as int], around, name, false, None))
            &&& !inner && top ==> (d matches Some(DefView::Item { file, index }) && file == c.file
                && symbol_fits(syms[index as int], None, name, false, None))
            &&& !inner && !top && spliced is Some ==> d == spliced
            &&& !inner && !top && spliced is None ==> d == imported_def(c, name)
        }),
{
    let syms = c.syms();
    let around = module_around(syms, syms.len() as int, offset);
    law_first_symbol_wins(syms, 0, around, name, false, None);
    law_first_symbol_wins(syms, 0, None, name, false, None);
}

/// The name in a pattern, a loop head or a list of generic parameters stands
/// for itself.
pub proof fn law_binding_site_is_its_own_definition(c: CtxView, offset: u32, x: int, p: int)
    requires
        ident_at(c.tree(), offset) == Some(x),
        c.tree()[x].parent == Some(p),
        c.tree()[p].kind == IDENT_PAT || c.tree()[p].kind == STRUCT_PAT_FIELD || c.tree()[p].kind
            == FOR_STMT || c.tree()[p].kind == GENERIC_PARAM,
    ensures
        resolved(c, offset) matches Some(DefView::Local { file, name, name_range, .. }) && file
            == c.file && name == c.tree()[x].text && name_range == range_of(c.tree(), x),
{
}

// ---------------------------------------------------------------------------
// Imports
// ---------------------------------------------------------------------------

/// Of the places of an import the first that exists is taken, and none only
/// where none exists.
pub proof fn law_first_existing_place_wins(there: Seq<bool>, from: int)
    requires
        0 <= from <= there.len(),
    ensures
        match first_true(there, from) {
            Some(i) => from <= i < there.len() && there[i] && forall|j: int|
                #![trigger there[j]]
                from <= j < i ==> !there[j],
            None => forall|j: int| #![trigger there[j]] from <= j < there.len() ==> !there[j],
        },
    decreases there.len() - from,
{
    if from < there.len() && !there[from] {
        law_first_existing_place_wins(there, from + 1);
    }
}

/// The directory of the importing file comes before the search path, which is
/// gone through in order; an absolute path has one place.
pub proof fn law_places_of_an_import(
    from_dir: Seq<char>,
    search: Seq<Seq<char>>,
    raw: Seq<char>,
    k: int,
)
    requires
        0 <= k < search.len(),
    ensures
        ({
            let rel = raw + ".compact"@;
            let all = candidates(from_dir, search, raw);
            if crate::source_path::absolute(raw) {
                all == seq![rel]
            } else {
                &&& all.len() == search.len() + 1
                &&& all[0] == crate::source_path::joined_path(from_dir, rel)
                &&& all[k + 1] == crate::source_path::joined_path(search[k], rel)
            }
        }),
{
}

} // verus!
