//! Laws of names: what each use of a name stands for, what imports bring in, and
//! which symbols a file has.

use vstd::prelude::*;

use crate::db::{
    def_at, dep_from, dep_target, import_target, import_targets, imported_def, imported_name,
    original_of, resolved, source_of, specifiers_from, splice_targets, spliced_def, stdlib_member,
    symbol_fits, symbol_from, symbol_named_at, targets_of, through_import, through_imports, CtxView,
    DbView, DepView, RawDepView, SourceText, WsView,
};
use crate::item_tree::{
    docs_of, index32, item_symbol_kind, member_symbol, named_symbol, signature_of, symbols_of,
    with_item, with_items, with_members, SymbolKind, SymbolView,
};
use crate::kinds::{
    in_class, Class, AS_KW, CALL_EXPR, CIRCUIT_DECL, CIRCUIT_DEF, CONSTRUCTOR_DEF, CONTRACT_CIRCUIT,
    CONTRACT_DECL, ENUM_DEF, ENUM_VARIANT, EXPORT_KW, GENERIC_PARAM, GENERIC_PARAM_LIST, IDENT,
    IMPORT, IMPORT_SPECIFIER, INCLUDE, LEDGER_DECL, MEMBER_EXPR, MODULE_DEF, NAME_EXPR, PREFIX_DECL,
    SOURCE_FILE, STRING_LIT, STRUCT_DEF, STRUCT_EXPR, STRUCT_FIELD, STRUCT_FIELD_INIT, TYPE_DECL,
    TYPE_REF, TYPE_SIZE, WITNESS_DECL,
};
use crate::resolution_laws::{law_first_symbol_wins, law_one_item_is_added};
use crate::resolve::{alias_from, alias_of, ident_at, sole_module, DefView};
use crate::scope_laws::{lemma_in_left, lemma_in_right, lemma_in_sum};
use crate::source_path::{module_name_of, unquoted};
use crate::syntax::{
    child, child_token, children, lemma_nodes_from, nearest, range_of, text_of, token_from,
    well_formed, Tree,
};
use crate::text::{collapsed, TextRange};
use crate::tree_laws::{law_children, nested};
use crate::vfs::FileId;

verus! {

// ---------------------------------------------------------------------------
// Uses
// ---------------------------------------------------------------------------

/// The name of a variable, a callee, a type, a struct literal or a size is looked
/// up from where it stands.
pub proof fn law_uses_are_looked_up(c: CtxView, offset: u32, x: int, p: int)
    requires
        ident_at(c.tree(), offset) == Some(x),
        c.tree()[x].parent == Some(p),
        c.tree()[p].kind == NAME_EXPR || c.tree()[p].kind == CALL_EXPR || c.tree()[p].kind
            == TYPE_REF || c.tree()[p].kind == STRUCT_EXPR || c.tree()[p].kind == TYPE_SIZE,
    ensures
        resolved(c, offset) == def_at(c, offset, c.tree()[x].text),
{
}

proof fn lemma_named_at(syms: Seq<SymbolView>, i: int, j: int, range: TextRange)
    requires
        0 <= i <= j < syms.len(),
        syms[j].name_range == range,
        forall|k: int| #![trigger syms[k]] i <= k < j ==> syms[k].name_range != range,
    ensures
        symbol_named_at(syms, i, range) == Some(index32(j)),
    decreases j - i,
{
    if i < j {
        assert(syms[i].name_range != range);
        lemma_named_at(syms, i + 1, j, range);
    }
}

/// The name in a declaration stands for the symbol that is declared there.
pub proof fn law_declared_name_is_its_symbol(c: CtxView, offset: u32, x: int, p: int, j: int)
    requires
        ident_at(c.tree(), offset) == Some(x),
        c.tree()[x].parent == Some(p),
        c.tree()[p].kind == CIRCUIT_DEF || c.tree()[p].kind == CIRCUIT_DECL || c.tree()[p].kind
            == WITNESS_DECL || c.tree()[p].kind == LEDGER_DECL || c.tree()[p].kind == STRUCT_DEF
            || c.tree()[p].kind == STRUCT_FIELD || c.tree()[p].kind == ENUM_DEF || c.tree()[p].kind
            == ENUM_VARIANT || c.tree()[p].kind == MODULE_DEF || c.tree()[p].kind == TYPE_DECL
            || c.tree()[p].kind == CONTRACT_DECL || c.tree()[p].kind == CONTRACT_CIRCUIT,
        0 <= j < c.syms().len() <= u32::MAX,
        c.syms()[j].name_range == range_of(c.tree(), x),
        forall|k: int|
            #![trigger c.syms()[k]]
            0 <= k < j ==> c.syms()[k].name_range != range_of(c.tree(), x),
    ensures
        resolved(c, offset) == Some(DefView::Item { file: c.file, index: j as u32 }),
{
    lemma_named_at(c.syms(), 0, j, range_of(c.tree(), x));
}

/// Whether a definition is a member of item `index` of `file`, of this kind and
/// name.
pub open spec fn is_member(
    d: DefView,
    syms: Seq<SymbolView>,
    file: FileId,
    index: u32,
    kind: SymbolKind,
    name: Seq<char>,
) -> bool {
    d matches DefView::Item { file: f, index: i } && f == file && i < syms.len() && syms[i as int].parent
        == Some(index) && syms[i as int].kind == kind && syms[i as int].name == name
}

/// The label of a field in a struct literal stands for the field of that name of
/// the struct that the literal names, and for nothing where there is none.
pub proof fn law_label_is_the_field_of_the_struct(
    c: CtxView,
    offset: u32,
    x: int,
    p: int,
    e: int,
    y: int,
    file: FileId,
    index: u32,
    s: SourceText,
)
    requires
        ident_at(c.tree(), offset) == Some(x),
        c.tree()[x].parent == Some(p),
        c.tree()[p].kind == STRUCT_FIELD_INIT,
        nearest(c.tree(), p, Class::Kind(STRUCT_EXPR)) == Some(e),
        child_token(c.tree(), e, IDENT) == Some(y),
        def_at(c, c.tree()[e].start, c.tree()[y].text) == Some(DefView::Item { file, index }),
        source_of(c, file) == Some(s),
        c.db.sources[s.id as int].syms.len() <= u32::MAX,
    ensures
        ({
            let syms = c.db.sources[s.id as int].syms;
            let name = c.tree()[x].text;
            let there = exists|j: int|
                0 <= j < syms.len() && (#[trigger] syms[j]).parent == Some(index) && syms[j].kind
                    == SymbolKind::StructField && syms[j].name == name;
            &&& there ==> (resolved(c, offset) matches Some(d) && is_member(
                d,
                syms,
                file,
                index,
                SymbolKind::StructField,
                name,
            ))
            &&& !there ==> resolved(c, offset) is None
        }),
{
    let syms = c.db.sources[s.id as int].syms;
    let name = c.tree()[x].text;
    law_first_symbol_wins(syms, 0, Some(index), name, false, Some(SymbolKind::StructField));
}

/// The member of a bare enum name stands for the variant of that name, and for
/// nothing where the enum has none. The member of any other name stands for
/// nothing.
pub proof fn law_member_of_an_enum_is_its_variant(
    c: CtxView,
    offset: u32,
    x: int,
    p: int,
    e: int,
    y: int,
    file: FileId,
    index: u32,
    s: SourceText,
)
    requires
        ident_at(c.tree(), offset) == Some(x),
        c.tree()[x].parent == Some(p),
        c.tree()[p].kind == MEMBER_EXPR,
        child(c.tree(), p, Class::Kind(NAME_EXPR)) == Some(e),
        child_token(c.tree(), e, IDENT) == Some(y),
        def_at(c, c.tree()[e].start, c.tree()[y].text) == Some(DefView::Item { file, index }),
        source_of(c, file) == Some(s),
        index < c.db.sources[s.id as int].syms.len() <= u32::MAX,
    ensures
        ({
            let syms = c.db.sources[s.id as int].syms;
            let name = c.tree()[x].text;
            let there = exists|j: int|
                0 <= j < syms.len() && (#[trigger] syms[j]).parent == Some(index) && syms[j].kind
                    == SymbolKind::EnumVariant && syms[j].name == name;
            &&& syms[index as int].kind == SymbolKind::Enum && there ==> (resolved(
                c,
                offset,
            ) matches Some(d) && is_member(d, syms, file, index, SymbolKind::EnumVariant, name))
            &&& syms[index as int].kind != SymbolKind::Enum || !there ==> resolved(c, offset)
                is None
        }),
{
    let syms = c.db.sources[s.id as int].syms;
    let name = c.tree()[x].text;
    law_first_symbol_wins(syms, 0, Some(index), name, false, Some(SymbolKind::EnumVariant));
}

// ---------------------------------------------------------------------------
// Imports
// ---------------------------------------------------------------------------

/// Without a prefix and a list of names an import knows every name as it is.
pub proof fn law_plain_import_keeps_names(t: Tree, import: int, name: Seq<char>)
    requires
        child(t, import, Class::Kind(PREFIX_DECL)) is None,
        specifiers_from(t, import, t[import].next).len() == 0,
    ensures
        imported_name(t, import, name) == Some(name),
{
}

/// An import with a prefix knows exactly the names that begin with it, each
/// without it.
pub proof fn law_prefix_is_stripped(t: Tree, import: int, p: int, x: int, rest: Seq<char>)
    requires
        child(t, import, Class::Kind(PREFIX_DECL)) == Some(p),
        child_token(t, p, IDENT) == Some(x),
        specifiers_from(t, import, t[import].next).len() == 0,
    ensures
        imported_name(t, import, t[x].text + rest) == Some(rest),
        forall|name: Seq<char>|
            #![trigger imported_name(t, import, name)]
            !t[x].text.is_prefix_of(name) ==> imported_name(t, import, name) is None,
{
    let prefix = t[x].text;
    let name = prefix + rest;
    assert(name.take(prefix.len() as int) =~= prefix);
    assert(name.skip(prefix.len() as int) =~= rest);
    assert forall|other: Seq<char>|
        #![trigger imported_name(t, import, other)]
        !prefix.is_prefix_of(other) implies imported_name(t, import, other) is None by {
    }
}

proof fn lemma_original(
    specs: Seq<(Seq<char>, Seq<char>)>,
    k: int,
    alias: Seq<char>,
)
    requires
        0 <= k,
    ensures
        match original_of(specs, k, alias) {
            Some(name) => exists|j: int|
                k <= j < specs.len() && #[trigger] specs[j] == (alias, name),
            None => forall|j: int| #![trigger specs[j]] k <= j < specs.len() ==> specs[j].0 != alias,
        },
    decreases specs.len() - k,
{
    if k < specs.len() {
        lemma_original(specs, k + 1, alias);
        if specs[k].0 == alias {
            assert(specs[k] == (alias, specs[k].1));
        }
    }
}

/// An import with a list of names knows exactly the listed ones: each under what
/// it is called here, and as what it is called in the module.
pub proof fn law_listed_names_are_imported(t: Tree, import: int, name: Seq<char>)
    requires
        child(t, import, Class::Kind(PREFIX_DECL)) is None,
        specifiers_from(t, import, t[import].next).len() > 0,
    ensures
        match imported_name(t, import, name) {
            Some(there) => specifiers_from(t, import, t[import].next).contains((name, there)),
            None => forall|j: int|
                #![trigger specifiers_from(t, import, t[import].next)[j]]
                0 <= j < specifiers_from(t, import, t[import].next).len() ==> specifiers_from(
                    t,
                    import,
                    t[import].next,
                )[j].0 != name,
        },
{
    lemma_original(specifiers_from(t, import, t[import].next), 0, name);
}

/// Every listed name is an import specifier inside the import, called by its
/// alias where it has one and else by its own name; and every such specifier is
/// listed.
pub proof fn law_specifiers(t: Tree, i: int, end: int, n: int, x: int)
    requires
        0 <= i <= n < end <= t.len(),
        !t[n].token,
        t[n].kind == IMPORT_SPECIFIER,
        child_token(t, n, IDENT) == Some(x),
    ensures
        alias_of(t, n) matches Some(a) ==> specifiers_from(t, i, end).contains((a, t[x].text)),
        alias_of(t, n) is None ==> specifiers_from(t, i, end).contains((t[x].text, t[x].text)),
    decreases n - i,
{
    let own = (
        match alias_of(t, n) {
            Some(a) => a,
            None => t[x].text,
        },
        t[x].text,
    );
    let all = specifiers_from(t, i, end);
    if i == n {
        assert(all[0] == own);
    } else {
        law_specifiers(t, i + 1, end, n, x);
        let rest = specifiers_from(t, i + 1, end);
        let k = rest.index_of(own);
        if !t[i].token && t[i].kind == IMPORT_SPECIFIER && child_token(t, i, IDENT) is Some {
            assert(all[k + 1] == own);
        } else {
            assert(all[k] == own);
        }
    }
}

/// Through an import of a module that the file declares itself, a name stands for
/// the exported member that the import knows it as; a member that is not exported
/// is not found.
pub proof fn law_import_of_an_own_module(
    c: CtxView,
    import: int,
    y: int,
    m: u32,
    name: Seq<char>,
    there: Seq<char>,
)
    requires
        child_token(c.tree(), import, IDENT) == Some(y),
        c.tree()[y].text != "CompactStandardLibrary"@,
        imported_name(c.tree(), import, name) == Some(there),
        symbol_from(
            c.syms(),
            0,
            None,
            c.tree()[y].text,
            false,
            Some(SymbolKind::Module),
        ) == Some(m),
        c.syms().len() <= u32::MAX,
    ensures
        ({
            let syms = c.syms();
            let open = exists|j: int|
                0 <= j < syms.len() && (#[trigger] syms[j]).parent == Some(m) && syms[j].name
                    == there && syms[j].exported;
            &&& open ==> (through_import(c, import, name) matches Some(
                DefView::Item { file, index },
            ) && file == c.file && index < syms.len() && syms[index as int].parent == Some(m)
                && syms[index as int].name == there && syms[index as int].exported)
            &&& !open ==> through_import(c, import, name) is None
        }),
{
    law_first_symbol_wins(c.syms(), 0, Some(m), there, true, None);
}

/// Through an import of the standard library, a name stands for the exported
/// top-level symbol of that name, and for nothing where there is none.
pub proof fn law_import_of_the_standard_library(
    c: CtxView,
    import: int,
    y: int,
    name: Seq<char>,
    there: Seq<char>,
    f: FileId,
    s: SourceText,
)
    requires
        child_token(c.tree(), import, IDENT) == Some(y),
        c.tree()[y].text == "CompactStandardLibrary"@,
        imported_name(c.tree(), import, name) == Some(there),
        c.ws.stdlib == Some((f, s)),
        c.db.sources[s.id as int].syms.len() <= u32::MAX,
    ensures
        ({
            let syms = c.db.sources[s.id as int].syms;
            let open = exists|j: int|
                0 <= j < syms.len() && (#[trigger] syms[j]).parent is None && syms[j].name == there
                    && syms[j].exported;
            &&& open ==> (through_import(c, import, name) matches Some(
                DefView::Item { file, index },
            ) && file == f && index < syms.len() && syms[index as int].parent is None
                && syms[index as int].name == there && syms[index as int].exported)
            &&& !open ==> through_import(c, import, name) is None
        }),
{
    law_first_symbol_wins(c.db.sources[s.id as int].syms, 0, None, there, true, None);
}

/// Through an import of another file, by name or by path, a name stands for the
/// exported member of the file's only module, where that has the expected name.
pub proof fn law_import_of_another_file(
    c: CtxView,
    import: int,
    y: int,
    name: Seq<char>,
    there: Seq<char>,
    raw: Seq<char>,
    expected: Seq<char>,
    f: FileId,
    s: SourceText,
    m: u32,
    module: SymbolView,
)
    requires
        match child_token(c.tree(), import, IDENT) {
            Some(x) => x == y && raw == c.tree()[y].text && expected == raw && raw
                != "CompactStandardLibrary"@ && symbol_from(
                c.syms(),
                0,
                None,
                raw,
                false,
                Some(SymbolKind::Module),
            ) is None,
            None => child_token(c.tree(), import, STRING_LIT) == Some(y) && raw == unquoted(
                c.tree()[y].text,
            ) && module_name_of(raw) == Some(expected),
        },
        imported_name(c.tree(), import, name) == Some(there),
        dep_target(c.deps(), raw, false) == Some((f, s)),
        sole_module(c.db.sources[s.id as int].syms) == Some((m, module)),
        c.db.sources[s.id as int].syms.len() <= u32::MAX,
    ensures
        ({
            let syms = c.db.sources[s.id as int].syms;
            let open = exists|j: int|
                0 <= j < syms.len() && (#[trigger] syms[j]).parent == Some(m) && syms[j].name
                    == there && syms[j].exported;
            &&& module.name == expected && open ==> (through_import(c, import, name) matches Some(
                DefView::Item { file, index },
            ) && file == f && index < syms.len() && syms[index as int].parent == Some(m)
                && syms[index as int].name == there && syms[index as int].exported)
            &&& module.name != expected || !open ==> through_import(c, import, name) is None
        }),
{
    law_first_symbol_wins(c.db.sources[s.id as int].syms, 0, Some(m), there, true, None);
}

proof fn lemma_through(c: CtxView, kids: Seq<int>, k: int, j: int, name: Seq<char>)
    requires
        0 <= k <= j < kids.len(),
        through_import(c, kids[j], name) is Some,
        forall|i: int|
            #![trigger kids[i]]
            k <= i < j ==> through_import(c, kids[i], name) is None,
    ensures
        through_imports(c, kids, k, name) == through_import(c, kids[j], name),
    decreases j - k,
{
    if k < j {
        assert(through_import(c, kids[k], name) is None);
        lemma_through(c, kids, k + 1, j, name);
    }
}

/// A name that several imports bring in stands for what the first of them brings.
pub proof fn law_first_import_wins(c: CtxView, j: int, name: Seq<char>)
    requires
        c.tree().len() > 0,
        !c.tree()[0].token,
        c.tree()[0].kind == SOURCE_FILE,
        0 <= j < children(c.tree(), 0, Class::Kind(IMPORT)).len(),
        through_import(c, children(c.tree(), 0, Class::Kind(IMPORT))[j], name) is Some,
        forall|i: int|
            #![trigger children(c.tree(), 0, Class::Kind(IMPORT))[i]]
            0 <= i < j ==> through_import(
                c,
                children(c.tree(), 0, Class::Kind(IMPORT))[i],
                name,
            ) is None,
    ensures
        imported_def(c, name) == through_import(
            c,
            children(c.tree(), 0, Class::Kind(IMPORT))[j],
            name,
        ),
{
    lemma_through(c, children(c.tree(), 0, Class::Kind(IMPORT)), 0, j, name);
}

/// Which resolved import a target is: the first that is written so.
pub proof fn law_first_target_wins(deps: Seq<DepView>, raw: Seq<char>, is_include: bool, k: int, j: int)
    requires
        0 <= k <= j < deps.len(),
        deps[j].raw == raw,
        deps[j].is_include == is_include,
        forall|i: int|
            #![trigger deps[i]]
            k <= i < j ==> !(deps[i].raw == raw && deps[i].is_include == is_include),
    ensures
        dep_from(deps, k, raw, is_include) == Some(deps[j]),
        k == 0 ==> dep_target(deps, raw, is_include) == deps[j].target,
    decreases j - k,
{
    if k < j {
        assert(!(deps[k].raw == raw && deps[k].is_include == is_include));
        law_first_target_wins(deps, raw, is_include, k + 1, j);
    }
}

/// The top-level symbols of a spliced file are found, unless the file is being
/// spliced already.
pub proof fn law_spliced_symbols_are_found(
    db: DbView,
    ws: WsView,
    deps: Seq<DepView>,
    k: int,
    name: Seq<char>,
    active: Seq<FileId>,
    j: int,
    f: FileId,
    s: SourceText,
    i: int,
)
    requires
        0 <= k <= j < deps.len(),
        deps[j].is_include,
        deps[j].target == Some((f, s)),
        !active.contains(f),
        0 <= i < db.sources[s.id as int].syms.len() <= u32::MAX,
        db.sources[s.id as int].syms[i].parent is None,
        db.sources[s.id as int].syms[i].name == name,
    ensures
        spliced_def(db, ws, deps, k, name, active) is Some,
    decreases j - k,
{
    if k == j {
        let syms = db.sources[s.id as int].syms;
        assert(symbol_fits(syms[i], None, name, false, None));
        law_first_symbol_wins(syms, 0, None, name, false, None);
    } else {
        law_spliced_symbols_are_found(db, ws, deps, k + 1, name, active, j, f, s, i);
    }
}

/// What is spliced in by a spliced file is found as well.
pub proof fn law_splicing_goes_on(
    db: DbView,
    ws: WsView,
    deps: Seq<DepView>,
    k: int,
    name: Seq<char>,
    active: Seq<FileId>,
    j: int,
    f: FileId,
    s: SourceText,
)
    requires
        0 <= k <= j < deps.len(),
        deps[j].is_include,
        deps[j].target == Some((f, s)),
        !active.contains(f),
        active.len() < usize::MAX,
        ws.file_deps.contains_key(f.raw),
        spliced_def(
            db,
            ws,
            db.deps[ws.file_deps[f.raw].id as int],
            0,
            name,
            active.push(f),
        ) is Some,
    ensures
        spliced_def(db, ws, deps, k, name, active) is Some,
    decreases j - k,
{
    if k < j {
        law_splicing_goes_on(db, ws, deps, k + 1, name, active, j, f, s);
    }
}

/// Imports that are not spliced in bring nothing in this way.
pub proof fn law_only_splices_are_spliced(
    db: DbView,
    ws: WsView,
    deps: Seq<DepView>,
    k: int,
    name: Seq<char>,
    active: Seq<FileId>,
)
    requires
        0 <= k,
        forall|j: int| #![trigger deps[j]] k <= j < deps.len() ==> !deps[j].is_include,
    ensures
        spliced_def(db, ws, deps, k, name, active) is None,
    decreases deps.len() - k,
{
    if k < deps.len() {
        assert(!deps[k].is_include);
        law_only_splices_are_spliced(db, ws, deps, k + 1, name, active);
    }
}

// ---------------------------------------------------------------------------
// Symbols
// ---------------------------------------------------------------------------

/// Which items declare what.
pub proof fn law_kinds_of_symbols()
    ensures
        item_symbol_kind(CIRCUIT_DEF) == Some(SymbolKind::Circuit),
        item_symbol_kind(CIRCUIT_DECL) == Some(SymbolKind::CircuitSig),
        item_symbol_kind(WITNESS_DECL) == Some(SymbolKind::Witness),
        item_symbol_kind(LEDGER_DECL) == Some(SymbolKind::Ledger),
        item_symbol_kind(TYPE_DECL) == Some(SymbolKind::TypeAlias),
        item_symbol_kind(STRUCT_DEF) == Some(SymbolKind::Struct),
        item_symbol_kind(ENUM_DEF) == Some(SymbolKind::Enum),
        item_symbol_kind(CONTRACT_DECL) == Some(SymbolKind::Contract),
        item_symbol_kind(MODULE_DEF) == Some(SymbolKind::Module),
        item_symbol_kind(IMPORT) is None,
{
}

/// Whether a symbol is that of declaration `n`: its place, its name, and an
/// export where the declaration carries the keyword.
pub open spec fn declares_item(s: SymbolView, t: Tree, n: int, parent: Option<u32>) -> bool {
    &&& s.parent == parent
    &&& s.full_range == range_of(t, n)
    &&& item_symbol_kind(t[n].kind) matches Some(k) ==> s.kind == k && s.exported == (child_token(
        t,
        n,
        EXPORT_KW,
    ) is Some) && (child_token(t, n, IDENT) matches Some(x) ==> s.name == t[x].text && s.name_range
        == range_of(t, x))
    &&& t[n].kind == CONSTRUCTOR_DEF ==> s.kind == SymbolKind::Constructor && !s.exported
    &&& s.doc == docs_of(t, n)
    &&& s.signature == signature_of(t, n)
    &&& s.generic_param_count == (if t[n].kind == CIRCUIT_DEF || t[n].kind == CIRCUIT_DECL
        || t[n].kind == WITNESS_DECL || t[n].kind == TYPE_DECL || t[n].kind == STRUCT_DEF {
        generics_listed(t, n)
    } else {
        0
    })
}

/// The number of generic parameters that a declaration lists, as far as it can
/// be counted.
pub open spec fn generics_listed(t: Tree, n: int) -> nat {
    match child(t, n, Class::Kind(GENERIC_PARAM_LIST)) {
        Some(p) => if children(t, p, Class::Kind(GENERIC_PARAM)).len() <= u32::MAX {
            children(t, p, Class::Kind(GENERIC_PARAM)).len()
        } else {
            u32::MAX as nat
        },
        None => 0,
    }
}

proof fn lemma_items_found(
    t: Tree,
    syms: Seq<SymbolView>,
    kids: Seq<int>,
    k: int,
    parent: Option<u32>,
    after: int,
    j: int,
) -> (i: int)
    requires
        0 <= k <= j < kids.len(),
        forall|a: int| #![trigger kids[a]] 0 <= a < kids.len() ==> after < kids[a] < t.len(),
        t[kids[j]].kind == CONSTRUCTOR_DEF || item_symbol_kind(t[kids[j]].kind) is Some,
    ensures
        syms.len() <= i < with_items(t, syms, kids, k, parent, after).len(),
        declares_item(with_items(t, syms, kids, k, parent, after)[i], t, kids[j], parent),
    decreases j - k,
{
    let next = with_item(t, syms, kids[k], parent);
    law_one_item_is_added(t, syms, kids[k], parent);
    if k == j {
        lemma_items_kept(t, next, kids, k + 1, parent, after, syms.len() as int);
        syms.len() as int
    } else {
        lemma_items_found(t, next, kids, k + 1, parent, after, j)
    }
}

proof fn lemma_items_kept(
    t: Tree,
    syms: Seq<SymbolView>,
    kids: Seq<int>,
    k: int,
    parent: Option<u32>,
    after: int,
    i: int,
)
    requires
        0 <= k,
        0 <= i < syms.len(),
        forall|a: int| #![trigger kids[a]] 0 <= a < kids.len() ==> after < kids[a] < t.len(),
    ensures
        with_items(t, syms, kids, k, parent, after).len() >= syms.len(),
        with_items(t, syms, kids, k, parent, after)[i] == syms[i],
    decreases kids.len() - k,
{
    if k < kids.len() {
        let next = with_item(t, syms, kids[k], parent);
        law_one_item_is_added(t, syms, kids[k], parent);
        assert(next[i] == syms[i]);
        lemma_items_kept(t, next, kids, k + 1, parent, after, i);
    }
}

/// Every declaration at the top level of a file is one of its symbols, with its
/// name, its kind, its place and its export.
pub proof fn law_every_declaration_is_a_symbol(t: Tree, n: int)
    requires
        nested(t),
        t.len() > 0,
        !t[0].token,
        t[0].kind == SOURCE_FILE,
        0 <= n < t.len(),
        t[n].parent == Some(0int),
        !t[n].token,
        t[n].kind == CONSTRUCTOR_DEF || t[n].kind == CIRCUIT_DEF || t[n].kind == CIRCUIT_DECL
            || t[n].kind == WITNESS_DECL || t[n].kind == LEDGER_DECL || t[n].kind == TYPE_DECL
            || t[n].kind == STRUCT_DEF || t[n].kind == ENUM_DEF || t[n].kind == CONTRACT_DECL
            || t[n].kind == MODULE_DEF,
    ensures
        exists|i: int|
            0 <= i < symbols_of(t).len() && declares_item(#[trigger] symbols_of(t)[i], t, n, None),
{
    let kids = children(t, 0, Class::Item);
    law_children(t, 0, Class::Item, n);
    lemma_nodes_from(t, 1, t[0].next, Class::Item);
    let j = kids.index_of(n);
    let i = lemma_items_found(t, Seq::empty(), kids, 0, None, 0, j);
    assert(declares_item(symbols_of(t)[i], t, n, None));
}

/// Every declaration directly inside a module is a symbol inside it.
pub proof fn law_every_declaration_of_a_module_is_a_symbol(
    t: Tree,
    syms: Seq<SymbolView>,
    m: int,
    parent: Option<u32>,
    n: int,
)
    requires
        nested(t),
        0 <= m < t.len(),
        t[m].kind == MODULE_DEF,
        0 <= n < t.len(),
        t[n].parent == Some(m),
        !t[n].token,
        t[n].kind == CONSTRUCTOR_DEF || t[n].kind == CIRCUIT_DEF || t[n].kind == CIRCUIT_DECL
            || t[n].kind == WITNESS_DECL || t[n].kind == LEDGER_DECL || t[n].kind == TYPE_DECL
            || t[n].kind == STRUCT_DEF || t[n].kind == ENUM_DEF || t[n].kind == CONTRACT_DECL
            || t[n].kind == MODULE_DEF,
        syms.len() < u32::MAX,
    ensures
        exists|i: int|
            syms.len() < i < with_item(t, syms, m, parent).len() && declares_item(
                #[trigger] with_item(t, syms, m, parent)[i],
                t,
                n,
                Some(syms.len() as u32),
            ),
{
    let kids = children(t, m, Class::Item);
    law_children(t, m, Class::Item, n);
    lemma_nodes_from(t, m + 1, t[m].next, Class::Item);
    let j = kids.index_of(n);
    let own = syms.push(named_symbol(t, m, SymbolKind::Module, parent));
    let i = lemma_items_found(t, own, kids, 0, Some(syms.len() as u32), m, j);
    assert(declares_item(with_item(t, syms, m, parent)[i], t, n, Some(syms.len() as u32)));
}

/// Whether a symbol is that of member `n` of a container.
pub open spec fn declares_member(
    s: SymbolView,
    t: Tree,
    n: int,
    x: int,
    exported: bool,
    parent: u32,
) -> bool {
    &&& s.parent == Some(parent)
    &&& s.full_range == range_of(t, n)
    &&& s.name == t[x].text
    &&& s.name_range == range_of(t, x)
    &&& s.exported == exported
    &&& t[n].kind == STRUCT_FIELD ==> s.kind == SymbolKind::StructField
    &&& t[n].kind == ENUM_VARIANT ==> s.kind == SymbolKind::EnumVariant
    &&& t[n].kind == CONTRACT_CIRCUIT ==> s.kind == SymbolKind::ContractCircuit
    &&& t[n].kind == CONTRACT_CIRCUIT ==> s.signature == signature_of(t, n)
    &&& t[n].kind == ENUM_VARIANT ==> s.signature == s.name && s.doc is None
    &&& t[n].kind != ENUM_VARIANT ==> s.doc == docs_of(t, n)
    &&& t[n].kind == STRUCT_FIELD ==> s.signature == (match child(t, n, Class::Type) {
        Some(ty) => s.name + ": "@ + collapsed(text_of(t, ty)),
        None => s.name,
    })
    &&& s.generic_param_count == 0
}

proof fn lemma_members_found(
    t: Tree,
    syms: Seq<SymbolView>,
    kids: Seq<int>,
    k: int,
    exported: bool,
    parent: u32,
    j: int,
    x: int,
) -> (i: int)
    requires
        0 <= k <= j < kids.len(),
        child_token(t, kids[j], IDENT) == Some(x),
    ensures
        syms.len() <= i < with_members(t, syms, kids, k, exported, parent).len(),
        declares_member(
            with_members(t, syms, kids, k, exported, parent)[i],
            t,
            kids[j],
            x,
            exported,
            parent,
        ),
    decreases j - k,
{
    match child_token(t, kids[k], IDENT) {
        Some(y) => {
            let next = syms.push(
                member_symbol(t, kids[k], y, exported, parent),
            );
            if k == j {
                lemma_members_kept(t, next, kids, k + 1, exported, parent, syms.len() as int);
                syms.len() as int
            } else {
                lemma_members_found(t, next, kids, k + 1, exported, parent, j, x)
            }
        },
        None => lemma_members_found(t, syms, kids, k + 1, exported, parent, j, x),
    }
}

proof fn lemma_members_kept(
    t: Tree,
    syms: Seq<SymbolView>,
    kids: Seq<int>,
    k: int,
    exported: bool,
    parent: u32,
    i: int,
)
    requires
        0 <= k,
        0 <= i < syms.len(),
    ensures
        with_members(t, syms, kids, k, exported, parent).len() >= syms.len(),
        with_members(t, syms, kids, k, exported, parent)[i] == syms[i],
    decreases kids.len() - k,
{
    if k < kids.len() {
        match child_token(t, kids[k], IDENT) {
            Some(y) => {
                let next = syms.push(
                    member_symbol(t, kids[k], y, exported, parent),
                );
                lemma_members_kept(t, next, kids, k + 1, exported, parent, i);
            },
            None => lemma_members_kept(t, syms, kids, k + 1, exported, parent, i),
        }
    }
}

/// Every named field of a struct, variant of an enum and circuit of a contract is
/// a symbol inside it, exported with it.
pub proof fn law_every_member_is_a_symbol(
    t: Tree,
    syms: Seq<SymbolView>,
    m: int,
    parent: Option<u32>,
    n: int,
    x: int,
)
    requires
        nested(t),
        0 <= m < t.len(),
        0 <= n < t.len(),
        t[n].parent == Some(m),
        !t[n].token,
        (t[m].kind == STRUCT_DEF && t[n].kind == STRUCT_FIELD) || (t[m].kind == ENUM_DEF && t[n].kind
            == ENUM_VARIANT) || (t[m].kind == CONTRACT_DECL && t[n].kind == CONTRACT_CIRCUIT),
        child_token(t, n, IDENT) == Some(x),
        syms.len() < u32::MAX,
    ensures
        exists|i: int|
            syms.len() < i < with_item(t, syms, m, parent).len() && declares_member(
                #[trigger] with_item(t, syms, m, parent)[i],
                t,
                n,
                x,
                child_token(t, m, EXPORT_KW) is Some,
                syms.len() as u32,
            ),
{
    let class = Class::Kind(t[n].kind);
    let kids = children(t, m, class);
    law_children(t, m, class, n);
    let j = kids.index_of(n);
    let kind = item_symbol_kind(t[m].kind)->0;
    let own = syms.push(named_symbol(t, m, kind, parent));
    let exported = child_token(t, m, EXPORT_KW) is Some;
    let i = lemma_members_found(t, own, kids, 0, exported, syms.len() as u32, j, x);
    assert(declares_member(
        with_item(t, syms, m, parent)[i],
        t,
        n,
        x,
        exported,
        syms.len() as u32,
    ));
}

// ---------------------------------------------------------------------------
// Import specifiers
// ---------------------------------------------------------------------------

proof fn lemma_alias(t: Tree, i: int, end: int)
    requires
        well_formed(t),
        0 <= i,
    ensures
        alias_from(t, i, end, true) == token_from(t, i, end, IDENT),
        alias_from(t, i, end, false) == (match token_from(t, i, end, AS_KW) {
            Some(a) => token_from(t, t[a].next, end, IDENT),
            None => None,
        }),
    decreases t.len() - i,
{
    if i < end && i < t.len() {
        lemma_alias(t, t[i].next, end);
    }
}

/// The alias of an import specifier is the first identifier behind its `as`;
/// without an `as` it has none.
pub proof fn law_alias_stands_behind_as(t: Tree, n: int)
    requires
        well_formed(t),
        0 <= n < t.len(),
    ensures
        child_token(t, n, AS_KW) is None ==> alias_of(t, n) is None,
        child_token(t, n, AS_KW) matches Some(a) ==> (match token_from(
            t,
            t[a].next,
            t[n].next,
            IDENT,
        ) {
            Some(x) => alias_of(t, n) == Some(t[x].text),
            None => alias_of(t, n) is None,
        }),
{
    lemma_alias(t, n + 1, t[n].next);
}

/// The name that an import specifier lists stands for what the import brings
/// in under it: a symbol of the standard library, or an exported symbol of a
/// module of the file. Its alias stands for nothing by itself.
pub proof fn law_listed_name_is_what_is_imported(
    c: CtxView,
    offset: u32,
    x: int,
    p: int,
    first: int,
    import: int,
    y: int,
)
    requires
        ident_at(c.tree(), offset) == Some(x),
        c.tree()[x].parent == Some(p),
        c.tree()[p].kind == IMPORT_SPECIFIER,
        child_token(c.tree(), p, IDENT) == Some(first),
        nearest(c.tree(), p, Class::Kind(IMPORT)) == Some(import),
        child_token(c.tree(), import, IDENT) == Some(y),
    ensures
        ({
            let t = c.tree();
            let name = t[x].text;
            let module = symbol_from(
                c.syms(),
                0,
                None,
                t[y].text,
                false,
                Some(SymbolKind::Module),
            );
            &&& t[first].text != name ==> resolved(c, offset) is None
            &&& t[first].text == name && t[y].text == "CompactStandardLibrary"@ ==> resolved(
                c,
                offset,
            ) == stdlib_member(c.db, c.ws, name)
            &&& t[first].text == name && t[y].text != "CompactStandardLibrary"@ ==> (match module {
                Some(m) => match symbol_from(c.syms(), 0, Some(m), name, true, None) {
                    Some(index) => resolved(c, offset) == Some(
                        (DefView::Item { file: c.file, index }),
                    ),
                    None => resolved(c, offset) is None,
                },
                None => resolved(c, offset) is None,
            })
        }),
{
}

// ---------------------------------------------------------------------------
// Looking up symbols
// ---------------------------------------------------------------------------

/// A symbol that is looked up lies directly inside the container that is asked
/// for, and has the name, the kind and the export that are asked for. One is
/// found wherever such a symbol exists, and no later one than that.
pub proof fn law_lookup_goes_by_fields(
    syms: Seq<SymbolView>,
    parent: Option<u32>,
    name: Seq<char>,
    exported_only: bool,
    kind: Option<SymbolKind>,
    j: int,
)
    requires
        syms.len() <= u32::MAX,
    ensures
        symbol_from(syms, 0, parent, name, exported_only, kind) matches Some(i) ==> i < syms.len()
            && syms[i as int].parent == parent && syms[i as int].name == name && (exported_only
            ==> syms[i as int].exported) && (kind matches Some(k) ==> syms[i as int].kind == k),
        0 <= j < syms.len() && syms[j].parent == parent && syms[j].name == name && (exported_only
            ==> syms[j].exported) && (kind matches Some(k) ==> syms[j].kind == k) ==> (symbol_from(
            syms,
            0,
            parent,
            name,
            exported_only,
            kind,
        ) matches Some(i) && i <= j),
{
    law_first_symbol_wins(syms, 0, parent, name, exported_only, kind);
    if 0 <= j < syms.len() {
        assert(syms[j] == syms[j]);
    }
}

// ---------------------------------------------------------------------------
// What a file asks for
// ---------------------------------------------------------------------------

proof fn lemma_import_targets(
    t: Tree,
    syms: Seq<SymbolView>,
    kids: Seq<int>,
    k: int,
    d: RawDepView,
)
    requires
        0 <= k,
    ensures
        import_targets(t, syms, kids, k).contains(d) <==> exists|i: int|
            k <= i < kids.len() && !d.is_include && #[trigger] import_target(t, syms, kids[i])
                == Some(d.raw),
    decreases kids.len() - k,
{
    if k < kids.len() {
        lemma_import_targets(t, syms, kids, k + 1, d);
        let rest = import_targets(t, syms, kids, k + 1);
        let all = import_targets(t, syms, kids, k);
        if let Some(raw) = import_target(t, syms, kids[k]) {
            let mine = RawDepView { raw, is_include: false };
            assert(all == seq![mine] + rest);
            assert(all[0] == mine);
            if rest.contains(d) {
                assert(all[rest.index_of(d) + 1] == d);
            }
            if all.contains(d) && d != mine {
                assert(rest[all.index_of(d) - 1] == d);
            }
        }
    }
}

proof fn lemma_splice_targets(t: Tree, kids: Seq<int>, k: int, d: RawDepView)
    requires
        0 <= k,
    ensures
        splice_targets(t, kids, k).contains(d) <==> exists|i: int|
            k <= i < kids.len() && d.is_include && (child_token(
                t,
                #[trigger] kids[i],
                STRING_LIT,
            ) matches Some(x) && d.raw == unquoted(t[x].text)),
    decreases kids.len() - k,
{
    if k < kids.len() {
        lemma_splice_targets(t, kids, k + 1, d);
        let rest = splice_targets(t, kids, k + 1);
        let all = splice_targets(t, kids, k);
        if let Some(x) = child_token(t, kids[k], STRING_LIT) {
            let mine = RawDepView { raw: unquoted(t[x].text), is_include: true };
            assert(all == seq![mine] + rest);
            assert(all[0] == mine);
            if rest.contains(d) {
                assert(all[rest.index_of(d) + 1] == d);
            }
            if all.contains(d) && d != mine {
                assert(rest[all.index_of(d) - 1] == d);
            }
            if d == mine {
                assert(kids[k] == kids[k]);
            }
        }
    }
}

/// Whether declaration `n` at the top level of a file asks for target `d`: an
/// import by a path, an import by a name that is neither the standard library
/// nor a module of the file, or a file to splice in.
pub open spec fn asks_for(t: Tree, syms: Seq<SymbolView>, n: int, d: RawDepView) -> bool {
    &&& 0 <= n < t.len()
    &&& t[n].parent == Some(0int)
    &&& !t[n].token
    &&& d.is_include ==> t[n].kind == INCLUDE && (child_token(t, n, STRING_LIT) matches Some(x)
        && d.raw == unquoted(t[x].text))
    &&& !d.is_include ==> t[n].kind == IMPORT && (match child_token(t, n, IDENT) {
        Some(x) => d.raw == t[x].text && d.raw != "CompactStandardLibrary"@ && forall|j: int|
            0 <= j < syms.len() ==> !((#[trigger] syms[j]).kind == SymbolKind::Module
                && syms[j].parent is None && syms[j].name == d.raw),
        None => child_token(t, n, STRING_LIT) matches Some(x) && d.raw == unquoted(t[x].text),
    })
}

proof fn lemma_target(t: Tree, syms: Seq<SymbolView>, n: int, d: RawDepView)
    requires
        0 <= n < t.len(),
        t[n].parent == Some(0int),
        !t[n].token,
        t[n].kind == IMPORT,
        !d.is_include,
        syms.len() <= u32::MAX,
    ensures
        import_target(t, syms, n) == Some(d.raw) <==> asks_for(t, syms, n, d),
{
    if let Some(x) = child_token(t, n, IDENT) {
        let name = t[x].text;
        law_first_symbol_wins(syms, 0, None, name, false, Some(SymbolKind::Module));
        if let Some(i) = symbol_from(syms, 0, None, name, false, Some(SymbolKind::Module)) {
            assert(syms[i as int].kind == SymbolKind::Module);
        }
    }
}

/// The targets of a file are exactly those that its imports and its splices at
/// the top level ask for.
pub proof fn law_targets_of_a_file(t: Tree, syms: Seq<SymbolView>, d: RawDepView)
    requires
        nested(t),
        t.len() > 0,
        !t[0].token,
        t[0].kind == SOURCE_FILE,
        syms.len() <= u32::MAX,
    ensures
        targets_of(t, syms).contains(d) <==> exists|n: int| #[trigger] asks_for(t, syms, n, d),
{
    let imports = children(t, 0, Class::Kind(IMPORT));
    let splices = children(t, 0, Class::Kind(INCLUDE));
    let a = import_targets(t, syms, imports, 0);
    let b = splice_targets(t, splices, 0);
    lemma_import_targets(t, syms, imports, 0, d);
    lemma_splice_targets(t, splices, 0, d);
    if (a + b).contains(d) {
        lemma_in_sum(a, b, d);
        if a.contains(d) {
            let i = choose|i: int|
                0 <= i < imports.len() && !d.is_include && #[trigger] import_target(
                    t,
                    syms,
                    imports[i],
                ) == Some(d.raw);
            law_children(t, 0, Class::Kind(IMPORT), imports[i]);
            assert(imports.contains(imports[i]));
            lemma_target(t, syms, imports[i], d);
            assert(asks_for(t, syms, imports[i], d));
        } else {
            let i = choose|i: int|
                0 <= i < splices.len() && d.is_include && (child_token(
                    t,
                    #[trigger] splices[i],
                    STRING_LIT,
                ) matches Some(x) && d.raw == unquoted(t[x].text));
            law_children(t, 0, Class::Kind(INCLUDE), splices[i]);
            assert(splices.contains(splices[i]));
            assert(asks_for(t, syms, splices[i], d));
        }
    }
    if exists|n: int| #[trigger] asks_for(t, syms, n, d) {
        let n = choose|n: int| #[trigger] asks_for(t, syms, n, d);
        if d.is_include {
            law_children(t, 0, Class::Kind(INCLUDE), n);
            let i = splices.index_of(n);
            assert(splices[i] == n);
            lemma_in_right(a, b, d);
        } else {
            law_children(t, 0, Class::Kind(IMPORT), n);
            let i = imports.index_of(n);
            lemma_target(t, syms, n, d);
            assert(import_target(t, syms, imports[i]) == Some(d.raw));
            lemma_in_left(a, b, d);
        }
    }
}

/// A file sees its own text, the registered standard library, and every other
/// file as the workspace lists it.
pub proof fn law_text_of_a_file(c: CtxView, target: FileId, s: SourceText)
    ensures
        source_of(c, c.file) == Some(c.src),
        target != c.file && c.ws.stdlib == Some((target, s)) ==> source_of(c, target) == Some(s),
        target != c.file && !(c.ws.stdlib matches Some(p) && p.0 == target) ==> source_of(c, target)
            == (if c.ws.file_srcs.contains_key(target.raw) {
            Some(c.ws.file_srcs[target.raw])
        } else {
            None
        }),
{
}

/// Every node that can declare a symbol counts as an item.
pub proof fn law_only_items_declare(t: Tree, syms: Seq<SymbolView>, n: int, parent: Option<u32>)
    requires
        !in_class(Class::Item, t[n].kind),
    ensures
        with_item(t, syms, n, parent) == syms,
{
}

} // verus!
