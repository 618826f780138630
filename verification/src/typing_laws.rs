//! Laws of types: of annotations, of named types and of expressions.

use vstd::arithmetic::power2::pow2;
use vstd::prelude::*;

use crate::db::{resolved, source_of, CtxView, FileDeps, SourceText};
use crate::infer::{
    annotated, decl_named, int_literal, literal_number, lowered, lowered_list, shown_list,
    shown_type,
};
use crate::item_tree::{SymbolKind, SymbolView};
use crate::kinds::{
    in_class, Class, ARRAY_EXPR, BOOLEAN_TYPE, BYTES_TYPE, CALL_EXPR, CAST_EXPR, CIRCUIT_DEF,
    CONST_STMT, DOT, FALSE_KW, FIELD_TYPE, IDENT, IDENT_PAT, LITERAL_EXPR, MEMBER_EXPR, NAME_EXPR,
    PARAM, SPREAD_EXPR, STRUCT_DEF, STRUCT_EXPR, STRUCT_FIELD, TRUE_KW, TUPLE_TYPE, TYPE_REF,
    TYPE_SIZE, UINT_TYPE, VECTOR_TYPE, WITNESS_DECL,
};
use crate::resolve::{anchor, DefView};
use crate::scope_laws::{lemma_in_left, lemma_in_right, lemma_in_sum};
use crate::syntax::{
    child, child_token, children, lemma_node_from, lemma_nodes_from, nearest, range_of, text_of,
    well_formed, Tree,
};
use crate::text::TextRange;
use crate::ty::TyView;
use crate::typing::{
    binding_type, callable, callables_named, callee_params, deps_of, expr_type, field_named,
    field_type, named_type, param_types, resolved_type, struct_fields, token_spanning, type_around,
    variant_names, MAX_NOMINAL_DEPTH,
};
use crate::vfs::FileId;

verus! {

// ---------------------------------------------------------------------------
// Annotations
// ---------------------------------------------------------------------------

/// The annotations `Boolean` and `Field` are those types, wherever they stand.
pub proof fn law_simple_annotations(c: CtxView, t: Tree, ty: int)
    requires
        0 <= ty < t.len(),
    ensures
        t[ty].kind == BOOLEAN_TYPE ==> annotated(t, ty) is Boolean && lowered(t, ty) is Boolean,
        t[ty].kind == FIELD_TYPE ==> annotated(t, ty) is Field && lowered(t, ty) is Field,
        t[ty].kind == UINT_TYPE ==> lowered(t, ty) == annotated(t, ty) && (annotated(t, ty) is Uint
            || annotated(t, ty) is Unknown),
        t == c.tree() && t[ty].kind != TYPE_REF ==> resolved_type(c, ty) == lowered(t, ty),
{
}

/// A number of `k` bits lies below two to the `k`. Widths beyond those that can
/// be written as a bound have none, and widths that do not exist are unknown.
pub proof fn law_width_annotation(t: Tree, ty: int, k: u128)
    requires
        t[ty].kind == UINT_TYPE,
        children(t, ty, Class::Kind(TYPE_SIZE)).len() == 1,
        int_literal(text_of(t, children(t, ty, Class::Kind(TYPE_SIZE))[0])) == Some(k),
    ensures
        1 <= k < 128 ==> annotated(t, ty) == TyView::Uint(Some(pow2(k as nat) as u128)),
        128 <= k <= 248 ==> annotated(t, ty) == TyView::Uint(None),
        k == 0 || k > 248 ==> annotated(t, ty) is Unknown,
{
}

/// A range from zero is bounded by its end; any other range is unknown.
pub proof fn law_range_annotation(t: Tree, ty: int, hi: nat)
    requires
        t[ty].kind == UINT_TYPE,
        children(t, ty, Class::Kind(TYPE_SIZE)).len() == 2,
        literal_number(text_of(t, children(t, ty, Class::Kind(TYPE_SIZE))[1])) == Some(hi),
    ensures
        ({
            let lo = int_literal(text_of(t, children(t, ty, Class::Kind(TYPE_SIZE))[0]));
            &&& lo == Some(0u128) && 0 < hi <= u128::MAX ==> annotated(t, ty) == TyView::Uint(
                Some(hi as u128),
            )
            &&& lo == Some(0u128) && hi > u128::MAX ==> annotated(t, ty) == TyView::Uint(None)
            &&& lo != Some(0u128) || hi == 0 ==> annotated(t, ty) is Unknown
        }),
{
}

/// Byte arrays and vectors have the length that is written.
pub proof fn law_sized_annotations(t: Tree, ty: int, s: int, k: u128)
    requires
        well_formed(t),
        0 <= ty < t.len(),
        child(t, ty, Class::Kind(TYPE_SIZE)) == Some(s),
        int_literal(text_of(t, s)) == Some(k),
        k <= u32::MAX,
    ensures
        t[ty].kind == BYTES_TYPE ==> lowered(t, ty) == TyView::Bytes(k as u32),
        t[ty].kind == VECTOR_TYPE ==> (child(t, ty, Class::Type) matches Some(e) ==> lowered(t, ty)
            == TyView::Vector(k as u32, Box::new(lowered(t, e)))),
{
    lemma_node_from(t, ty + 1, t[ty].next, Class::Type);
}

proof fn lemma_lowered_list(t: Tree, kids: Seq<int>, k: int, after: int)
    requires
        0 <= k <= kids.len(),
        forall|a: int| #![trigger kids[a]] 0 <= a < kids.len() ==> after < kids[a] < t.len(),
    ensures
        lowered_list(t, kids, k, after).len() == kids.len() - k,
        forall|j: int|
            #![trigger kids[j]]
            k <= j < kids.len() ==> lowered_list(t, kids, k, after)[j - k] == lowered(t, kids[j]),
    decreases kids.len() - k,
{
    if k < kids.len() {
        lemma_lowered_list(t, kids, k + 1, after);
        let rest = lowered_list(t, kids, k + 1, after);
        let all = lowered_list(t, kids, k, after);
        assert forall|j: int| #![trigger kids[j]] k <= j < kids.len() implies all[j - k] == lowered(
            t,
            kids[j],
        ) by {
            if j > k {
                assert(all[j - k] == rest[j - (k + 1)]);
            }
        }
    }
}

/// A tuple annotation has one element type for each type in it, in order.
pub proof fn law_tuple_annotation(t: Tree, ty: int, j: int)
    requires
        well_formed(t),
        0 <= ty < t.len(),
        t[ty].kind == TUPLE_TYPE,
        0 <= j < children(t, ty, Class::Type).len(),
    ensures
        lowered(t, ty) matches TyView::Tuple(v) && v.len() == children(t, ty, Class::Type).len()
            && v[j] == lowered(t, children(t, ty, Class::Type)[j]),
{
    let kids = children(t, ty, Class::Type);
    lemma_nodes_from(t, ty + 1, t[ty].next, Class::Type);
    lemma_lowered_list(t, kids, 0, ty);
    assert(kids[j] == kids[j]);
}

// ---------------------------------------------------------------------------
// Named types
// ---------------------------------------------------------------------------

proof fn lemma_fields(
    c: CtxView,
    fd: Option<FileDeps>,
    kids: Seq<int>,
    k: int,
    visited: Seq<Seq<char>>,
)
    requires
        0 <= k <= kids.len(),
        visited.len() <= MAX_NOMINAL_DEPTH,
        forall|a: int|
            #![trigger kids[a]]
            0 <= a < kids.len() ==> child_token(c.tree(), kids[a], IDENT) is Some,
    ensures
        struct_fields(c, fd, kids, k, visited).len() == kids.len() - k,
        forall|j: int|
            #![trigger kids[j]]
            k <= j < kids.len() ==> ({
                let f = struct_fields(c, fd, kids, k, visited)[j - k];
                let x = child_token(c.tree(), kids[j], IDENT)->0;
                &&& f.0 == c.tree()[x].text
                &&& child(c.tree(), kids[j], Class::Type) matches Some(ty) ==> f.1 == field_type(
                    c,
                    fd,
                    ty,
                    visited,
                )
                &&& child(c.tree(), kids[j], Class::Type) is None ==> f.1 is Unknown
            }),
    decreases kids.len() - k,
{
    if k < kids.len() {
        assert(child_token(c.tree(), kids[k], IDENT) is Some);
        lemma_fields(c, fd, kids, k + 1, visited);
        let rest = struct_fields(c, fd, kids, k + 1, visited);
        let all = struct_fields(c, fd, kids, k, visited);
        assert forall|j: int| #![trigger kids[j]] k <= j < kids.len() implies ({
            let f = all[j - k];
            let x = child_token(c.tree(), kids[j], IDENT)->0;
            &&& f.0 == c.tree()[x].text
            &&& child(c.tree(), kids[j], Class::Type) matches Some(ty) ==> f.1 == field_type(
                c,
                fd,
                ty,
                visited,
            )
            &&& child(c.tree(), kids[j], Class::Type) is None ==> f.1 is Unknown
        }) by {
            if j > k {
                assert(all[j - k] == rest[j - (k + 1)]);
            }
        }
    }
}

/// The type of a struct name has the struct's name and one field for each field
/// that is declared, in order, under its name and with its annotation; names in
/// the annotations are looked up in the file that declares the struct.
pub proof fn law_struct_type_has_the_declared_fields(
    c: CtxView,
    offset: u32,
    file: FileId,
    index: u32,
    s: SourceText,
    n: int,
    j: int,
    x: int,
    ty: int,
)
    requires
        resolved(c, offset) == Some(DefView::Item { file, index }),
        source_of(c, file) == Some(s),
        index < c.db.sources[s.id as int].syms.len(),
        c.db.sources[s.id as int].syms[index as int].kind == SymbolKind::Struct,
        decl_named(
            c.db.sources[s.id as int].tree,
            STRUCT_DEF,
            c.db.sources[s.id as int].syms[index as int].name_range,
        ) == Some(n),
        forall|a: int|
            #![trigger children(c.db.sources[s.id as int].tree, n, Class::Kind(STRUCT_FIELD))[a]]
            0 <= a < children(
                c.db.sources[s.id as int].tree,
                n,
                Class::Kind(STRUCT_FIELD),
            ).len() ==> child_token(
                c.db.sources[s.id as int].tree,
                children(c.db.sources[s.id as int].tree, n, Class::Kind(STRUCT_FIELD))[a],
                IDENT,
            ) is Some,
        0 <= j < children(c.db.sources[s.id as int].tree, n, Class::Kind(STRUCT_FIELD)).len(),
        child_token(
            c.db.sources[s.id as int].tree,
            children(c.db.sources[s.id as int].tree, n, Class::Kind(STRUCT_FIELD))[j],
            IDENT,
        ) == Some(x),
        child(
            c.db.sources[s.id as int].tree,
            children(c.db.sources[s.id as int].tree, n, Class::Kind(STRUCT_FIELD))[j],
            Class::Type,
        ) == Some(ty),
    ensures
        ({
            let t = c.db.sources[s.id as int].tree;
            let sym = c.db.sources[s.id as int].syms[index as int];
            let kids = children(t, n, Class::Kind(STRUCT_FIELD));
            let there = CtxView { file, src: s, ..c };
            named_type(c, offset, Seq::empty()) matches TyView::Struct { name, fields } && name
                == sym.name && fields.len() == kids.len() && fields[j].0 == t[x].text && (
            t[ty].kind != TYPE_REF ==> fields[j].1 == lowered(t, ty)) && (t[ty].kind == TYPE_REF
                ==> fields[j].1 == (match (child_token(t, ty, IDENT), deps_of(c, file)) {
                (Some(y), Some(d)) => named_type(
                    CtxView { fd: d, ..there },
                    t[y].start,
                    seq![sym.name],
                ),
                _ => TyView::Unknown,
            }))
        }),
{
    let t = c.db.sources[s.id as int].tree;
    let sym = c.db.sources[s.id as int].syms[index as int];
    let kids = children(t, n, Class::Kind(STRUCT_FIELD));
    let there = CtxView { file, src: s, ..c };
    let none = Seq::<Seq<char>>::empty();
    assert(none.push(sym.name) =~= seq![sym.name]);
    assert forall|a: int| #![trigger kids[a]] 0 <= a < kids.len() implies child_token(
        there.tree(),
        kids[a],
        IDENT,
    ) is Some by {
        assert(child_token(t, children(t, n, Class::Kind(STRUCT_FIELD))[a], IDENT) is Some);
    }
    lemma_fields(there, deps_of(c, file), kids, 0, seq![sym.name]);
    assert(kids[j] == kids[j]);
}

/// A struct inside itself is unknown, so that no cycle is followed.
pub proof fn law_recursive_struct_is_cut(
    c: CtxView,
    offset: u32,
    file: FileId,
    index: u32,
    s: SourceText,
    visited: Seq<Seq<char>>,
)
    requires
        resolved(c, offset) == Some(DefView::Item { file, index }),
        source_of(c, file) == Some(s),
        index < c.db.sources[s.id as int].syms.len(),
        c.db.sources[s.id as int].syms[index as int].kind == SymbolKind::Struct,
        visited.contains(c.db.sources[s.id as int].syms[index as int].name),
    ensures
        named_type(c, offset, visited) is Unknown,
{
}

proof fn lemma_variants(syms: Seq<SymbolView>, i: int, index: u32, name: Seq<char>)
    requires
        0 <= i,
    ensures
        variant_names(syms, i, index).contains(name) <==> exists|j: int|
            i <= j < syms.len() && (#[trigger] syms[j]).parent == Some(index) && syms[j].kind
                == SymbolKind::EnumVariant && syms[j].name == name,
    decreases syms.len() - i,
{
    if i < syms.len() {
        lemma_variants(syms, i + 1, index, name);
        let rest = variant_names(syms, i + 1, index);
        if syms[i].parent == Some(index) && syms[i].kind == SymbolKind::EnumVariant {
            let own = seq![syms[i].name];
            assert(own[0] == syms[i].name);
            if rest.contains(name) {
                lemma_in_right(own, rest, name);
            }
            if own.contains(name) {
                lemma_in_left(own, rest, name);
            }
            if (own + rest).contains(name) {
                lemma_in_sum(own, rest, name);
            }
        }
    }
}

/// The type of an enum name has the enum's name and exactly the variants that are
/// declared in it.
pub proof fn law_enum_type_has_the_declared_variants(
    c: CtxView,
    offset: u32,
    file: FileId,
    index: u32,
    s: SourceText,
    variant: Seq<char>,
)
    requires
        resolved(c, offset) == Some(DefView::Item { file, index }),
        source_of(c, file) == Some(s),
        index < c.db.sources[s.id as int].syms.len(),
        c.db.sources[s.id as int].syms[index as int].kind == SymbolKind::Enum,
    ensures
        ({
            let syms = c.db.sources[s.id as int].syms;
            named_type(c, offset, Seq::empty()) matches TyView::Enum { name, variants } && name
                == syms[index as int].name && (variants.contains(variant) <==> exists|j: int|
                0 <= j < syms.len() && (#[trigger] syms[j]).parent == Some(index) && syms[j].kind
                    == SymbolKind::EnumVariant && syms[j].name == variant)
        }),
{
    lemma_variants(c.db.sources[s.id as int].syms, 0, index, variant);
}

/// A name that stands for no struct and no enum has no type of its own: not for
/// a local, a circuit, a ledger field, a module or a type alias.
pub proof fn law_other_names_are_no_types(c: CtxView, offset: u32, visited: Seq<Seq<char>>)
    requires
        match resolved(c, offset) {
            Some(DefView::Item { file, index }) => source_of(c, file) matches Some(s) ==> index
                >= c.db.sources[s.id as int].syms.len() || (
            c.db.sources[s.id as int].syms[index as int].kind != SymbolKind::Struct
                && c.db.sources[s.id as int].syms[index as int].kind != SymbolKind::Enum),
            _ => true,
        },
    ensures
        named_type(c, offset, visited) is Unknown,
{
}

// ---------------------------------------------------------------------------
// Expressions
// ---------------------------------------------------------------------------

/// The type of a name that stands for a parameter or a constant with an
/// annotation is that annotation, whatever value the constant is given; only a
/// constant without one has the type of its value.
pub proof fn law_annotation_decides(
    c: CtxView,
    n: int,
    x: int,
    y: int,
    q: int,
    m: int,
    depth: int,
    name: Seq<char>,
    detail: Seq<char>,
)
    requires
        0 <= depth < MAX_NOMINAL_DEPTH,
        c.tree()[n].kind == NAME_EXPR,
        child_token(c.tree(), n, IDENT) == Some(x),
        resolved(c, c.tree()[x].start) == Some(
            DefView::Local {
                file: c.file,
                name,
                name_range: range_of(c.tree(), y),
                detail,
            },
        ),
        token_spanning(c.tree(), 0, range_of(c.tree(), y)) == Some(y),
        c.tree()[y].parent == Some(q),
        0 <= m < q < c.tree().len(),
        c.tree()[q].kind == IDENT_PAT,
        child_token(c.tree(), q, IDENT) == Some(y),
        c.tree()[q].parent == Some(m),
        !c.tree()[m].token,
        c.tree()[m].kind == PARAM || c.tree()[m].kind == CONST_STMT,
        child(c.tree(), m, Class::Pat) == Some(q),
    ensures
        child(c.tree(), m, Class::Type) matches Some(ty) ==> expr_type(c, n, depth) == resolved_type(
            c,
            ty,
        ),
        child(c.tree(), m, Class::Type) is None && c.tree()[m].kind == PARAM ==> expr_type(
            c,
            n,
            depth,
        ) is Unknown,
        child(c.tree(), m, Class::Type) is None && c.tree()[m].kind == CONST_STMT ==> (child(
            c.tree(),
            m,
            Class::Expr,
        ) matches Some(v) ==> expr_type(c, n, depth) == expr_type(c, v, depth + 1)),
{
    let range = range_of(c.tree(), y);
    assert(binding_type(c, q, range, depth) == binding_type(c, m, range, depth));
}

/// A name in a destructuring pattern has no type of its own.
pub proof fn law_destructured_names_are_unknown(
    c: CtxView,
    m: int,
    q: int,
    range: TextRange,
    depth: int,
)
    requires
        0 <= m < c.tree().len(),
        0 <= depth < MAX_NOMINAL_DEPTH,
        !c.tree()[m].token,
        c.tree()[m].kind == PARAM || c.tree()[m].kind == CONST_STMT,
        child(c.tree(), m, Class::Pat) == Some(q),
        c.tree()[q].kind != IDENT_PAT,
    ensures
        binding_type(c, m, range, depth) is Unknown,
{
}

/// A member of a value of struct type has the type of the first field of that
/// name; a member of anything else is unknown.
pub proof fn law_member_has_the_type_of_its_field(
    c: CtxView,
    n: int,
    r: int,
    x: int,
    depth: int,
    j: int,
)
    requires
        0 <= depth < MAX_NOMINAL_DEPTH,
        c.tree()[n].kind == MEMBER_EXPR,
        child(c.tree(), n, Class::Expr) == Some(r),
        child_token(c.tree(), n, IDENT) == Some(x),
    ensures
        expr_type(c, r, depth + 1) matches TyView::Struct { fields, .. } ==> (0 <= j < fields.len()
            && fields[j].0 == c.tree()[x].text && (forall|i: int|
            #![trigger fields[i]]
            0 <= i < j ==> fields[i].0 != c.tree()[x].text) ==> expr_type(c, n, depth)
            == fields[j].1),
        !(expr_type(c, r, depth + 1) is Struct) ==> expr_type(c, n, depth) is Unknown,
{
    if let TyView::Struct { fields, .. } = expr_type(c, r, depth + 1) {
        if 0 <= j < fields.len() && fields[j].0 == c.tree()[x].text && (forall|i: int|
            #![trigger fields[i]]
            0 <= i < j ==> fields[i].0 != c.tree()[x].text) {
            lemma_field(fields, 0, j, c.tree()[x].text);
        }
    }
}

proof fn lemma_field(fields: Seq<(Seq<char>, TyView)>, k: int, j: int, name: Seq<char>)
    requires
        0 <= k <= j < fields.len(),
        fields[j].0 == name,
        forall|i: int| #![trigger fields[i]] k <= i < j ==> fields[i].0 != name,
    ensures
        field_named(fields, k, name) == fields[j].1,
    decreases j - k,
{
    if k < j {
        assert(fields[k].0 != name);
        lemma_field(fields, k + 1, j, name);
    }
}

proof fn lemma_shown_list(t: Tree, kids: Seq<int>, k: int, after: int)
    requires
        0 <= k <= kids.len(),
        forall|a: int| #![trigger kids[a]] 0 <= a < kids.len() ==> after < kids[a] < t.len(),
    ensures
        shown_list(t, kids, k, after).len() == kids.len() - k,
        forall|j: int|
            #![trigger kids[j]]
            k <= j < kids.len() ==> shown_list(t, kids, k, after)[j - k] == shown_type(t, kids[j]),
    decreases kids.len() - k,
{
    if k < kids.len() {
        lemma_shown_list(t, kids, k + 1, after);
        let rest = shown_list(t, kids, k + 1, after);
        let all = shown_list(t, kids, k, after);
        assert forall|j: int| #![trigger kids[j]] k <= j < kids.len() implies all[j - k]
            == shown_type(t, kids[j]) by {
            if j > k {
                assert(all[j - k] == rest[j - (k + 1)]);
            }
        }
    }
}

/// What an expression shows by itself: a literal with a keyword is a Boolean, a
/// cast has the type that it casts to, and an array without spreads is a tuple
/// of what its elements show.
pub proof fn law_shown_types(c: CtxView, n: int, depth: int, j: int)
    requires
        well_formed(c.tree()),
        0 <= n < c.tree().len(),
        0 <= depth < MAX_NOMINAL_DEPTH,
    ensures
        ({
            let t = c.tree();
            &&& t[n].kind == LITERAL_EXPR && (child_token(t, n, TRUE_KW) is Some || child_token(
                t,
                n,
                FALSE_KW,
            ) is Some) ==> shown_type(t, n) is Boolean && expr_type(c, n, depth) is Boolean
            &&& t[n].kind == CAST_EXPR ==> (child(t, n, Class::Type) matches Some(ty) ==> shown_type(
                t,
                n,
            ) == lowered(t, ty) && expr_type(c, n, depth) == lowered(t, ty))
            &&& t[n].kind == ARRAY_EXPR && child(t, n, Class::Kind(SPREAD_EXPR)) is None && 0 <= j
                < children(t, n, Class::Expr).len() ==> (shown_type(t, n) matches TyView::Tuple(v)
                && v.len() == children(t, n, Class::Expr).len() && v[j] == shown_type(
                t,
                children(t, n, Class::Expr)[j],
            )) && expr_type(c, n, depth) == shown_type(t, n)
            &&& t[n].kind == ARRAY_EXPR && child(t, n, Class::Kind(SPREAD_EXPR)) is Some
                ==> shown_type(t, n) is Unknown
        }),
{
    let t = c.tree();
    let kids = children(t, n, Class::Expr);
    lemma_nodes_from(t, n + 1, t[n].next, Class::Expr);
    lemma_shown_list(t, kids, 0, n);
    if 0 <= j < kids.len() {
        assert(kids[j] == kids[j]);
    }
}

/// A struct literal has the type that it names.
pub proof fn law_struct_literal_has_its_named_type(c: CtxView, n: int, x: int, depth: int)
    requires
        0 <= depth < MAX_NOMINAL_DEPTH,
        c.tree()[n].kind == STRUCT_EXPR,
        child_token(c.tree(), n, IDENT) == Some(x),
    ensures
        expr_type(c, n, depth) == named_type(c, c.tree()[x].start, Seq::empty()),
{
}

/// The type at a position is that of the nearest expression around it.
pub proof fn law_type_at_a_position(c: CtxView, offset: u32, x: int, p: int, n: int)
    requires
        anchor(c.tree(), offset) == Some(x),
        c.tree()[x].parent == Some(p),
        nearest(c.tree(), p, Class::Expr) == Some(n),
    ensures
        type_around(c, offset) == expr_type(c, n, 0),
{
}

// ---------------------------------------------------------------------------
// Callees
// ---------------------------------------------------------------------------

/// Whether a symbol can be called.
pub open spec fn can_be_called(s: SymbolView) -> bool {
    s.kind == SymbolKind::Circuit || s.kind == SymbolKind::Witness
}

proof fn lemma_count(syms: Seq<SymbolView>, n: int, name: Seq<char>, i: int)
    requires
        0 <= n <= syms.len(),
    ensures
        0 <= i < n && syms[i].name == name && can_be_called(syms[i]) ==> callables_named(
            syms,
            n,
            name,
        ) >= 1,
        0 <= i < n && syms[i].name == name && can_be_called(syms[i]) && (forall|j: int|
            #![trigger syms[j]]
            0 <= j < n && j != i ==> !(syms[j].name == name && can_be_called(syms[j])))
            ==> callables_named(syms, n, name) == 1,
        (forall|j: int|
            #![trigger syms[j]]
            0 <= j < n ==> !(syms[j].name == name && can_be_called(syms[j]))) ==> callables_named(
            syms,
            n,
            name,
        ) == 0,
    decreases n,
{
    if n > 0 {
        lemma_count(syms, n - 1, name, i);
        assert(callable(syms[n - 1].kind) == can_be_called(syms[n - 1]));
    }
}

proof fn lemma_two(syms: Seq<SymbolView>, n: int, name: Seq<char>, i: int, j: int)
    requires
        0 <= i < j < n <= syms.len(),
        syms[i].name == name && can_be_called(syms[i]),
        syms[j].name == name && can_be_called(syms[j]),
    ensures
        callables_named(syms, n, name) >= 2,
    decreases n,
{
    if n - 1 == j {
        lemma_count(syms, n - 1, name, i);
    } else {
        lemma_two(syms, n - 1, name, i, j);
    }
}

proof fn lemma_param_types(t: Tree, kids: Seq<int>, k: int)
    requires
        0 <= k <= kids.len(),
    ensures
        param_types(t, kids, k).len() == kids.len() - k,
        forall|j: int|
            #![trigger kids[j]]
            k <= j < kids.len() ==> param_types(t, kids, k)[j - k] == (match child(
                t,
                kids[j],
                Class::Type,
            ) {
                Some(ty) => annotated(t, ty),
                None => TyView::Unknown,
            }),
    decreases kids.len() - k,
{
    if k < kids.len() {
        lemma_param_types(t, kids, k + 1);
        let rest = param_types(t, kids, k + 1);
        let all = param_types(t, kids, k);
        assert forall|j: int| #![trigger kids[j]] k <= j < kids.len() implies all[j - k] == (
        match child(t, kids[j], Class::Type) {
            Some(ty) => annotated(t, ty),
            None => TyView::Unknown,
        }) by {
            if j > k {
                assert(all[j - k] == rest[j - (k + 1)]);
            }
        }
    }
}

/// A call of a circuit or witness of the file that is not generic and shares its
/// name with no other has the declared return type, and the call is held against
/// one type for each parameter, in order.
pub proof fn law_call_of_a_sure_callee(
    c: CtxView,
    n: int,
    x: int,
    index: u32,
    d: int,
    j: int,
    depth: int,
)
    requires
        0 <= depth < MAX_NOMINAL_DEPTH,
        c.tree()[n].kind == CALL_EXPR,
        child_token(c.tree(), n, DOT) is None,
        child_token(c.tree(), n, IDENT) == Some(x),
        resolved(c, c.tree()[x].start) == Some(DefView::Item { file: c.file, index }),
        index < c.syms().len(),
        can_be_called(c.syms()[index as int]),
        c.syms()[index as int].generic_param_count == 0,
        forall|i: int|
            #![trigger c.syms()[i]]
            0 <= i < c.syms().len() && i != index ==> !(c.syms()[i].name
                == c.syms()[index as int].name && can_be_called(c.syms()[i])),
        decl_named(
            c.tree(),
            if c.syms()[index as int].kind == SymbolKind::Circuit {
                CIRCUIT_DEF
            } else {
                WITNESS_DECL
            },
            c.syms()[index as int].name_range,
        ) == Some(d),
    ensures
        child(c.tree(), d, Class::Type) matches Some(ty) ==> expr_type(c, n, depth) == resolved_type(
            c,
            ty,
        ),
        child(c.tree(), d, Class::Type) is None ==> expr_type(c, n, depth) is Unknown,
        ({
            let kids = children(
                c.tree(),
                d,
                Class::Kind(
                    if c.syms()[index as int].kind == SymbolKind::Circuit {
                        PARAM
                    } else {
                        STRUCT_FIELD
                    },
                ),
            );
            callee_params(c, c.tree()[x].start) matches Some(params) && params.len() == kids.len()
                && (0 <= j < kids.len() ==> params[j] == (match child(
                c.tree(),
                kids[j],
                Class::Type,
            ) {
                Some(ty) => annotated(c.tree(), ty),
                None => TyView::Unknown,
            }))
        }),
{
    let syms = c.syms();
    lemma_count(syms, syms.len() as int, syms[index as int].name, index as int);
    let kids = children(
        c.tree(),
        d,
        Class::Kind(
            if c.syms()[index as int].kind == SymbolKind::Circuit {
                PARAM
            } else {
                STRUCT_FIELD
            },
        ),
    );
    lemma_param_types(c.tree(), kids, 0);
    if 0 <= j < kids.len() {
        assert(kids[j] == kids[j]);
    }
}

/// Nothing is said of a call where the callee is in doubt: it is generic, of
/// another file, shares its name with another, or cannot be called.
pub proof fn law_doubtful_callees_are_left_alone(
    c: CtxView,
    n: int,
    x: int,
    file: FileId,
    index: u32,
    depth: int,
    i: int,
)
    requires
        0 <= depth < MAX_NOMINAL_DEPTH,
        c.tree()[n].kind == CALL_EXPR,
        child_token(c.tree(), n, IDENT) == Some(x),
        resolved(c, c.tree()[x].start) == Some(DefView::Item { file, index }),
        file != c.file || (index < c.syms().len() && (!can_be_called(c.syms()[index as int])
            || c.syms()[index as int].generic_param_count != 0 || (0 <= i < c.syms().len() && i
            != index && c.syms()[i].name == c.syms()[index as int].name && can_be_called(
            c.syms()[i],
        )))),
    ensures
        expr_type(c, n, depth) is Unknown,
        callee_params(c, c.tree()[x].start) is None,
{
    let syms = c.syms();
    if file == c.file && can_be_called(syms[index as int]) && 0 <= i < syms.len() && i != index
        && syms[i].name == syms[index as int].name && can_be_called(syms[i]) {
        if i < index {
            lemma_two(syms, syms.len() as int, syms[i].name, i, index as int);
        } else {
            lemma_two(syms, syms.len() as int, syms[i].name, index as int, i);
        }
    }
}

/// A file sees its own imports, and those of another file as the workspace lists
/// them.
pub proof fn law_imports_of_a_file(c: CtxView, target: FileId)
    ensures
        deps_of(c, c.file) == Some(c.fd),
        target != c.file && c.ws.file_deps.contains_key(target.raw) ==> deps_of(
            c,
            target,
        ) == Some(c.ws.file_deps[target.raw]),
        target != c.file && !c.ws.file_deps.contains_key(target.raw) ==> deps_of(
            c,
            target,
        ) is None,
{
}

/// Every node that can be read as a type counts as a type.
pub proof fn law_only_types_are_read_as_types(t: Tree, n: int)
    requires
        0 <= n < t.len(),
        !in_class(Class::Type, t[n].kind),
    ensures
        lowered(t, n) is Unknown,
        t[n].kind != TYPE_REF,
{
}

} // verus!
