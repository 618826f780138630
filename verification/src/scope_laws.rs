//! Laws of lexical scopes: which names are visible where.

use vstd::prelude::*;

use crate::db::{def_at, CtxView};
use crate::kinds::{
    Class, BLOCK, CIRCUIT_DEF, CONSTRUCTOR_DEF, CONST_STMT, FOR_STMT, GENERIC_PARAM,
    GENERIC_PARAM_LIST, HASH, IDENT, IDENT_PAT, LAMBDA_EXPR, MODULE_DEF, MULTI_CONST_STMT, PARAM,
    PARAM_LIST, STRUCT_DEF, STRUCT_PAT, STRUCT_PAT_FIELD, TUPLE_PAT, TUPLE_PAT_ELT, TYPE_DECL,
};
use crate::resolution_laws::law_locals_shadow_items;
use crate::resolve::{
    anchor, bindings_up, clamped, consts_before, generic_bindings_of, generics_bindings, ident_at,
    lambda_param_bindings, lambda_params_bindings, name_token, param_bindings, params_bindings,
    parts_tokens, pattern_tokens, patterns_bindings, rendered_type, scope_bindings, site_bindings,
    site_detail, site_detail_from, typed_bindings, visible_bindings, BindingView, DefView,
};
use crate::syntax::{
    child, child_token, children, lemma_node_from, lemma_nodes_from, lemma_token_from, range_of,
    text_of, touching_from, Tree,
};
use crate::text::collapsed;
use crate::tree_laws::{encloses, law_children, lemma_inside, nested};

verus! {

pub(crate) proof fn lemma_in_left<A>(a: Seq<A>, b: Seq<A>, x: A)
    requires
        a.contains(x),
    ensures
        (a + b).contains(x),
{
    let i = a.index_of(x);
    assert((a + b)[i] == x);
}

pub(crate) proof fn lemma_in_right<A>(a: Seq<A>, b: Seq<A>, x: A)
    requires
        b.contains(x),
    ensures
        (a + b).contains(x),
{
    let i = b.index_of(x);
    assert((a + b)[a.len() + i] == x);
}

pub(crate) proof fn lemma_in_sum<A>(a: Seq<A>, b: Seq<A>, x: A)
    requires
        (a + b).contains(x),
    ensures
        a.contains(x) || b.contains(x),
{
    let i = (a + b).index_of(x);
    if i < a.len() {
        assert(a[i] == x);
    } else {
        assert(b[i - a.len()] == x);
    }
}

// ---------------------------------------------------------------------------
// Patterns
// ---------------------------------------------------------------------------

proof fn lemma_part(t: Tree, kids: Seq<int>, k: int, after: int, j: int, x: int)
    requires
        0 <= k <= j < kids.len(),
        forall|a: int| #![trigger kids[a]] 0 <= a < kids.len() ==> after < kids[a] < t.len(),
        match child(t, kids[j], Class::Pat) {
            Some(q) => kids[j] < q < t.len() && pattern_tokens(t, q).contains(x),
            None => t[kids[j]].kind == STRUCT_PAT_FIELD && child_token(t, kids[j], IDENT) == Some(x),
        },
    ensures
        parts_tokens(t, kids, k, after).contains(x),
    decreases j - k,
{
    let own = match child(t, kids[k], Class::Pat) {
        Some(q) => if kids[k] < q < t.len() {
            pattern_tokens(t, q)
        } else {
            Seq::empty()
        },
        None => if t[kids[k]].kind == STRUCT_PAT_FIELD {
            name_token(t, kids[k])
        } else {
            Seq::empty()
        },
    };
    let rest = parts_tokens(t, kids, k + 1, after);
    if k == j {
        if child(t, kids[j], Class::Pat) is None {
            assert(seq![x][0] == x);
        }
        lemma_in_left(own, rest, x);
    } else {
        lemma_part(t, kids, k + 1, after, j, x);
        lemma_in_right(own, rest, x);
    }
}

/// A name pattern binds its name.
pub proof fn law_name_pattern_binds(t: Tree, p: int, x: int)
    requires
        0 <= p < t.len(),
        t[p].kind == IDENT_PAT,
        child_token(t, p, IDENT) == Some(x),
    ensures
        pattern_tokens(t, p) == seq![x],
{
}

/// A tuple pattern binds all that the patterns of its elements bind, and a
/// struct pattern all that the patterns of its fields bind.
pub proof fn law_pattern_binds_its_parts(t: Tree, p: int, e: int, q: int, x: int)
    requires
        nested(t),
        0 <= p < t.len(),
        0 <= e < t.len(),
        t[e].parent == Some(p),
        !t[e].token,
        (t[p].kind == TUPLE_PAT && t[e].kind == TUPLE_PAT_ELT) || (t[p].kind == STRUCT_PAT
            && t[e].kind == STRUCT_PAT_FIELD),
        child(t, e, Class::Pat) == Some(q),
        pattern_tokens(t, q).contains(x),
    ensures
        pattern_tokens(t, p).contains(x),
{
    let class = Class::Kind(t[e].kind);
    law_children(t, p, class, e);
    lemma_nodes_from(t, p + 1, t[p].next, class);
    lemma_node_from(t, e + 1, t[e].next, Class::Pat);
    let kids = children(t, p, class);
    assert forall|a: int| #![trigger kids[a]] 0 <= a < kids.len() implies p < kids[a] < t.len() by {
    }
    lemma_part(t, kids, 0, p, kids.index_of(e), x);
}

/// A field of a struct pattern without a pattern of its own binds its name.
pub proof fn law_struct_pattern_binds_bare_fields(t: Tree, p: int, e: int, x: int)
    requires
        nested(t),
        0 <= p < t.len(),
        0 <= e < t.len(),
        t[p].kind == STRUCT_PAT,
        t[e].parent == Some(p),
        !t[e].token,
        t[e].kind == STRUCT_PAT_FIELD,
        child(t, e, Class::Pat) is None,
        child_token(t, e, IDENT) == Some(x),
    ensures
        pattern_tokens(t, p).contains(x),
{
    let class = Class::Kind(STRUCT_PAT_FIELD);
    law_children(t, p, class, e);
    lemma_nodes_from(t, p + 1, t[p].next, class);
    let kids = children(t, p, class);
    lemma_part(t, kids, 0, p, kids.index_of(e), x);
}

pub(crate) proof fn lemma_token_below(t: Tree, n: int, x: int)
    requires
        nested(t),
        0 <= n < t.len(),
        child_token(t, n, IDENT) == Some(x),
    ensures
        encloses(t, n, x),
        n < x < t.len(),
        t[x].token,
        t[x].kind == IDENT,
{
    lemma_token_from(t, n + 1, t[n].next, IDENT);
    lemma_inside(t, n, x);
}

pub(crate) proof fn lemma_above(t: Tree, a: int, b: int, c: int)
    requires
        encloses(t, a, b),
        encloses(t, b, c),
    ensures
        encloses(t, a, c),
    decreases c,
{
    if b != c {
        lemma_above(t, a, b, t[c].parent->0);
    }
}

/// Every name that a pattern binds is an identifier inside it.
pub proof fn law_bound_names_are_inside(t: Tree, p: int, x: int)
    requires
        nested(t),
        pattern_tokens(t, p).contains(x),
    ensures
        0 <= p < x < t.len(),
        encloses(t, p, x),
        t[x].token,
        t[x].kind == IDENT,
    decreases t.len() - p, 0int, 0int,
{
    let kind = t[p].kind;
    if kind == IDENT_PAT {
        lemma_token_below(t, p, pattern_tokens(t, p)[0]);
    } else {
        let class = Class::Kind(
            if kind == TUPLE_PAT {
                TUPLE_PAT_ELT
            } else {
                STRUCT_PAT_FIELD
            },
        );
        lemma_nodes_from(t, p + 1, t[p].next, class);
        lemma_parts_inside(t, children(t, p, class), 0, p, x);
    }
}

proof fn lemma_parts_inside(t: Tree, kids: Seq<int>, k: int, after: int, x: int)
    requires
        nested(t),
        0 <= after < t.len(),
        0 <= k,
        forall|a: int|
            #![trigger kids[a]]
            0 <= a < kids.len() ==> after < kids[a] < t.len() && kids[a] < t[after].next,
        parts_tokens(t, kids, k, after).contains(x),
    ensures
        after < x < t.len(),
        encloses(t, after, x),
        t[x].token,
        t[x].kind == IDENT,
    decreases t.len() - after - 1, 1int, kids.len() - k,
{
    let own = match child(t, kids[k], Class::Pat) {
        Some(q) => if kids[k] < q < t.len() {
            pattern_tokens(t, q)
        } else {
            Seq::empty()
        },
        None => if t[kids[k]].kind == STRUCT_PAT_FIELD {
            name_token(t, kids[k])
        } else {
            Seq::empty()
        },
    };
    let rest = parts_tokens(t, kids, k + 1, after);
    lemma_in_sum(own, rest, x);
    if own.contains(x) {
        let e = kids[k];
        lemma_inside(t, after, e);
        match child(t, e, Class::Pat) {
            Some(q) => {
                lemma_node_from(t, e + 1, t[e].next, Class::Pat);
                lemma_inside(t, e, q);
                law_bound_names_are_inside(t, q, x);
                lemma_above(t, e, q, x);
            },
            None => {
                lemma_token_below(t, e, own[0]);
            },
        }
        lemma_above(t, after, e, x);
    } else {
        lemma_parts_inside(t, kids, k + 1, after, x);
    }
}

// ---------------------------------------------------------------------------
// Going outwards
// ---------------------------------------------------------------------------

/// Whether a position stands inside node `n`: the token at it has `n` among its
/// ancestors.
pub open spec fn stands_in(t: Tree, n: int, offset: u32) -> bool {
    anchor(t, offset) matches Some(x) && (t[x].parent matches Some(p) && encloses(t, n, p))
}

/// Whether a binding for the name at token `x` is in the list.
pub open spec fn lists(bindings: Seq<BindingView>, t: Tree, x: int) -> bool {
    exists|k: int|
        0 <= k < bindings.len() && (#[trigger] bindings[k]).name == t[x].text
            && bindings[k].name_range == range_of(t, x)
}

proof fn lemma_up(t: Tree, n: int, i: int, offset: u32) -> (before: Seq<BindingView>)
    requires
        0 <= n < t.len(),
        encloses(t, n, i),
    ensures
        bindings_up(t, i, offset) == before + bindings_up(t, n, offset),
        i != n ==> scope_bindings(t, i, offset).is_prefix_of(before),
    decreases i,
{
    if i == n {
        assert(Seq::<BindingView>::empty() + bindings_up(t, n, offset) =~= bindings_up(
            t,
            n,
            offset,
        ));
        Seq::empty()
    } else {
        let p = t[i].parent->0;
        let inner = lemma_up(t, n, p, offset);
        let own = scope_bindings(t, i, offset);
        assert(own + (inner + bindings_up(t, n, offset)) =~= (own + inner) + bindings_up(
            t,
            n,
            offset,
        ));
        assert(own =~= (own + inner).take(own.len() as int));
        own + inner
    }
}

/// What a scope binds is visible everywhere inside it, behind all that the scopes
/// further inside bind: these come first and hide it.
pub proof fn law_scopes_are_seen_from_inside(t: Tree, n: int, i: int, offset: u32)
    requires
        0 <= n < t.len(),
        encloses(t, n, i),
        i != n,
    ensures
        exists|inner: Seq<BindingView>|
            #![trigger inner + bindings_up(t, n, offset)]
            bindings_up(t, i, offset) == inner + bindings_up(t, n, offset) && scope_bindings(
                t,
                i,
                offset,
            ).is_prefix_of(inner),
        scope_bindings(t, n, offset).is_prefix_of(bindings_up(t, n, offset)),
{
    let inner = lemma_up(t, n, i, offset);
    assert(bindings_up(t, i, offset) == inner + bindings_up(t, n, offset));
    let own = scope_bindings(t, n, offset);
    assert(own =~= bindings_up(t, n, offset).take(own.len() as int));
}

proof fn lemma_seen(t: Tree, n: int, offset: u32, b: BindingView)
    requires
        0 <= n < t.len(),
        stands_in(t, n, offset),
        scope_bindings(t, n, offset).contains(b),
    ensures
        visible_bindings(t, offset).contains(b),
{
    let p = t[anchor(t, offset)->0].parent->0;
    let inner = lemma_up(t, n, p, offset);
    let up = bindings_up(t, n, offset);
    let own = scope_bindings(t, n, offset);
    let rest = up.skip(own.len() as int);
    assert(up =~= own + rest);
    lemma_in_left(own, rest, b);
    lemma_in_right(inner, up, b);
}

proof fn lemma_listed(bindings: Seq<BindingView>, t: Tree, x: int, b: BindingView)
    requires
        bindings.contains(b),
        b.name == t[x].text,
        b.name_range == range_of(t, x),
    ensures
        lists(bindings, t, x),
{
    let k = bindings.index_of(b);
    assert(bindings[k].name == t[x].text);
}

// ---------------------------------------------------------------------------
// What is in scope
// ---------------------------------------------------------------------------

proof fn lemma_typed(t: Tree, toks: Seq<int>, ty: Seq<char>, x: int)
    requires
        toks.contains(x),
    ensures
        typed_bindings(t, toks, ty).contains(
            (BindingView {
                name: t[x].text,
                name_range: range_of(t, x),
                detail: t[x].text + ": "@ + ty,
            }),
        ),
{
    let i = toks.index_of(x);
    assert(typed_bindings(t, toks, ty)[i].name == t[x].text);
}

proof fn lemma_params(t: Tree, kids: Seq<int>, k: int, j: int, b: BindingView)
    requires
        0 <= k <= j < kids.len(),
        param_bindings(t, kids[j]).contains(b),
    ensures
        params_bindings(t, kids, k).contains(b),
    decreases j - k,
{
    if k == j {
        lemma_in_left(param_bindings(t, kids[k]), params_bindings(t, kids, k + 1), b);
    } else {
        lemma_params(t, kids, k + 1, j, b);
        lemma_in_right(param_bindings(t, kids[k]), params_bindings(t, kids, k + 1), b);
    }
}

/// The text of the annotation of `n`, or an underscore where it has none.
pub open spec fn shown_annotation(t: Tree, n: int) -> Seq<char> {
    match child(t, n, Class::Type) {
        Some(ty) => collapsed(text_of(t, ty)),
        None => "_"@,
    }
}

/// Every name that the pattern of a parameter binds is visible everywhere inside
/// the circuit or constructor, and is shown with the annotation of the parameter.
pub proof fn law_parameters_are_in_scope(t: Tree, n: int, p: int, q: int, x: int, offset: u32)
    requires
        nested(t),
        0 <= n < t.len(),
        0 <= p < t.len(),
        t[n].kind == CIRCUIT_DEF || t[n].kind == CONSTRUCTOR_DEF,
        t[p].parent == Some(n),
        !t[p].token,
        t[p].kind == PARAM,
        child(t, p, Class::Pat) == Some(q),
        pattern_tokens(t, q).contains(x),
        stands_in(t, n, offset),
    ensures
        lists(visible_bindings(t, offset), t, x),
        visible_bindings(t, offset).contains(
            (BindingView {
                name: t[x].text,
                name_range: range_of(t, x),
                detail: t[x].text + ": "@ + shown_annotation(t, p),
            }),
        ),
{
    let b = BindingView {
        name: t[x].text,
        name_range: range_of(t, x),
        detail: t[x].text + ": "@ + shown_annotation(t, p),
    };
    let kids = children(t, n, Class::Kind(PARAM));
    law_children(t, n, Class::Kind(PARAM), p);
    assert(rendered_type(t, child(t, p, Class::Type)) == shown_annotation(t, p));
    lemma_typed(t, pattern_tokens(t, q), shown_annotation(t, p), x);
    lemma_params(t, kids, 0, kids.index_of(p), b);
    if t[n].kind == CIRCUIT_DEF {
        lemma_in_left(params_bindings(t, kids, 0), generic_bindings_of(t, n), b);
    }
    lemma_seen(t, n, offset, b);
    lemma_listed(visible_bindings(t, offset), t, x, b);
}

proof fn lemma_generics(t: Tree, kids: Seq<int>, k: int, j: int, x: int, b: BindingView)
    requires
        0 <= k <= j < kids.len(),
        child_token(t, kids[j], IDENT) == Some(x),
        b == (BindingView {
            name: t[x].text,
            name_range: range_of(t, x),
            detail: if child_token(t, kids[j], HASH) is Some {
                "generic #"@ + t[x].text
            } else {
                "generic "@ + t[x].text
            },
        }),
    ensures
        generics_bindings(t, kids, k).contains(b),
    decreases j - k,
{
    let all = generics_bindings(t, kids, k);
    let rest = generics_bindings(t, kids, k + 1);
    if k == j {
        assert(all[0] == b);
    } else {
        lemma_generics(t, kids, k + 1, j, x, b);
        match child_token(t, kids[k], IDENT) {
            Some(_) => lemma_in_right(all.take(1), rest, b),
            None => lemma_in_right(Seq::<BindingView>::empty(), rest, b),
        }
        match child_token(t, kids[k], IDENT) {
            Some(_) => assert(all.take(1) + rest =~= all),
            None => assert(Seq::<BindingView>::empty() + rest =~= all),
        }
    }
}

/// The generic parameters of a circuit, a struct, a type or a module are visible
/// everywhere inside it; a number is shown with a hash.
pub proof fn law_generics_are_in_scope(t: Tree, n: int, l: int, g: int, x: int, offset: u32)
    requires
        nested(t),
        0 <= n < t.len(),
        0 <= g < t.len(),
        t[n].kind == CIRCUIT_DEF || t[n].kind == STRUCT_DEF || t[n].kind == TYPE_DECL || t[n].kind
            == MODULE_DEF,
        child(t, n, Class::Kind(GENERIC_PARAM_LIST)) == Some(l),
        t[g].parent == Some(l),
        !t[g].token,
        t[g].kind == GENERIC_PARAM,
        child_token(t, g, IDENT) == Some(x),
        stands_in(t, n, offset),
    ensures
        lists(visible_bindings(t, offset), t, x),
        visible_bindings(t, offset).contains(
            (BindingView {
                name: t[x].text,
                name_range: range_of(t, x),
                detail: if child_token(t, g, HASH) is Some {
                    "generic #"@ + t[x].text
                } else {
                    "generic "@ + t[x].text
                },
            }),
        ),
{
    let b = BindingView {
        name: t[x].text,
        name_range: range_of(t, x),
        detail: if child_token(t, g, HASH) is Some {
            "generic #"@ + t[x].text
        } else {
            "generic "@ + t[x].text
        },
    };
    lemma_node_from(t, n + 1, t[n].next, Class::Kind(GENERIC_PARAM_LIST));
    law_children(t, l, Class::Kind(GENERIC_PARAM), g);
    let kids = children(t, l, Class::Kind(GENERIC_PARAM));
    lemma_generics(t, kids, 0, kids.index_of(g), x, b);
    if t[n].kind == CIRCUIT_DEF {
        lemma_in_right(
            params_bindings(t, children(t, n, Class::Kind(PARAM)), 0),
            generic_bindings_of(t, n),
            b,
        );
    }
    lemma_seen(t, n, offset, b);
    lemma_listed(visible_bindings(t, offset), t, x, b);
}

/// The name of a loop is visible everywhere inside its body, and only there.
pub proof fn law_loop_name_is_in_scope(t: Tree, n: int, b: int, x: int, offset: u32)
    requires
        0 <= n < t.len(),
        t[n].kind == FOR_STMT,
        child(t, n, Class::Kind(BLOCK)) == Some(b),
        child_token(t, n, IDENT) == Some(x),
        stands_in(t, n, offset),
    ensures
        t[b].start <= offset < t[b].end ==> lists(visible_bindings(t, offset), t, x)
            && visible_bindings(t, offset).contains(
            (BindingView {
                name: t[x].text,
                name_range: range_of(t, x),
                detail: "for "@ + t[x].text,
            }),
        ),
        !(t[b].start <= offset < t[b].end) ==> scope_bindings(t, n, offset).len() == 0,
{
    let own = BindingView {
        name: t[x].text,
        name_range: range_of(t, x),
        detail: "for "@ + t[x].text,
    };
    if t[b].start <= offset < t[b].end {
        assert(scope_bindings(t, n, offset)[0] == own);
        lemma_seen(t, n, offset, own);
        lemma_listed(visible_bindings(t, offset), t, x, own);
    }
}

proof fn lemma_lambda_params(t: Tree, kids: Seq<int>, k: int, j: int, b: BindingView)
    requires
        0 <= k <= j < kids.len(),
        lambda_param_bindings(t, kids[j]).contains(b),
    ensures
        lambda_params_bindings(t, kids, k).contains(b),
    decreases j - k,
{
    if k == j {
        lemma_in_left(
            lambda_param_bindings(t, kids[k]),
            lambda_params_bindings(t, kids, k + 1),
            b,
        );
    } else {
        lemma_lambda_params(t, kids, k + 1, j, b);
        lemma_in_right(
            lambda_param_bindings(t, kids[k]),
            lambda_params_bindings(t, kids, k + 1),
            b,
        );
    }
}

/// The parameters of a lambda are visible behind its parameter list: the names
/// of a bare pattern, of the pattern of a parameter, or the bare name of one.
pub proof fn law_lambda_parameters_are_in_scope(
    t: Tree,
    n: int,
    l: int,
    p: int,
    x: int,
    offset: u32,
)
    requires
        nested(t),
        0 <= n < t.len(),
        0 <= p < t.len(),
        t[n].kind == LAMBDA_EXPR,
        child(t, n, Class::Kind(PARAM_LIST)) == Some(l),
        t[p].parent == Some(l),
        !t[p].token,
        if t[p].kind == PARAM {
            match child(t, p, Class::Pat) {
                Some(q) => pattern_tokens(t, q).contains(x),
                None => child_token(t, p, IDENT) == Some(x),
            }
        } else {
            pattern_tokens(t, p).contains(x)
        },
        offset >= t[l].end,
        stands_in(t, n, offset),
    ensures
        lists(visible_bindings(t, offset), t, x),
        visible_bindings(t, offset).contains(
            (BindingView {
                name: t[x].text,
                name_range: range_of(t, x),
                detail: t[x].text + ": "@ + (if t[p].kind == PARAM {
                    shown_annotation(t, p)
                } else {
                    "_"@
                }),
            }),
        ),
{
    let ty = if t[p].kind == PARAM {
        shown_annotation(t, p)
    } else {
        "_"@
    };
    let b = BindingView {
        name: t[x].text,
        name_range: range_of(t, x),
        detail: t[x].text + ": "@ + ty,
    };
    lemma_node_from(t, n + 1, t[n].next, Class::Kind(PARAM_LIST));
    law_children(t, l, Class::Any, p);
    let kids = children(t, l, Class::Any);
    if t[p].kind == PARAM {
        match child(t, p, Class::Pat) {
            Some(q) => lemma_typed(t, pattern_tokens(t, q), ty, x),
            None => {
                assert(name_token(t, p)[0] == x);
                lemma_typed(t, name_token(t, p), ty, x);
            },
        }
    } else {
        lemma_typed(t, pattern_tokens(t, p), ty, x);
    }
    lemma_lambda_params(t, kids, 0, kids.index_of(p), b);
    lemma_seen(t, n, offset, b);
    lemma_listed(visible_bindings(t, offset), t, x, b);
}

proof fn lemma_patterns(t: Tree, kids: Seq<int>, k: int, j: int, x: int, b: BindingView)
    requires
        0 <= k <= j < kids.len(),
        pattern_tokens(t, kids[j]).contains(x),
        b == (BindingView {
            name: t[x].text,
            name_range: range_of(t, x),
            detail: site_detail(t, x),
        }),
    ensures
        patterns_bindings(t, kids, k).contains(b),
    decreases j - k,
{
    let own = site_bindings(t, pattern_tokens(t, kids[k]));
    let rest = patterns_bindings(t, kids, k + 1);
    if k == j {
        let i = pattern_tokens(t, kids[j]).index_of(x);
        assert(own[i] == b);
        lemma_in_left(own, rest, b);
    } else {
        lemma_patterns(t, kids, k + 1, j, x, b);
        lemma_in_right(own, rest, b);
    }
}

/// Whether `s` is a statement that declares constants.
pub open spec fn declares_constants(t: Tree, s: int) -> bool {
    t[s].kind == CONST_STMT || t[s].kind == MULTI_CONST_STMT
}

proof fn lemma_consts(
    t: Tree,
    stmts: Seq<int>,
    k: int,
    j: int,
    offset: u32,
    b: BindingView,
) -> (at: int)
    requires
        0 <= k <= j < stmts.len(),
        declares_constants(t, stmts[j]),
        forall|i: int|
            #![trigger stmts[i]]
            k <= i <= j && declares_constants(t, stmts[i]) ==> t[stmts[i]].end <= offset,
        patterns_bindings(t, children(t, stmts[j], Class::Pat), 0).contains(b),
    ensures
        0 <= at < consts_before(t, stmts, k, offset).len(),
        consts_before(t, stmts, k, offset)[at] == b,
    decreases j - k,
{
    let all = consts_before(t, stmts, k, offset);
    assert(declares_constants(t, stmts[k]) ==> t[stmts[k]].end <= offset);
    if declares_constants(t, stmts[k]) {
        let own = patterns_bindings(t, children(t, stmts[k], Class::Pat), 0);
        let rest = consts_before(t, stmts, k + 1, offset);
        assert(all == own + rest);
        if k == j {
            let i = own.index_of(b);
            assert(all[i] == b);
            i
        } else {
            let i = lemma_consts(t, stmts, k + 1, j, offset, b);
            assert(all[own.len() + i] == b);
            own.len() + i
        }
    } else {
        lemma_consts(t, stmts, k + 1, j, offset, b)
    }
}

/// A constant is visible in its block behind its statement: every name of every
/// pattern of a statement that ends before the position.
#[verifier::spinoff_prover]
#[verifier::rlimit(60)]
pub proof fn law_constants_are_in_scope(
    t: Tree,
    n: int,
    j: int,
    q: int,
    x: int,
    offset: u32,
)
    requires
        nested(t),
        0 <= n < t.len(),
        t[n].kind == BLOCK,
        0 <= j < children(t, n, Class::Stmt).len(),
        declares_constants(t, children(t, n, Class::Stmt)[j]),
        forall|i: int|
            #![trigger children(t, n, Class::Stmt)[i]]
            0 <= i <= j && declares_constants(t, children(t, n, Class::Stmt)[i]) ==> t[children(
                t,
                n,
                Class::Stmt,
            )[i]].end <= offset,
        0 <= q < t.len(),
        t[q].parent == Some(children(t, n, Class::Stmt)[j]),
        !t[q].token,
        pattern_tokens(t, q).contains(x),
        stands_in(t, n, offset),
    ensures
        lists(visible_bindings(t, offset), t, x),
        visible_bindings(t, offset).contains(
            (BindingView {
                name: t[x].text,
                name_range: range_of(t, x),
                detail: site_detail(t, x),
            }),
        ),
{
    let stmts = children(t, n, Class::Stmt);
    let s = stmts[j];
    let b = BindingView {
        name: t[x].text,
        name_range: range_of(t, x),
        detail: site_detail(t, x),
    };
    lemma_nodes_from(t, n + 1, t[n].next, Class::Stmt);
    lemma_pattern_kind(t, q, x);
    law_children(t, s, Class::Pat, q);
    let pats = children(t, s, Class::Pat);
    lemma_patterns(t, pats, 0, pats.index_of(q), x, b);
    let before = consts_before(t, stmts, 0, offset);
    let at = lemma_consts(t, stmts, 0, j, offset, b);
    assert(before.reverse()[before.len() - 1 - at] == b);
    lemma_seen(t, n, offset, b);
    lemma_listed(visible_bindings(t, offset), t, x, b);
}

proof fn lemma_pattern_kind(t: Tree, q: int, x: int)
    requires
        pattern_tokens(t, q).contains(x),
    ensures
        t[q].kind == IDENT_PAT || t[q].kind == TUPLE_PAT || t[q].kind == STRUCT_PAT,
{
}

proof fn lemma_consts_later(
    t: Tree,
    stmts: Seq<int>,
    k: int,
    i: int,
    j: int,
    offset: u32,
    a: BindingView,
    b: BindingView,
) -> (r: (int, int))
    requires
        0 <= k <= i < j < stmts.len(),
        declares_constants(t, stmts[i]),
        declares_constants(t, stmts[j]),
        forall|m: int|
            #![trigger stmts[m]]
            k <= m <= j && declares_constants(t, stmts[m]) ==> t[stmts[m]].end <= offset,
        patterns_bindings(t, children(t, stmts[i], Class::Pat), 0).contains(a),
        patterns_bindings(t, children(t, stmts[j], Class::Pat), 0).contains(b),
    ensures
        0 <= r.0 < r.1 < consts_before(t, stmts, k, offset).len(),
        consts_before(t, stmts, k, offset)[r.0] == a,
        consts_before(t, stmts, k, offset)[r.1] == b,
    decreases i - k,
{
    let all = consts_before(t, stmts, k, offset);
    let own = patterns_bindings(t, children(t, stmts[k], Class::Pat), 0);
    let rest = consts_before(t, stmts, k + 1, offset);
    assert(declares_constants(t, stmts[k]) ==> t[stmts[k]].end <= offset);
    if k == i {
        let y = lemma_consts(t, stmts, k + 1, j, offset, b);
        let x = own.index_of(a);
        assert(all[x] == a);
        assert(all[own.len() + y] == b);
        (x, own.len() + y)
    } else {
        let (x, y) = lemma_consts_later(t, stmts, k + 1, i, j, offset, a, b);
        if declares_constants(t, stmts[k]) {
            assert(all[own.len() + x] == a);
            assert(all[own.len() + y] == b);
            (own.len() + x, own.len() + y)
        } else {
            (x, y)
        }
    }
}

/// Of two constants of a block the later one comes first, and so hides the
/// earlier one of the same name.
pub proof fn law_later_constants_come_first(
    t: Tree,
    n: int,
    i: int,
    j: int,
    offset: u32,
    a: BindingView,
    b: BindingView,
)
    requires
        t[n].kind == BLOCK,
        0 <= i < j < children(t, n, Class::Stmt).len(),
        declares_constants(t, children(t, n, Class::Stmt)[i]),
        declares_constants(t, children(t, n, Class::Stmt)[j]),
        forall|m: int|
            #![trigger children(t, n, Class::Stmt)[m]]
            0 <= m <= j && declares_constants(t, children(t, n, Class::Stmt)[m]) ==> t[children(
                t,
                n,
                Class::Stmt,
            )[m]].end <= offset,
        patterns_bindings(
            t,
            children(t, children(t, n, Class::Stmt)[i], Class::Pat),
            0,
        ).contains(a),
        patterns_bindings(
            t,
            children(t, children(t, n, Class::Stmt)[j], Class::Pat),
            0,
        ).contains(b),
    ensures
        exists|x: int, y: int|
            #![trigger scope_bindings(t, n, offset)[x], scope_bindings(t, n, offset)[y]]
            0 <= x < y < scope_bindings(t, n, offset).len() && scope_bindings(t, n, offset)[x] == b
                && scope_bindings(t, n, offset)[y] == a,
{
    let stmts = children(t, n, Class::Stmt);
    let before = consts_before(t, stmts, 0, offset);
    let (x, y) = lemma_consts_later(t, stmts, 0, i, j, offset, a, b);
    let all = scope_bindings(t, n, offset);
    assert(all[before.len() - 1 - y] == b);
    assert(all[before.len() - 1 - x] == a);
}

// ---------------------------------------------------------------------------
// What is not in scope
// ---------------------------------------------------------------------------

/// Whether a binding is that of an identifier inside `n`.
pub open spec fn named_inside(b: BindingView, t: Tree, n: int) -> bool {
    exists|x: int| #[trigger]
        encloses(t, n, x) && n < x < t.len() && t[x].token && t[x].kind == IDENT && b.name
            == t[x].text && b.name_range == range_of(t, x)
}

proof fn lemma_named_up(b: BindingView, t: Tree, n: int, m: int)
    requires
        named_inside(b, t, m),
        encloses(t, n, m),
        n <= m,
    ensures
        named_inside(b, t, n),
{
    let x = choose|x: int| #[trigger]
        encloses(t, m, x) && m < x < t.len() && t[x].token && t[x].kind == IDENT && b.name
            == t[x].text && b.name_range == range_of(t, x);
    lemma_above(t, n, m, x);
}

proof fn lemma_typed_inside(t: Tree, p: int, ty: Seq<char>, b: BindingView)
    requires
        nested(t),
        typed_bindings(t, pattern_tokens(t, p), ty).contains(b),
    ensures
        0 <= p < t.len(),
        named_inside(b, t, p),
{
    let i = typed_bindings(t, pattern_tokens(t, p), ty).index_of(b);
    let x = pattern_tokens(t, p)[i];
    law_bound_names_are_inside(t, p, x);
}

proof fn lemma_params_inside(t: Tree, n: int, kids: Seq<int>, k: int, b: BindingView)
    requires
        nested(t),
        0 <= n < t.len(),
        0 <= k,
        forall|a: int|
            #![trigger kids[a]]
            0 <= a < kids.len() ==> n < kids[a] < t[n].next && kids[a] < t.len(),
        params_bindings(t, kids, k).contains(b),
    ensures
        named_inside(b, t, n),
    decreases kids.len() - k,
{
    let own = param_bindings(t, kids[k]);
    let rest = params_bindings(t, kids, k + 1);
    lemma_in_sum(own, rest, b);
    if own.contains(b) {
        let p = kids[k];
        let q = child(t, p, Class::Pat)->0;
        lemma_node_from(t, p + 1, t[p].next, Class::Pat);
        lemma_typed_inside(t, q, rendered_type(t, child(t, p, Class::Type)), b);
        lemma_inside(t, n, p);
        lemma_inside(t, p, q);
        lemma_above(t, n, p, q);
        lemma_named_up(b, t, n, q);
    } else {
        lemma_params_inside(t, n, kids, k + 1, b);
    }
}

proof fn lemma_lambda_inside(t: Tree, n: int, kids: Seq<int>, k: int, b: BindingView)
    requires
        nested(t),
        0 <= n < t.len(),
        0 <= k,
        forall|a: int|
            #![trigger kids[a]]
            0 <= a < kids.len() ==> n < kids[a] < t[n].next && kids[a] < t.len(),
        lambda_params_bindings(t, kids, k).contains(b),
    ensures
        named_inside(b, t, n),
    decreases kids.len() - k,
{
    let own = lambda_param_bindings(t, kids[k]);
    let rest = lambda_params_bindings(t, kids, k + 1);
    lemma_in_sum(own, rest, b);
    if own.contains(b) {
        let p = kids[k];
        lemma_inside(t, n, p);
        if t[p].kind == PARAM {
            let ty = rendered_type(t, child(t, p, Class::Type));
            match child(t, p, Class::Pat) {
                Some(q) => {
                    lemma_node_from(t, p + 1, t[p].next, Class::Pat);
                    lemma_typed_inside(t, q, ty, b);
                    lemma_inside(t, p, q);
                    lemma_named_up(b, t, p, q);
                },
                None => {
                    let i = own.index_of(b);
                    let x = name_token(t, p)[i];
                    lemma_token_below(t, p, x);
                },
            }
        } else {
            lemma_typed_inside(t, p, "_"@, b);
        }
        lemma_named_up(b, t, n, p);
    } else {
        lemma_lambda_inside(t, n, kids, k + 1, b);
    }
}

proof fn lemma_generics_inside(t: Tree, n: int, kids: Seq<int>, k: int, b: BindingView)
    requires
        nested(t),
        0 <= n < t.len(),
        0 <= k,
        forall|a: int|
            #![trigger kids[a]]
            0 <= a < kids.len() ==> n < kids[a] < t[n].next && kids[a] < t.len(),
        generics_bindings(t, kids, k).contains(b),
    ensures
        named_inside(b, t, n),
    decreases kids.len() - k,
{
    let g = kids[k];
    let rest = generics_bindings(t, kids, k + 1);
    match child_token(t, g, IDENT) {
        Some(x) => {
            let own = generics_bindings(t, kids, k).take(1);
            assert(own + rest =~= generics_bindings(t, kids, k));
            lemma_in_sum(own, rest, b);
            if own.contains(b) {
                lemma_inside(t, n, g);
                lemma_token_below(t, g, x);
                assert(own[0] == b);
                assert(encloses(t, g, x));
                lemma_named_up(b, t, n, g);
            } else {
                lemma_generics_inside(t, n, kids, k + 1, b);
            }
        },
        None => {
            assert(Seq::<BindingView>::empty() + rest =~= rest);
            lemma_generics_inside(t, n, kids, k + 1, b);
        },
    }
}

proof fn lemma_patterns_inside(t: Tree, n: int, kids: Seq<int>, k: int, b: BindingView)
    requires
        nested(t),
        0 <= n < t.len(),
        0 <= k,
        forall|a: int|
            #![trigger kids[a]]
            0 <= a < kids.len() ==> n < kids[a] < t[n].next && kids[a] < t.len(),
        patterns_bindings(t, kids, k).contains(b),
    ensures
        named_inside(b, t, n),
    decreases kids.len() - k,
{
    let q = kids[k];
    let own = site_bindings(t, pattern_tokens(t, q));
    let rest = patterns_bindings(t, kids, k + 1);
    lemma_in_sum(own, rest, b);
    if own.contains(b) {
        let i = own.index_of(b);
        let x = pattern_tokens(t, q)[i];
        law_bound_names_are_inside(t, q, x);
        lemma_inside(t, n, q);
        assert(encloses(t, q, x));
        lemma_named_up(b, t, n, q);
    } else {
        lemma_patterns_inside(t, n, kids, k + 1, b);
    }
}

/// Whether a binding is that of a statement of the list that declares constants
/// and ends at or before `offset`.
pub open spec fn of_an_earlier_constant(
    b: BindingView,
    t: Tree,
    stmts: Seq<int>,
    offset: u32,
) -> bool {
    exists|j: int|
        0 <= j < stmts.len() && declares_constants(t, #[trigger] stmts[j]) && t[stmts[j]].end
            <= offset && named_inside(b, t, stmts[j])
}

proof fn lemma_consts_inside(t: Tree, n: int, stmts: Seq<int>, k: int, offset: u32, b: BindingView)
    requires
        nested(t),
        0 <= n < t.len(),
        0 <= k,
        forall|a: int|
            #![trigger stmts[a]]
            0 <= a < stmts.len() ==> n < stmts[a] < t[n].next && stmts[a] < t.len(),
        consts_before(t, stmts, k, offset).contains(b),
    ensures
        of_an_earlier_constant(b, t, stmts, offset),
    decreases stmts.len() - k,
{
    let s = stmts[k];
    if declares_constants(t, s) {
        let own = patterns_bindings(t, children(t, s, Class::Pat), 0);
        let rest = consts_before(t, stmts, k + 1, offset);
        lemma_in_sum(own, rest, b);
        if own.contains(b) {
            lemma_nodes_from(t, s + 1, t[s].next, Class::Pat);
            lemma_patterns_inside(t, s, children(t, s, Class::Pat), 0, b);
            assert(declares_constants(t, stmts[k]));
        } else {
            lemma_consts_inside(t, n, stmts, k + 1, offset, b);
        }
    } else {
        lemma_consts_inside(t, n, stmts, k + 1, offset, b);
    }
}

/// A node binds only names that stand inside it; a block only those of earlier
/// constants, a lambda only behind its parameter list, and other nodes than
/// scopes nothing.
pub proof fn law_scopes_bind_their_own_names(t: Tree, n: int, offset: u32, b: BindingView)
    requires
        nested(t),
        0 <= n < t.len(),
        scope_bindings(t, n, offset).contains(b),
    ensures
        named_inside(b, t, n),
        t[n].kind == BLOCK || t[n].kind == FOR_STMT || t[n].kind == LAMBDA_EXPR || t[n].kind
            == CIRCUIT_DEF || t[n].kind == CONSTRUCTOR_DEF || t[n].kind == STRUCT_DEF || t[n].kind
            == TYPE_DECL || t[n].kind == MODULE_DEF,
        t[n].kind == BLOCK ==> of_an_earlier_constant(b, t, children(t, n, Class::Stmt), offset),
        t[n].kind == LAMBDA_EXPR ==> (child(t, n, Class::Kind(PARAM_LIST)) matches Some(l)
            && offset >= t[l].end),
{
    let kind = t[n].kind;
    let params = children(t, n, Class::Kind(PARAM));
    lemma_nodes_from(t, n + 1, t[n].next, Class::Kind(PARAM));
    if kind == BLOCK {
        let stmts = children(t, n, Class::Stmt);
        lemma_nodes_from(t, n + 1, t[n].next, Class::Stmt);
        let before = consts_before(t, stmts, 0, offset);
        let i = before.reverse().index_of(b);
        assert(before[before.len() - 1 - i] == b);
        lemma_consts_inside(t, n, stmts, 0, offset, b);
        let j = choose|j: int|
            0 <= j < stmts.len() && declares_constants(t, #[trigger] stmts[j]) && t[stmts[j]].end
                <= offset && named_inside(b, t, stmts[j]);
        lemma_inside(t, n, stmts[j]);
        lemma_named_up(b, t, n, stmts[j]);
    } else if kind == FOR_STMT {
        let x = child_token(t, n, IDENT)->0;
        lemma_token_below(t, n, x);
        let i = scope_bindings(t, n, offset).index_of(b);
        assert(scope_bindings(t, n, offset)[i] == b);
        assert(encloses(t, n, x));
    } else if kind == LAMBDA_EXPR {
        let l = child(t, n, Class::Kind(PARAM_LIST))->0;
        lemma_node_from(t, n + 1, t[n].next, Class::Kind(PARAM_LIST));
        lemma_nodes_from(t, l + 1, t[l].next, Class::Any);
        lemma_lambda_inside(t, l, children(t, l, Class::Any), 0, b);
        lemma_inside(t, n, l);
        lemma_named_up(b, t, n, l);
    } else {
        if kind == CIRCUIT_DEF {
            lemma_in_sum(params_bindings(t, params, 0), generic_bindings_of(t, n), b);
        }
        if (kind == CIRCUIT_DEF || kind == CONSTRUCTOR_DEF) && params_bindings(
            t,
            params,
            0,
        ).contains(b) {
            lemma_params_inside(t, n, params, 0, b);
        } else {
            let l = child(t, n, Class::Kind(GENERIC_PARAM_LIST))->0;
            lemma_node_from(t, n + 1, t[n].next, Class::Kind(GENERIC_PARAM_LIST));
            lemma_nodes_from(t, l + 1, t[l].next, Class::Kind(GENERIC_PARAM));
            lemma_generics_inside(t, l, children(t, l, Class::Kind(GENERIC_PARAM)), 0, b);
            lemma_inside(t, n, l);
            lemma_named_up(b, t, n, l);
        }
    }
}

proof fn lemma_from_some_scope(t: Tree, i: int, offset: u32, b: BindingView) -> (n: int)
    requires
        bindings_up(t, i, offset).contains(b),
    ensures
        0 <= n < t.len(),
        encloses(t, n, i),
        scope_bindings(t, n, offset).contains(b),
    decreases i,
{
    let own = scope_bindings(t, i, offset);
    if own.contains(b) {
        i
    } else {
        match t[i].parent {
            Some(p) => {
                let rest = if 0 <= p < i {
                    bindings_up(t, p, offset)
                } else {
                    Seq::empty()
                };
                lemma_in_sum(own, rest, b);
                lemma_from_some_scope(t, p, offset, b)
            },
            None => {
                lemma_in_sum(own, Seq::<BindingView>::empty(), b);
                i
            },
        }
    }
}

/// Every visible binding is that of an identifier inside a node that encloses
/// the position: nothing is seen from outside the node that holds it.
pub proof fn law_visible_bindings_enclose_the_position(t: Tree, offset: u32, b: BindingView)
    requires
        nested(t),
        visible_bindings(t, offset).contains(b),
    ensures
        exists|n: int| #[trigger]
            stands_in(t, n, offset) && 0 <= n < t.len() && named_inside(b, t, n)
                && scope_bindings(t, n, offset).contains(b),
{
    let p = t[anchor(t, offset)->0].parent->0;
    let n = lemma_from_some_scope(t, p, offset, b);
    law_scopes_bind_their_own_names(t, n, offset, b);
    assert(stands_in(t, n, offset));
}

// ---------------------------------------------------------------------------
// Details
// ---------------------------------------------------------------------------

/// Whether `i` is a node that decides how the names below it are shown.
pub open spec fn is_site(t: Tree, i: int) -> bool {
    !t[i].token && (t[i].kind == PARAM || t[i].kind == CONST_STMT || t[i].kind == MULTI_CONST_STMT
        || t[i].kind == FOR_STMT)
}

/// Whether `n` is the nearest such node at or above `i`.
pub open spec fn nearest_site(t: Tree, n: int, i: int) -> bool
    decreases i,
{
    0 <= i < t.len() && if i == n {
        is_site(t, i)
    } else {
        !is_site(t, i) && (t[i].parent matches Some(p) && 0 <= p < i && nearest_site(t, n, p))
    }
}

proof fn lemma_site(t: Tree, n: int, i: int, name: Seq<char>)
    requires
        nearest_site(t, n, i),
    ensures
        t[n].kind == PARAM ==> site_detail_from(t, i, name) == name + ": "@ + shown_annotation(
            t,
            n,
        ),
        t[n].kind == CONST_STMT || t[n].kind == MULTI_CONST_STMT ==> site_detail_from(t, i, name)
            == "const "@ + name,
        t[n].kind == FOR_STMT ==> site_detail_from(t, i, name) == "for "@ + name,
    decreases i,
{
    if i != n {
        lemma_site(t, n, t[i].parent->0, name);
    }
}

/// How a name in a pattern is shown follows the nearest parameter, constant or
/// loop around it: a parameter with its annotation, a constant as one.
pub proof fn law_details_follow_the_site(t: Tree, n: int, x: int)
    requires
        t[x].parent matches Some(p) && nearest_site(t, n, p),
    ensures
        t[n].kind == PARAM ==> site_detail(t, x) == t[x].text + ": "@ + shown_annotation(t, n),
        t[n].kind == CONST_STMT || t[n].kind == MULTI_CONST_STMT ==> site_detail(t, x) == "const "@
            + t[x].text,
        t[n].kind == FOR_STMT ==> site_detail(t, x) == "for "@ + t[x].text,
{
    lemma_site(t, n, t[x].parent->0, t[x].text);
}

// ---------------------------------------------------------------------------
// Tokens at a position
// ---------------------------------------------------------------------------

/// Whether token `x` is not empty and touches `offset`.
pub open spec fn touches(t: Tree, x: int, offset: u32) -> bool {
    0 <= x < t.len() && t[x].token && t[x].start < t[x].end && t[x].start <= offset <= t[x].end
}

proof fn lemma_touching(t: Tree, i: int, offset: u32)
    requires
        0 <= i,
    ensures
        match touching_from(t, i, offset) {
            Some(x) => i <= x && touches(t, x, offset) && forall|y: int|
                i <= y < x ==> !#[trigger] touches(t, y, offset),
            None => forall|y: int| i <= y ==> !#[trigger] touches(t, y, offset),
        },
    decreases t.len() - i,
{
    if i < t.len() && !touches(t, i, offset) {
        lemma_touching(t, i + 1, offset);
    }
}

/// The identifier at a position touches it, and of the at most two tokens that
/// touch a position the right one is preferred. An identifier that touches a
/// position alone is the one at it.
pub proof fn law_identifier_at_a_position(t: Tree, offset: u32, x: int, y: int)
    requires
        touches(t, x, clamped(t, offset)),
        t[x].kind == IDENT,
        touches(t, y, clamped(t, offset)),
        forall|z: int| #[trigger] touches(t, z, clamped(t, offset)) ==> z == x || z == y,
    ensures
        ident_at(t, offset) matches Some(z) && touches(t, z, clamped(t, offset)) && t[z].kind
            == IDENT,
        ident_at(t, offset) == Some(
            if y > x && t[y].kind == IDENT {
                y
            } else {
                x
            },
        ),
        anchor(t, offset) matches Some(z) && (z == x || z == y),
        y <= x ==> anchor(t, offset) == Some(x),
{
    let at = clamped(t, offset);
    lemma_touching(t, 0, at);
    let l = touching_from(t, 0, at)->0;
    lemma_touching(t, l + 1, at);
    assert(touches(t, l, at));
}

/// Where no identifier touches a position there is none at it.
pub proof fn law_no_identifier_at_a_position(t: Tree, offset: u32)
    requires
        forall|z: int| #[trigger] touches(t, z, clamped(t, offset)) ==> t[z].kind != IDENT,
    ensures
        ident_at(t, offset) is None,
{
    let at = clamped(t, offset);
    lemma_touching(t, 0, at);
    if let Some(l) = touching_from(t, 0, at) {
        lemma_touching(t, l + 1, at);
    }
}

// ---------------------------------------------------------------------------
// Resolution of locals
// ---------------------------------------------------------------------------

/// A name that is visible stands for a local binding of that name, whatever
/// items there are.
pub proof fn law_visible_names_are_locals(c: CtxView, offset: u32, x: int)
    requires
        lists(visible_bindings(c.tree(), offset), c.tree(), x),
    ensures
        def_at(c, offset, c.tree()[x].text) matches Some(DefView::Local { file, name, .. }) && file
            == c.file && name == c.tree()[x].text,
{
    let near = visible_bindings(c.tree(), offset);
    let k = choose|k: int|
        0 <= k < near.len() && (#[trigger] near[k]).name == c.tree()[x].text && near[k].name_range
            == range_of(c.tree(), x);
    assert(near[k].name == c.tree()[x].text);
    law_locals_shadow_items(c, offset, c.tree()[x].text);
}

/// A name that is visible and that nothing else visible shares stands for the
/// identifier that binds it.
pub proof fn law_sole_visible_name_is_found(c: CtxView, offset: u32, x: int)
    requires
        lists(visible_bindings(c.tree(), offset), c.tree(), x),
        forall|k: int|
            #![trigger visible_bindings(c.tree(), offset)[k]]
            0 <= k < visible_bindings(c.tree(), offset).len() && visible_bindings(
                c.tree(),
                offset,
            )[k].name == c.tree()[x].text ==> visible_bindings(c.tree(), offset)[k].name_range
                == range_of(c.tree(), x),
    ensures
        def_at(c, offset, c.tree()[x].text) matches Some(DefView::Local { file, name, name_range, .. })
            && file == c.file && name == c.tree()[x].text && name_range == range_of(c.tree(), x),
{
    let near = visible_bindings(c.tree(), offset);
    let k = choose|k: int|
        0 <= k < near.len() && (#[trigger] near[k]).name == c.tree()[x].text && near[k].name_range
            == range_of(c.tree(), x);
    assert(near[k].name == c.tree()[x].text);
    law_locals_shadow_items(c, offset, c.tree()[x].text);
}

} // verus!
