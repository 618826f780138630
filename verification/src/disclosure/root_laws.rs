//! Laws of where an analysis starts and what it starts with.

use vstd::prelude::*;

use crate::db::{file_def, is_file, CtxView};
use crate::disclosure::abs::{all_witnesses, WitnessView};
use crate::disclosure::abs_laws::has_uid;
use crate::disclosure::call_laws::{has_leaf, law_seeded_values_have_their_shape};
use crate::disclosure::leaks::SinkView;
use crate::disclosure::model::{
    param_parts, params_parts, run, typed_abs, typed_elems, typed_fields, EnvView, St, Walk,
};
use crate::disclosure::roots::{
    export_lists, exported_names, module_nested, param_info, reexported, root_node, root_walked,
    roots_from, roots_of, seeded, seeded_from, RootView,
};
use crate::item_tree::{index32, SymbolKind, SymbolView};
use crate::kinds::{Class, BLOCK, EXPORT_LIST, IDENT, IDENT_PAT, PARAM};
use crate::resolve::DefView;
use crate::syntax::{child, child_token, child_tokens, children, range_of, Tree};
use crate::ty::TyView;
use crate::typing::resolved_type;

verus! {

// ---------------------------------------------------------------------------
// Which roots there are
// ---------------------------------------------------------------------------

/// The root that symbol `i` is, where it is one: an exported circuit that is
/// not hidden in a module, or a constructor.
pub open spec fn root_of_symbol(syms: Seq<SymbolView>, i: int, again: Seq<u32>) -> Option<RootView> {
    if syms[i].kind == SymbolKind::Constructor {
        Some(RootView::Constructor { symbol: index32(i) })
    } else if syms[i].kind == SymbolKind::Circuit && syms[i].exported && (!module_nested(syms, i)
        || again.contains(index32(i))) {
        Some(RootView::Circuit { name: syms[i].name, symbol: index32(i) })
    } else {
        None
    }
}

proof fn lemma_roots(
    syms: Seq<SymbolView>,
    k: int,
    again: Seq<u32>,
    sink: SinkView,
    root: RootView,
)
    requires
        0 <= k,
    ensures
        roots_from(syms, k, again, sink).1.contains(root) <==> exists|i: int|
            k <= i < syms.len() && #[trigger] root_of_symbol(syms, i, again) == Some(root),
    decreases syms.len() - k,
{
    if k < syms.len() {
        let s = syms[k];
        let told = sink.advised(
            s.name_range,
            "module-nested circuit `"@ + s.name
                + "` is not re-exported to the top level, so it is not analyzed as a disclosing root"@,
        );
        lemma_roots(syms, k + 1, again, sink, root);
        lemma_roots(syms, k + 1, again, told, root);
        let rest = roots_from(syms, k + 1, again, sink).1;
        let all = roots_from(syms, k, again, sink).1;
        if let Some(mine) = root_of_symbol(syms, k, again) {
            assert(all == seq![mine] + rest);
            assert(all[0] == mine);
            if rest.contains(root) {
                assert(all[rest.index_of(root) + 1] == root);
            }
            if all.contains(root) && root != mine {
                assert(rest[all.index_of(root) - 1] == root);
            }
        }
    }
}

/// The roots of a file are its constructors and those of its exported circuits
/// that stand in no module or are exported again at the top level.
pub proof fn law_roots_of_a_file(c: CtxView, syms: Seq<SymbolView>, sink: SinkView, root: RootView)
    ensures
        roots_of(c, syms, sink).1.contains(root) <==> exists|i: int|
            0 <= i < syms.len() && #[trigger] root_of_symbol(syms, i, reexported(c, syms, sink).1)
                == Some(root),
{
    let r = reexported(c, syms, sink);
    lemma_roots(syms, 0, r.1, r.0, root);
}

/// Whether exported name `x` stands for circuit `index` in a module of the file.
pub open spec fn names_inner_circuit(c: CtxView, syms: Seq<SymbolView>, x: int, index: u32) -> bool {
    &&& file_def(c, c.tree()[x].start, c.tree()[x].text) == Some(
        (DefView::Item { file: c.file, index }),
    )
    &&& index < syms.len()
    &&& syms[index as int].kind == SymbolKind::Circuit
    &&& module_nested(syms, index as int)
}

proof fn lemma_exported_names(
    c: CtxView,
    syms: Seq<SymbolView>,
    toks: Seq<int>,
    k: int,
    sink: SinkView,
    found: Seq<u32>,
    index: u32,
)
    requires
        0 <= k,
    ensures
        exported_names(c, syms, toks, k, sink, found).1.contains(index) <==> found.contains(index)
            || exists|i: int|
            k <= i < toks.len() && #[trigger] names_inner_circuit(c, syms, toks[i], index),
    decreases toks.len() - k,
{
    if k < toks.len() {
        let t = c.tree();
        let x = toks[k];
        let told = sink.advised(
            range_of(t, x),
            "re-exported circuit `"@ + t[x].text
                + "` is defined in another module/file; not analyzed as a disclosing root here"@,
        );
        lemma_exported_names(c, syms, toks, k + 1, told, found, index);
        lemma_exported_names(c, syms, toks, k + 1, sink, found, index);
        if let Some(DefView::Item { file, index: at }) = file_def(c, t[x].start, t[x].text) {
            let more = found.push(at);
            lemma_exported_names(c, syms, toks, k + 1, sink, more, index);
            assert(more[found.len() as int] == at);
            if found.contains(index) {
                assert(more[found.index_of(index)] == index);
            }
            if more.contains(index) && index != at {
                assert(found[more.index_of(index)] == index);
            }
            if file == c.file && at < syms.len() && syms[at as int].kind == SymbolKind::Circuit
                && module_nested(syms, at as int) {
                assert(names_inner_circuit(c, syms, toks[k], at));
                assert(exported_names(c, syms, toks, k, sink, found) == exported_names(
                    c,
                    syms,
                    toks,
                    k + 1,
                    sink,
                    more,
                ));
            } else {
                assert(!names_inner_circuit(c, syms, toks[k], index));
                let rest = exported_names(c, syms, toks, k, sink, found).1;
                assert(rest == exported_names(c, syms, toks, k + 1, sink, found).1 || rest
                    == exported_names(c, syms, toks, k + 1, told, found).1);
            }
        } else {
            assert(!names_inner_circuit(c, syms, toks[k], index));
        }
    }
}

proof fn lemma_export_lists(
    c: CtxView,
    syms: Seq<SymbolView>,
    lists: Seq<int>,
    k: int,
    sink: SinkView,
    found: Seq<u32>,
    index: u32,
)
    requires
        0 <= k,
    ensures
        export_lists(c, syms, lists, k, sink, found).1.contains(index) <==> found.contains(index)
            || exists|a: int, i: int|
            k <= a < lists.len() && 0 <= i < child_tokens(c.tree(), lists[a], IDENT).len()
                && #[trigger] names_inner_circuit(
                c,
                syms,
                child_tokens(c.tree(), lists[a], IDENT)[i],
                index,
            ),
    decreases lists.len() - k,
{
    if k < lists.len() {
        let toks = child_tokens(c.tree(), lists[k], IDENT);
        let next = exported_names(c, syms, toks, 0, sink, found);
        lemma_exported_names(c, syms, toks, 0, sink, found, index);
        lemma_export_lists(c, syms, lists, k + 1, next.0, next.1, index);
        if export_lists(c, syms, lists, k, sink, found).1.contains(index) && !found.contains(index) {
            if next.1.contains(index) {
                let i = choose|i: int|
                    0 <= i < toks.len() && #[trigger] names_inner_circuit(c, syms, toks[i], index);
                assert(names_inner_circuit(
                    c,
                    syms,
                    child_tokens(c.tree(), lists[k], IDENT)[i],
                    index,
                ));
            }
        }
    }
}

/// A circuit in a module counts as exported again exactly where a list of
/// exports at the top level of the file has a name that stands for it.
pub proof fn law_reexported_circuits(
    c: CtxView,
    syms: Seq<SymbolView>,
    sink: SinkView,
    index: u32,
)
    requires
        is_file(c.tree()),
    ensures
        reexported(c, syms, sink).1.contains(index) <==> exists|a: int, i: int|
            0 <= a < children(c.tree(), 0, Class::Kind(EXPORT_LIST)).len() && 0 <= i < child_tokens(
                c.tree(),
                children(c.tree(), 0, Class::Kind(EXPORT_LIST))[a],
                IDENT,
            ).len() && #[trigger] names_inner_circuit(
                c,
                syms,
                child_tokens(
                    c.tree(),
                    children(c.tree(), 0, Class::Kind(EXPORT_LIST))[a],
                    IDENT,
                )[i],
                index,
            ),
{
    let lists = children(c.tree(), 0, Class::Kind(EXPORT_LIST));
    lemma_export_lists(c, syms, lists, 0, sink, Seq::empty(), index);
}

// ---------------------------------------------------------------------------
// What a root starts with
// ---------------------------------------------------------------------------

proof fn lemma_typed_counts_nothing(sink: SinkView, ty: TyView, seed: Seq<WitnessView>)
    ensures
        typed_abs(sink, ty, seed).0.next_uid == sink.next_uid,
    decreases ty, 1int, 0int,
{
    match ty {
        TyView::Struct { fields, .. } => lemma_fields_count_nothing(sink, fields, 0, seed),
        TyView::Tuple(elems) => lemma_elems_count_nothing(sink, elems, 0, seed),
        TyView::Vector(_, elem) => lemma_typed_counts_nothing(sink, *elem, seed),
        _ => {},
    }
}

proof fn lemma_fields_count_nothing(
    sink: SinkView,
    fields: Seq<(Seq<char>, TyView)>,
    i: int,
    seed: Seq<WitnessView>,
)
    ensures
        typed_fields(sink, fields, i, seed).0.next_uid == sink.next_uid,
    decreases fields, 0int, fields.len() - i,
{
    if 0 <= i < fields.len() {
        lemma_typed_counts_nothing(sink, fields[i].1, seed);
        lemma_fields_count_nothing(typed_abs(sink, fields[i].1, seed).0, fields, i + 1, seed);
    }
}

proof fn lemma_elems_count_nothing(
    sink: SinkView,
    elems: Seq<TyView>,
    i: int,
    seed: Seq<WitnessView>,
)
    ensures
        typed_elems(sink, elems, i, seed).0.next_uid == sink.next_uid,
    decreases elems, 0int, elems.len() - i,
{
    if 0 <= i < elems.len() {
        lemma_typed_counts_nothing(sink, elems[i], seed);
        lemma_elems_count_nothing(typed_abs(sink, elems[i], seed).0, elems, i + 1, seed);
    }
}

proof fn lemma_seeded(
    c: CtxView,
    root: RootView,
    params: Seq<(int, int)>,
    k: int,
    sink: SinkView,
    env: EnvView,
    i: int,
    name: Seq<char>,
    uid: u32,
)
    requires
        0 <= k,
        sink.next_uid + params.len() - k <= u32::MAX,
    ensures
        ({
            let out = seeded_from(c, root, params, k, sink, env).1;
            let t = c.tree();
            &&& k <= i < params.len() && t[params[i].0].text == name && (forall|j: int|
                i < j < params.len() ==> t[(#[trigger] params[j]).0].text != name)
                ==> out.contains_key(name) && (has_uid(all_witnesses(out[name]), uid) <==> uid
                == sink.next_uid + (i - k) && has_leaf(resolved_type(c, params[i].1)))
            &&& (forall|j: int| k <= j < params.len() ==> t[(#[trigger] params[j]).0].text != name)
                ==> out.contains_key(name) == env.contains_key(name) && out[name] == env[name]
        }),
    decreases params.len() - k,
{
    if k < params.len() {
        let t = c.tree();
        let (x, ty) = params[k];
        let witness = WitnessView {
            uid: sink.next_uid,
            src: range_of(t, x),
            info: param_info(root, t[x].text),
            path: Seq::empty(),
        };
        let seed = seq![witness];
        let r = typed_abs(sink.counted(), resolved_type(c, ty), seed);
        law_seeded_values_have_their_shape(sink.counted(), resolved_type(c, ty), seed, 0, uid);
        lemma_typed_counts_nothing(sink.counted(), resolved_type(c, ty), seed);
        assert(seed[0].uid == sink.next_uid);
        let next = env.insert(t[x].text, r.1);
        lemma_seeded(c, root, params, k + 1, r.0, next, i, name, uid);
    }
}

/// Each parameter of a root is a witness of its own: its value carries one uid,
/// which no other parameter has, wherever its type has a place for one.
pub proof fn law_parameters_are_witnesses(
    c: CtxView,
    root: RootView,
    sink: SinkView,
    n: int,
    i: int,
    uid: u32,
)
    requires
        root_node(c, root) == Some(n),
        ({
            let params = params_parts(c.tree(), children(c.tree(), n, Class::Kind(PARAM)), 0);
            &&& sink.next_uid + params.len() <= u32::MAX
            &&& 0 <= i < params.len()
            &&& forall|j: int|
                i < j < params.len() ==> c.tree()[(#[trigger] params[j]).0].text
                    != c.tree()[params[i].0].text
        }),
    ensures
        ({
            let params = params_parts(c.tree(), children(c.tree(), n, Class::Kind(PARAM)), 0);
            let env = seeded(c, root, sink).1;
            let name = c.tree()[params[i].0].text;
            &&& env.contains_key(name)
            &&& has_uid(all_witnesses(env[name]), uid) <==> uid == sink.next_uid + i && has_leaf(
                resolved_type(c, params[i].1),
            )
        }),
{
    let params = params_parts(c.tree(), children(c.tree(), n, Class::Kind(PARAM)), 0);
    let name = c.tree()[params[i].0].text;
    lemma_seeded(c, root, params, 0, sink, Map::empty(), i, name, uid);
}

proof fn lemma_params_parts(t: Tree, kids: Seq<int>, k: int, part: (int, int))
    requires
        0 <= k,
    ensures
        params_parts(t, kids, k).contains(part) <==> exists|i: int|
            k <= i < kids.len() && #[trigger] param_parts(t, kids[i]) == Some(part),
    decreases kids.len() - k,
{
    if k < kids.len() {
        lemma_params_parts(t, kids, k + 1, part);
        let rest = params_parts(t, kids, k + 1);
        let all = params_parts(t, kids, k);
        if let Some(mine) = param_parts(t, kids[k]) {
            assert(all == seq![mine] + rest);
            assert(all[0] == mine);
            if rest.contains(part) {
                assert(all[rest.index_of(part) + 1] == part);
            }
            if all.contains(part) && part != mine {
                assert(rest[all.index_of(part) - 1] == part);
            }
        }
    }
}

/// Every parameter that is one name with a type counts, and no other.
pub proof fn law_named_parameters_count(t: Tree, n: int, x: int, ty: int)
    ensures
        params_parts(t, children(t, n, Class::Kind(PARAM)), 0).contains((x, ty)) <==> exists|i: int|
            0 <= i < children(t, n, Class::Kind(PARAM)).len() && ({
                let p = #[trigger] children(t, n, Class::Kind(PARAM))[i];
                child(t, p, Class::Type) == Some(ty) && (child(t, p, Class::Pat) matches Some(q)
                    && t[q].kind == IDENT_PAT && child_token(t, q, IDENT) == Some(x))
            }),
{
    let kids = children(t, n, Class::Kind(PARAM));
    lemma_params_parts(t, kids, 0, (x, ty));
    if params_parts(t, kids, 0).contains((x, ty)) {
        let i = choose|i: int|
            0 <= i < kids.len() && #[trigger] param_parts(t, kids[i]) == Some((x, ty));
        assert(0 <= i < kids.len() && kids[i] == kids[i]);
    }
    if exists|i: int|
        0 <= i < kids.len() && ({
            let p = #[trigger] kids[i];
            child(t, p, Class::Type) == Some(ty) && (child(t, p, Class::Pat) matches Some(q)
                && t[q].kind == IDENT_PAT && child_token(t, q, IDENT) == Some(x))
        }) {
        let i = choose|i: int|
            0 <= i < kids.len() && ({
                let p = #[trigger] kids[i];
                child(t, p, Class::Type) == Some(ty) && (child(t, p, Class::Pat) matches Some(q)
                    && t[q].kind == IDENT_PAT && child_token(t, q, IDENT) == Some(x))
            });
        assert(param_parts(t, kids[i]) == Some((x, ty)));
    }
}

/// A root runs its body with its parameters as witnesses, under no control and
/// with no call remembered. The return values of a circuit are watched, those
/// of a constructor are not.
pub proof fn law_root_runs_its_body(c: CtxView, root: RootView, sink: SinkView, n: int, b: int)
    requires
        root_node(c, root) == Some(n),
        child(c.tree(), n, Class::Kind(BLOCK)) == Some(b),
    ensures
        ({
            let start = seeded(c, root, sink);
            let w = Walk {
                c,
                f: match root {
                    RootView::Circuit { name, .. } => Some(name),
                    RootView::Constructor { .. } => None,
                },
                active: Seq::empty(),
                depth: 0,
            };
            root_walked(c, root, sink) == run(
                w,
                St { sink: start.0, cache: Seq::empty(), ret: Seq::empty() },
                start.1,
                Seq::empty(),
                b,
            ).0.sink
        }),
{
}

} // verus!
