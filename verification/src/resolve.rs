//! Lexical scopes: the local bindings that are visible at a position.

use vstd::prelude::*;
use vstd::string::*;

use crate::item_tree::{index32, members_from, clamp_index, ItemTree, Symbol, SymbolKind, SymbolView};
use crate::kinds::{
    Class, AS_KW, BLOCK, CIRCUIT_DEF, CONSTRUCTOR_DEF, CONST_STMT, FOR_STMT, GENERIC_PARAM,
    GENERIC_PARAM_LIST, HASH, IDENT, IDENT_PAT, LAMBDA_EXPR, MODULE_DEF, MULTI_CONST_STMT, PARAM,
    PARAM_LIST, STRUCT_DEF, STRUCT_PAT, STRUCT_PAT_FIELD, TUPLE_PAT, TUPLE_PAT_ELT, TYPE_DECL,
};
use crate::syntax::{
    child, child_token, children, end_of, ints, oint, range_of, text_of, touching_from, well_formed,
    SyntaxTree, Tree,
};
use crate::text::{cat2, cat3, collapse_ws, collapsed, otext, same_text, TextRange};
use crate::vfs::FileId;

verus! {

/// A position in a file.
#[derive(Clone, Copy, Debug)]
pub struct FilePosition {
    pub file: FileId,
    pub offset: u32,
}

/// What a name stands for.
#[derive(Debug, PartialEq, Eq)]
pub enum Definition {
    /// A declaration in the item tree of a file.
    Item { file: FileId, index: u32 },
    /// A local binding.
    Local { file: FileId, name: String, name_range: TextRange, detail: String },
}

/// The value of a [`Definition`].
pub enum DefView {
    Item { file: FileId, index: u32 },
    Local { file: FileId, name: Seq<char>, name_range: TextRange, detail: Seq<char> },
}

impl View for Definition {
    type V = DefView;

    open spec fn view(&self) -> DefView {
        match self {
            Definition::Item { file, index } => DefView::Item { file: *file, index: *index },
            Definition::Local { file, name, name_range, detail } => DefView::Local {
                file: *file,
                name: name@,
                name_range: *name_range,
                detail: detail@,
            },
        }
    }
}

/// The value of an optional definition.
pub open spec fn odef(o: Option<Definition>) -> Option<DefView> {
    match o {
        Some(d) => Some(d@),
        None => None,
    }
}

/// A local binding that is visible in some scope.
#[derive(Debug, PartialEq, Eq)]
pub struct Binding {
    pub name: String,
    pub name_range: TextRange,
    pub detail: String,
}

/// The value of a [`Binding`].
pub struct BindingView {
    pub name: Seq<char>,
    pub name_range: TextRange,
    pub detail: Seq<char>,
}

impl View for Binding {
    type V = BindingView;

    open spec fn view(&self) -> BindingView {
        BindingView { name: self.name@, name_range: self.name_range, detail: self.detail@ }
    }
}

/// The values of a list of bindings.
pub open spec fn bindings_view(s: Seq<Binding>) -> Seq<BindingView> {
    s.map_values(|b: Binding| b@)
}

/// Whether `offset` lies inside a range.
pub open spec fn covers(r: TextRange, offset: u32) -> bool {
    r.start <= offset < r.end
}

// ---------------------------------------------------------------------------
// Patterns
// ---------------------------------------------------------------------------

/// The name token of `n` as a list.
pub open spec fn name_token(t: Tree, n: int) -> Seq<int> {
    match child_token(t, n, IDENT) {
        Some(x) => seq![x],
        None => Seq::empty(),
    }
}

/// The name tokens that pattern `p` binds, in order.
pub open spec fn pattern_tokens(t: Tree, p: int) -> Seq<int>
    decreases t.len() - p, 0int, 0int,
{
    if 0 <= p < t.len() {
        let kind = t[p].kind;
        if kind == IDENT_PAT {
            name_token(t, p)
        } else if kind == TUPLE_PAT {
            parts_tokens(t, children(t, p, Class::Kind(TUPLE_PAT_ELT)), 0, p)
        } else if kind == STRUCT_PAT {
            parts_tokens(t, children(t, p, Class::Kind(STRUCT_PAT_FIELD)), 0, p)
        } else {
            Seq::empty()
        }
    } else {
        Seq::empty()
    }
}

/// The name tokens bound by the pattern parts `kids` from position `k` on: an
/// inner pattern where there is one, and else the name of a struct field.
pub open spec fn parts_tokens(t: Tree, kids: Seq<int>, k: int, after: int) -> Seq<int>
    decreases t.len() - after - 1, 1int, kids.len() - k,
{
    if 0 <= k < kids.len() && after < kids[k] < t.len() {
        let own = match child(t, kids[k], Class::Pat) {
            Some(q) => if kids[k] < q < t.len() {
                pattern_tokens(t, q)
            } else {
                Seq::empty()
            },
            None => if t[kids[k]].kind == STRUCT_PAT_FIELD {
                name_token(t, kids[k])
            } else {
                Seq::empty()
            },
        };
        own + parts_tokens(t, kids, k + 1, after)
    } else {
        Seq::empty()
    }
}

fn push_name_token(t: &SyntaxTree, n: usize, out: &mut Vec<usize>)
    requires
        well_formed(t@),
        n < t@.len(),
        forall|k: int| #![trigger old(out)@[k]] 0 <= k < old(out)@.len() ==> old(out)@[k] < t@.len(),
    ensures
        ints(final(out)@) == ints(old(out)@) + name_token(t@, n as int),
        forall|k: int|
            #![trigger final(out)@[k]]
            0 <= k < final(out)@.len() ==> final(out)@[k] < t@.len(),
{
    match t.child_token(n, IDENT) {
        Some(x) => {
            out.push(x);
            assert(ints(out@) =~= ints(old(out)@) + seq![x as int]);
        },
        None => {
            assert(ints(out@) =~= ints(old(out)@) + Seq::<int>::empty());
        },
    }
}

fn collect_pattern_parts(t: &SyntaxTree, kids: &Vec<usize>, after: usize, out: &mut Vec<usize>)
    requires
        well_formed(t@),
        after < t@.len(),
        forall|k: int| #![trigger kids@[k]] 0 <= k < kids@.len() ==> after < kids@[k] < t@.len(),
        forall|k: int| #![trigger old(out)@[k]] 0 <= k < old(out)@.len() ==> old(out)@[k] < t@.len(),
    ensures
        ints(final(out)@) == ints(old(out)@) + parts_tokens(t@, ints(kids@), 0, after as int),
        forall|k: int|
            #![trigger final(out)@[k]]
            0 <= k < final(out)@.len() ==> final(out)@[k] < t@.len(),
    decreases t@.len() - after - 1, 1int,
{
    let ghost base = ints(out@);
    let ghost list = ints(kids@);
    let mut k: usize = 0;
    while k < kids.len()
        invariant
            well_formed(t@),
            after < t@.len(),
            k <= kids@.len(),
            list == ints(kids@),
            forall|k: int| #![trigger kids@[k]] 0 <= k < kids@.len() ==> after < kids@[k] < t@.len(),
            ints(out@) + parts_tokens(t@, list, k as int, after as int) == base + parts_tokens(
                t@,
                list,
                0,
                after as int,
            ),
            forall|k: int| #![trigger out@[k]] 0 <= k < out@.len() ==> out@[k] < t@.len(),
        decreases kids@.len() - k,
    {
        let e: usize = kids[k];
        assert(list[k as int] == e);
        let ghost before = ints(out@);
        let ghost rest = parts_tokens(t@, list, k + 1, after as int);
        match t.child(e, Class::Pat) {
            Some(q) => {
                collect_pattern_bindings(t, q, out);
                assert((before + pattern_tokens(t@, q as int)) + rest =~= before + (pattern_tokens(
                    t@,
                    q as int,
                ) + rest));
            },
            None => {
                if t.kind(e) == STRUCT_PAT_FIELD {
                    push_name_token(t, e, out);
                    assert((before + name_token(t@, e as int)) + rest =~= before + (name_token(
                        t@,
                        e as int,
                    ) + rest));
                } else {
                    assert(before + (Seq::<int>::empty() + rest) =~= before + rest);
                }
            },
        }
        k = k + 1;
    }
    assert(ints(out@) + Seq::<int>::empty() =~= ints(out@));
}

fn collect_pattern_bindings(t: &SyntaxTree, p: usize, out: &mut Vec<usize>)
    requires
        well_formed(t@),
        p < t@.len(),
        forall|k: int| #![trigger old(out)@[k]] 0 <= k < old(out)@.len() ==> old(out)@[k] < t@.len(),
    ensures
        ints(final(out)@) == ints(old(out)@) + pattern_tokens(t@, p as int),
        forall|k: int|
            #![trigger final(out)@[k]]
            0 <= k < final(out)@.len() ==> final(out)@[k] < t@.len(),
    decreases t@.len() - p, 0int,
{
    let kind: u16 = t.kind(p);
    if kind == IDENT_PAT {
        push_name_token(t, p, out);
    } else if kind == TUPLE_PAT {
        let kids = t.children(p, Class::Kind(TUPLE_PAT_ELT));
        collect_pattern_parts(t, &kids, p, out);
    } else if kind == STRUCT_PAT {
        let kids = t.children(p, Class::Kind(STRUCT_PAT_FIELD));
        collect_pattern_parts(t, &kids, p, out);
    } else {
        assert(ints(out@) + Seq::<int>::empty() =~= ints(out@));
    }
}

/// The name tokens that pattern `p` binds.
pub fn pattern_bindings(t: &SyntaxTree, p: usize) -> (r: Vec<usize>)
    requires
        well_formed(t@),
        p < t@.len(),
    ensures
        ints(r@) == pattern_tokens(t@, p as int),
        forall|k: int| #![trigger r@[k]] 0 <= k < r@.len() ==> r@[k] < t@.len(),
{
    let mut out: Vec<usize> = Vec::new();
    collect_pattern_bindings(t, p, &mut out);
    assert(ints(out@) =~= pattern_tokens(t@, p as int));
    out
}

// ---------------------------------------------------------------------------
// Details
// ---------------------------------------------------------------------------

/// How a type annotation is shown: its text with white space collapsed, or an
/// underscore where there is none.
pub open spec fn rendered_type(t: Tree, ty: Option<int>) -> Seq<char> {
    match ty {
        Some(x) => collapsed(text_of(t, x)),
        None => "_"@,
    }
}

/// Shows a type annotation.
pub fn render_ty(t: &SyntaxTree, ty: Option<usize>) -> (r: String)
    requires
        well_formed(t@),
        ty matches Some(x) ==> x < t@.len(),
    ensures
        r@ == rendered_type(t@, oint(ty)),
{
    match ty {
        Some(x) => {
            let text = t.text(x);
            collapse_ws(&text)
        },
        None => "_".to_owned(),
    }
}

/// The detail of a binding called `name`, decided by the nearest ancestor at
/// or above `i` that is a parameter, a constant or a loop.
pub open spec fn site_detail_from(t: Tree, i: int, name: Seq<char>) -> Seq<char>
    decreases i,
{
    if 0 <= i < t.len() {
        if t[i].kind == PARAM && !t[i].token {
            name + ": "@ + rendered_type(t, child(t, i, Class::Type))
        } else if (t[i].kind == CONST_STMT || t[i].kind == MULTI_CONST_STMT) && !t[i].token {
            "const "@ + name
        } else if t[i].kind == FOR_STMT && !t[i].token {
            "for "@ + name
        } else {
            match t[i].parent {
                Some(p) => if 0 <= p < i {
                    site_detail_from(t, p, name)
                } else {
                    "const "@ + name
                },
                None => "const "@ + name,
            }
        }
    } else {
        "const "@ + name
    }
}

/// The detail of the binding at name token `x`.
pub open spec fn site_detail(t: Tree, x: int) -> Seq<char> {
    match t[x].parent {
        Some(p) => site_detail_from(t, p, t[x].text),
        None => "const "@ + t[x].text,
    }
}

/// The detail of the binding at name token `x`.
pub fn detail_for_binding(t: &SyntaxTree, x: usize) -> (r: String)
    requires
        well_formed(t@),
        x < t@.len(),
    ensures
        r@ == site_detail(t@, x as int),
{
    let name = t.token_text(x);
    let mut cur: Option<usize> = t.parent(x);
    let ghost whole = site_detail(t@, x as int);
    loop
        invariant
            well_formed(t@),
            x < t@.len(),
            name@ == t@[x as int].text,
            cur matches Some(i) ==> i < t@.len(),
            whole == site_detail(t@, x as int),
            cur matches Some(i) ==> whole == site_detail_from(t@, i as int, name@),
            cur is None ==> whole == "const "@ + name@,
        decreases (match cur {
            Some(i) => i + 1,
            None => 0int,
        }),
    {
        match cur {
            Some(i) => {
                let node: bool = !t.is_token(i);
                let kind: u16 = t.kind(i);
                if kind == PARAM && node {
                    let ty = render_ty(t, t.child(i, Class::Type));
                    return cat3(name, ": ", &ty);
                }
                if (kind == CONST_STMT || kind == MULTI_CONST_STMT) && node {
                    return cat2("const ", name);
                }
                if kind == FOR_STMT && node {
                    return cat2("for ", name);
                }
                cur = t.parent(i);
                assert(t@[i as int].parent == oint(cur));
            },
            None => {
                return cat2("const ", name);
            },
        }
    }
}


// ---------------------------------------------------------------------------
// Bindings of one scope
// ---------------------------------------------------------------------------

/// The binding at name token `x` with the given detail.
pub open spec fn binding_at(t: Tree, x: int, detail: Seq<char>) -> BindingView {
    BindingView { name: t[x].text, name_range: range_of(t, x), detail }
}

/// The bindings at name tokens `toks`, all annotated with the type text `ty`.
pub open spec fn typed_bindings(t: Tree, toks: Seq<int>, ty: Seq<char>) -> Seq<BindingView> {
    toks.map_values(|x: int| binding_at(t, x, t[x].text + ": "@ + ty))
}

/// The bindings at name tokens `toks`, each with the detail of its site.
pub open spec fn site_bindings(t: Tree, toks: Seq<int>) -> Seq<BindingView> {
    toks.map_values(|x: int| binding_at(t, x, site_detail(t, x)))
}

/// The bindings of one parameter of a circuit or constructor.
pub open spec fn param_bindings(t: Tree, param: int) -> Seq<BindingView> {
    match child(t, param, Class::Pat) {
        Some(p) => typed_bindings(
            t,
            pattern_tokens(t, p),
            rendered_type(t, child(t, param, Class::Type)),
        ),
        None => Seq::empty(),
    }
}

/// The bindings of the parameters `kids` from position `k` on.
pub open spec fn params_bindings(t: Tree, kids: Seq<int>, k: int) -> Seq<BindingView>
    decreases kids.len() - k,
{
    if 0 <= k < kids.len() {
        param_bindings(t, kids[k]) + params_bindings(t, kids, k + 1)
    } else {
        Seq::empty()
    }
}

/// The bindings of one child of a lambda's parameter list: a bare pattern, a
/// typed parameter with a pattern, or a typed parameter with a bare name.
pub open spec fn lambda_param_bindings(t: Tree, n: int) -> Seq<BindingView> {
    let kind = t[n].kind;
    if kind == IDENT_PAT || kind == TUPLE_PAT || kind == STRUCT_PAT {
        typed_bindings(t, pattern_tokens(t, n), "_"@)
    } else if kind == PARAM {
        let ty = rendered_type(t, child(t, n, Class::Type));
        match child(t, n, Class::Pat) {
            Some(p) => typed_bindings(t, pattern_tokens(t, p), ty),
            None => typed_bindings(t, name_token(t, n), ty),
        }
    } else {
        Seq::empty()
    }
}

/// The bindings of the lambda parameters `kids` from position `k` on.
pub open spec fn lambda_params_bindings(t: Tree, kids: Seq<int>, k: int) -> Seq<BindingView>
    decreases kids.len() - k,
{
    if 0 <= k < kids.len() {
        lambda_param_bindings(t, kids[k]) + lambda_params_bindings(t, kids, k + 1)
    } else {
        Seq::empty()
    }
}

/// The detail of a generic parameter; a numeric one carries a hash.
pub open spec fn generic_detail(t: Tree, param: int, name: Seq<char>) -> Seq<char> {
    if child_token(t, param, HASH) is Some {
        "generic #"@ + name
    } else {
        "generic "@ + name
    }
}

/// The bindings of the generic parameters `kids` from position `k` on.
pub open spec fn generics_bindings(t: Tree, kids: Seq<int>, k: int) -> Seq<BindingView>
    decreases kids.len() - k,
{
    if 0 <= k < kids.len() {
        let own = match child_token(t, kids[k], IDENT) {
            Some(x) => seq![binding_at(t, x, generic_detail(t, kids[k], t[x].text))],
            None => Seq::empty(),
        };
        own + generics_bindings(t, kids, k + 1)
    } else {
        Seq::empty()
    }
}

/// The bindings of the generic parameter list of `n`, where it has one.
pub open spec fn generic_bindings_of(t: Tree, n: int) -> Seq<BindingView> {
    match child(t, n, Class::Kind(GENERIC_PARAM_LIST)) {
        Some(p) => generics_bindings(t, children(t, p, Class::Kind(GENERIC_PARAM)), 0),
        None => Seq::empty(),
    }
}

/// The bindings of the patterns `kids` from position `k` on.
pub open spec fn patterns_bindings(t: Tree, kids: Seq<int>, k: int) -> Seq<BindingView>
    decreases kids.len() - k,
{
    if 0 <= k < kids.len() {
        site_bindings(t, pattern_tokens(t, kids[k])) + patterns_bindings(t, kids, k + 1)
    } else {
        Seq::empty()
    }
}

/// The constants of the statements `stmts` from position `k` on that end at or
/// before `offset`; the first that ends later hides all behind it.
pub open spec fn consts_before(t: Tree, stmts: Seq<int>, k: int, offset: u32) -> Seq<BindingView>
    decreases stmts.len() - k,
{
    if 0 <= k < stmts.len() {
        let s = stmts[k];
        if t[s].kind == CONST_STMT || t[s].kind == MULTI_CONST_STMT {
            if t[s].end > offset {
                Seq::empty()
            } else {
                patterns_bindings(t, children(t, s, Class::Pat), 0) + consts_before(
                    t,
                    stmts,
                    k + 1,
                    offset,
                )
            }
        } else {
            consts_before(t, stmts, k + 1, offset)
        }
    } else {
        Seq::empty()
    }
}

/// The bindings that node `n` introduces for `offset`, where it is a scope.
pub open spec fn scope_bindings(t: Tree, n: int, offset: u32) -> Seq<BindingView> {
    let kind = t[n].kind;
    if kind == BLOCK {
        consts_before(t, children(t, n, Class::Stmt), 0, offset).reverse()
    } else if kind == FOR_STMT {
        match (child(t, n, Class::Kind(BLOCK)), child_token(t, n, IDENT)) {
            (Some(b), Some(x)) => if covers(range_of(t, b), offset) {
                seq![binding_at(t, x, "for "@ + t[x].text)]
            } else {
                Seq::empty()
            },
            _ => Seq::empty(),
        }
    } else if kind == LAMBDA_EXPR {
        match child(t, n, Class::Kind(PARAM_LIST)) {
            Some(p) => if offset >= t[p].end {
                lambda_params_bindings(t, children(t, p, Class::Any), 0)
            } else {
                Seq::empty()
            },
            None => Seq::empty(),
        }
    } else if kind == CIRCUIT_DEF {
        params_bindings(t, children(t, n, Class::Kind(PARAM)), 0) + generic_bindings_of(t, n)
    } else if kind == CONSTRUCTOR_DEF {
        params_bindings(t, children(t, n, Class::Kind(PARAM)), 0)
    } else if kind == STRUCT_DEF || kind == TYPE_DECL || kind == MODULE_DEF {
        generic_bindings_of(t, n)
    } else {
        Seq::empty()
    }
}

/// The bindings of `n` and of all its ancestors, from the inside out.
pub open spec fn bindings_up(t: Tree, n: int, offset: u32) -> Seq<BindingView>
    decreases n,
{
    if 0 <= n < t.len() {
        scope_bindings(t, n, offset) + match t[n].parent {
            Some(p) => if 0 <= p < n {
                bindings_up(t, p, offset)
            } else {
                Seq::empty()
            },
            None => Seq::empty(),
        }
    } else {
        Seq::empty()
    }
}

/// `offset`, or the end of the text where it lies behind it.
pub open spec fn clamped(t: Tree, offset: u32) -> u32 {
    if offset <= end_of(t) {
        offset
    } else {
        end_of(t)
    }
}

/// The token on which a scope walk for `offset` starts: between two tokens the
/// right one where it is an identifier, and else the left one.
pub open spec fn anchor(t: Tree, offset: u32) -> Option<int> {
    let at = clamped(t, offset);
    match touching_from(t, 0, at) {
        Some(l) => match touching_from(t, l + 1, at) {
            Some(r) => if t[r].kind == IDENT {
                Some(r)
            } else {
                Some(l)
            },
            None => Some(l),
        },
        None => None,
    }
}

/// The bindings visible at `offset`, nearest and latest first.
pub open spec fn visible_bindings(t: Tree, offset: u32) -> Seq<BindingView> {
    match anchor(t, offset) {
        Some(x) => match t[x].parent {
            Some(p) => bindings_up(t, p, offset),
            None => Seq::empty(),
        },
        None => Seq::empty(),
    }
}

fn push_typed(t: &SyntaxTree, toks: &Vec<usize>, ty: &str, out: &mut Vec<Binding>)
    requires
        forall|k: int| #![trigger toks@[k]] 0 <= k < toks@.len() ==> toks@[k] < t@.len(),
    ensures
        bindings_view(final(out)@) == bindings_view(old(out)@) + typed_bindings(
            t@,
            ints(toks@),
            ty@,
        ),
{
    let ghost base = bindings_view(out@);
    let ghost all = typed_bindings(t@, ints(toks@), ty@);
    let mut k: usize = 0;
    assert(base + all.take(0) =~= base);
    while k < toks.len()
        invariant
            k <= toks@.len(),
            all == typed_bindings(t@, ints(toks@), ty@),
            forall|k: int| #![trigger toks@[k]] 0 <= k < toks@.len() ==> toks@[k] < t@.len(),
            bindings_view(out@) == base + all.take(k as int),
        decreases toks@.len() - k,
    {
        let x: usize = toks[k];
        let name = t.token_text(x);
        let ghost before = bindings_view(out@);
        let b = Binding {
            name: name.to_owned(),
            name_range: t.range(x),
            detail: cat3(name, ": ", ty),
        };
        assert(ints(toks@)[k as int] == x);
        assert(b@ == all[k as int]);
        out.push(b);
        assert(bindings_view(out@) =~= before.push(all[k as int]));
        assert(all.take(k + 1) =~= all.take(k as int).push(all[k as int]));
        assert(before.push(all[k as int]) =~= base + all.take(k + 1));
        k = k + 1;
    }
    assert(all.take(k as int) =~= all);
}

fn push_sites(t: &SyntaxTree, toks: &Vec<usize>, out: &mut Vec<Binding>)
    requires
        well_formed(t@),
        forall|k: int| #![trigger toks@[k]] 0 <= k < toks@.len() ==> toks@[k] < t@.len(),
    ensures
        bindings_view(final(out)@) == bindings_view(old(out)@) + site_bindings(t@, ints(toks@)),
{
    let ghost base = bindings_view(out@);
    let ghost all = site_bindings(t@, ints(toks@));
    let mut k: usize = 0;
    assert(base + all.take(0) =~= base);
    while k < toks.len()
        invariant
            well_formed(t@),
            k <= toks@.len(),
            all == site_bindings(t@, ints(toks@)),
            forall|k: int| #![trigger toks@[k]] 0 <= k < toks@.len() ==> toks@[k] < t@.len(),
            bindings_view(out@) == base + all.take(k as int),
        decreases toks@.len() - k,
    {
        let x: usize = toks[k];
        let ghost before = bindings_view(out@);
        let b = Binding {
            name: t.token_text(x).to_owned(),
            name_range: t.range(x),
            detail: detail_for_binding(t, x),
        };
        assert(ints(toks@)[k as int] == x);
        assert(b@ == all[k as int]);
        out.push(b);
        assert(bindings_view(out@) =~= before.push(all[k as int]));
        assert(all.take(k + 1) =~= all.take(k as int).push(all[k as int]));
        assert(before.push(all[k as int]) =~= base + all.take(k + 1));
        k = k + 1;
    }
    assert(all.take(k as int) =~= all);
}

fn collect_param_bindings(t: &SyntaxTree, param: usize, out: &mut Vec<Binding>)
    requires
        well_formed(t@),
        param < t@.len(),
    ensures
        bindings_view(final(out)@) == bindings_view(old(out)@) + param_bindings(t@, param as int),
{
    match t.child(param, Class::Pat) {
        Some(p) => {
            let ty = render_ty(t, t.child(param, Class::Type));
            let toks = pattern_bindings(t, p);
            push_typed(t, &toks, &ty, out);
        },
        None => {
            assert(bindings_view(out@) =~= bindings_view(out@) + Seq::<BindingView>::empty());
        },
    }
}

fn collect_params(t: &SyntaxTree, n: usize, out: &mut Vec<Binding>)
    requires
        well_formed(t@),
        n < t@.len(),
    ensures
        bindings_view(final(out)@) == bindings_view(old(out)@) + params_bindings(
            t@,
            children(t@, n as int, Class::Kind(PARAM)),
            0,
        ),
{
    let kids = t.children(n, Class::Kind(PARAM));
    let ghost list = ints(kids@);
    let ghost whole = bindings_view(out@) + params_bindings(t@, list, 0);
    let mut k: usize = 0;
    while k < kids.len()
        invariant
            well_formed(t@),
            k <= kids@.len(),
            list == ints(kids@),
            forall|k: int| #![trigger kids@[k]] 0 <= k < kids@.len() ==> kids@[k] < t@.len(),
            bindings_view(out@) + params_bindings(t@, list, k as int) == whole,
        decreases kids@.len() - k,
    {
        let ghost before = bindings_view(out@);
        assert(list[k as int] == kids@[k as int]);
        collect_param_bindings(t, kids[k], out);
        assert(before + (param_bindings(t@, list[k as int]) + params_bindings(t@, list, k + 1))
            =~= bindings_view(out@) + params_bindings(t@, list, k + 1));
        k = k + 1;
    }
    assert(bindings_view(out@) + Seq::<BindingView>::empty() =~= bindings_view(out@));
}

fn collect_lambda_param_bindings(t: &SyntaxTree, n: usize, out: &mut Vec<Binding>)
    requires
        well_formed(t@),
        n < t@.len(),
    ensures
        bindings_view(final(out)@) == bindings_view(old(out)@) + lambda_param_bindings(
            t@,
            n as int,
        ),
{
    let kind: u16 = t.kind(n);
    if kind == IDENT_PAT || kind == TUPLE_PAT || kind == STRUCT_PAT {
        let toks = pattern_bindings(t, n);
        push_typed(t, &toks, "_", out);
    } else if kind == PARAM {
        let ty = render_ty(t, t.child(n, Class::Type));
        match t.child(n, Class::Pat) {
            Some(p) => {
                let toks = pattern_bindings(t, p);
                push_typed(t, &toks, &ty, out);
            },
            None => {
                let mut toks: Vec<usize> = Vec::new();
                push_name_token(t, n, &mut toks);
                assert(ints(toks@) =~= name_token(t@, n as int));
                push_typed(t, &toks, &ty, out);
            },
        }
    } else {
        assert(bindings_view(out@) =~= bindings_view(out@) + Seq::<BindingView>::empty());
    }
}

fn collect_generic_bindings(t: &SyntaxTree, n: usize, out: &mut Vec<Binding>)
    requires
        well_formed(t@),
        n < t@.len(),
    ensures
        bindings_view(final(out)@) == bindings_view(old(out)@) + generic_bindings_of(t@, n as int),
{
    let list = match t.child(n, Class::Kind(GENERIC_PARAM_LIST)) {
        Some(p) => p,
        None => {
            assert(bindings_view(out@) =~= bindings_view(out@) + Seq::<BindingView>::empty());
            return;
        },
    };
    let kids = t.children(list, Class::Kind(GENERIC_PARAM));
    let ghost all = ints(kids@);
    let ghost whole = bindings_view(out@) + generics_bindings(t@, all, 0);
    let mut k: usize = 0;
    while k < kids.len()
        invariant
            well_formed(t@),
            k <= kids@.len(),
            all == ints(kids@),
            forall|k: int| #![trigger kids@[k]] 0 <= k < kids@.len() ==> kids@[k] < t@.len(),
            bindings_view(out@) + generics_bindings(t@, all, k as int) == whole,
        decreases kids@.len() - k,
    {
        let ghost before = bindings_view(out@);
        let ghost rest = generics_bindings(t@, all, k + 1);
        let param: usize = kids[k];
        assert(all[k as int] == param);
        match t.child_token(param, IDENT) {
            Some(x) => {
                let b = Binding {
                    name: t.token_text(x).to_owned(),
                    name_range: t.range(x),
                    detail: render_generic_detail(t, param, x),
                };
                let ghost v = b@;
                out.push(b);
                assert(bindings_view(out@) =~= before.push(v));
                assert(before + (seq![v] + rest) =~= before.push(v) + rest);
            },
            None => {
                assert(before + (Seq::<BindingView>::empty() + rest) =~= before + rest);
            },
        }
        k = k + 1;
    }
    assert(bindings_view(out@) + Seq::<BindingView>::empty() =~= bindings_view(out@));
}

fn render_generic_detail(t: &SyntaxTree, param: usize, x: usize) -> (r: String)
    requires
        well_formed(t@),
        param < t@.len(),
        x < t@.len(),
    ensures
        r@ == generic_detail(t@, param as int, t@[x as int].text),
{
    if t.child_token(param, HASH).is_some() {
        cat2("generic #", t.token_text(x))
    } else {
        cat2("generic ", t.token_text(x))
    }
}

fn collect_block_consts(t: &SyntaxTree, n: usize, offset: u32) -> (r: Vec<Binding>)
    requires
        well_formed(t@),
        n < t@.len(),
    ensures
        bindings_view(r@) == consts_before(t@, children(t@, n as int, Class::Stmt), 0, offset),
{
    let stmts = t.children(n, Class::Stmt);
    let ghost list = ints(stmts@);
    let ghost whole = consts_before(t@, list, 0, offset);
    let mut out: Vec<Binding> = Vec::new();
    let mut k: usize = 0;
    assert(bindings_view(out@) + whole =~= whole);
    while k < stmts.len()
        invariant
            well_formed(t@),
            k <= stmts@.len(),
            list == ints(stmts@),
            forall|k: int| #![trigger stmts@[k]] 0 <= k < stmts@.len() ==> stmts@[k] < t@.len(),
            list == children(t@, n as int, Class::Stmt),
            whole == consts_before(t@, list, 0, offset),
            bindings_view(out@) + consts_before(t@, list, k as int, offset) == whole,
        decreases stmts@.len() - k,
    {
        let s: usize = stmts[k];
        assert(list[k as int] == s);
        let kind: u16 = t.kind(s);
        if kind == CONST_STMT || kind == MULTI_CONST_STMT {
            if t.range(s).end > offset {
                assert(bindings_view(out@) + Seq::<BindingView>::empty() =~= bindings_view(out@));
                return out;
            }
            let ghost before = bindings_view(out@);
            collect_patterns(t, s, &mut out);
            let ghost own = patterns_bindings(t@, children(t@, s as int, Class::Pat), 0);
            let ghost rest = consts_before(t@, list, k + 1, offset);
            assert(before + (own + rest) =~= (before + own) + rest);
        }
        k = k + 1;
    }
    assert(bindings_view(out@) + Seq::<BindingView>::empty() =~= bindings_view(out@));
    out
}

fn collect_patterns(t: &SyntaxTree, s: usize, out: &mut Vec<Binding>)
    requires
        well_formed(t@),
        s < t@.len(),
    ensures
        bindings_view(final(out)@) == bindings_view(old(out)@) + patterns_bindings(
            t@,
            children(t@, s as int, Class::Pat),
            0,
        ),
{
    let kids = t.children(s, Class::Pat);
    let ghost list = ints(kids@);
    let ghost whole = bindings_view(out@) + patterns_bindings(t@, list, 0);
    let mut k: usize = 0;
    while k < kids.len()
        invariant
            well_formed(t@),
            k <= kids@.len(),
            list == ints(kids@),
            forall|k: int| #![trigger kids@[k]] 0 <= k < kids@.len() ==> kids@[k] < t@.len(),
            bindings_view(out@) + patterns_bindings(t@, list, k as int) == whole,
        decreases kids@.len() - k,
    {
        let ghost before = bindings_view(out@);
        assert(list[k as int] == kids@[k as int]);
        let toks = pattern_bindings(t, kids[k]);
        push_sites(t, &toks, out);
        let ghost own = site_bindings(t@, pattern_tokens(t@, list[k as int]));
        let ghost rest = patterns_bindings(t@, list, k + 1);
        assert(before + (own + rest) =~= (before + own) + rest);
        k = k + 1;
    }
    assert(bindings_view(out@) + Seq::<BindingView>::empty() =~= bindings_view(out@));
}

fn append_reversed(out: &mut Vec<Binding>, more: Vec<Binding>)
    ensures
        bindings_view(final(out)@) == bindings_view(old(out)@) + bindings_view(more@).reverse(),
{
    let ghost base = bindings_view(out@);
    let ghost all = bindings_view(more@);
    let mut rest = more;
    assert(base + all.reverse().take(0) =~= base);
    while rest.len() > 0
        invariant
            rest@.len() <= all.len(),
            bindings_view(rest@) == all.take(rest@.len() as int),
            bindings_view(out@) == base + all.reverse().take(all.len() - rest@.len()),
        decreases rest@.len(),
    {
        let ghost n = rest@.len() as int;
        let ghost before = bindings_view(out@);
        let ghost old_rest = bindings_view(rest@);
        match rest.pop() {
            Some(b) => {
                assert(old_rest[n - 1] == b@);
                assert(all.take(n)[n - 1] == all[n - 1]);
                assert(bindings_view(rest@) =~= all.take(n - 1));
                out.push(b);
                assert(bindings_view(out@) =~= before.push(b@));
                assert(all.reverse()[all.len() - n] == all[n - 1]);
                assert(all.reverse().take(all.len() - n + 1) =~= all.reverse().take(
                    all.len() - n,
                ).push(b@));
                assert(before.push(b@) =~= base + all.reverse().take(all.len() - n + 1));
            },
            None => {},
        }
    }
    assert(all.reverse().take(all.len() as int) =~= all.reverse());
}

fn collect_scope_bindings(t: &SyntaxTree, n: usize, offset: u32, out: &mut Vec<Binding>)
    requires
        well_formed(t@),
        n < t@.len(),
    ensures
        bindings_view(final(out)@) == bindings_view(old(out)@) + scope_bindings(
            t@,
            n as int,
            offset,
        ),
{
    let ghost base = bindings_view(out@);
    let kind: u16 = t.kind(n);
    if kind == BLOCK {
        let consts = collect_block_consts(t, n, offset);
        append_reversed(out, consts);
    } else if kind == FOR_STMT {
        if let Some(b) = t.child(n, Class::Kind(BLOCK)) {
            if let Some(x) = t.child_token(n, IDENT) {
                let r = t.range(b);
                if r.start <= offset && offset < r.end {
                    let b = Binding {
                        name: t.token_text(x).to_owned(),
                        name_range: t.range(x),
                        detail: cat2("for ", t.token_text(x)),
                    };
                    let ghost v = b@;
                    out.push(b);
                    assert(bindings_view(out@) =~= base + seq![v]);
                    return;
                }
            }
        }
        assert(base + Seq::<BindingView>::empty() =~= base);
    } else if kind == LAMBDA_EXPR {
        if let Some(p) = t.child(n, Class::Kind(PARAM_LIST)) {
            if offset >= t.range(p).end {
                collect_lambda_params(t, p, out);
                return;
            }
        }
        assert(base + Seq::<BindingView>::empty() =~= base);
    } else if kind == CIRCUIT_DEF {
        collect_params(t, n, out);
        collect_generic_bindings(t, n, out);
        assert(bindings_view(out@) =~= base + (params_bindings(
            t@,
            children(t@, n as int, Class::Kind(PARAM)),
            0,
        ) + generic_bindings_of(t@, n as int)));
    } else if kind == CONSTRUCTOR_DEF {
        collect_params(t, n, out);
    } else if kind == STRUCT_DEF || kind == TYPE_DECL || kind == MODULE_DEF {
        collect_generic_bindings(t, n, out);
    } else {
        assert(base + Seq::<BindingView>::empty() =~= base);
    }
}

fn collect_lambda_params(t: &SyntaxTree, p: usize, out: &mut Vec<Binding>)
    requires
        well_formed(t@),
        p < t@.len(),
    ensures
        bindings_view(final(out)@) == bindings_view(old(out)@) + lambda_params_bindings(
            t@,
            children(t@, p as int, Class::Any),
            0,
        ),
{
    let kids = t.children(p, Class::Any);
    let ghost list = ints(kids@);
    let ghost whole = bindings_view(out@) + lambda_params_bindings(t@, list, 0);
    let mut k: usize = 0;
    while k < kids.len()
        invariant
            well_formed(t@),
            k <= kids@.len(),
            list == ints(kids@),
            forall|k: int| #![trigger kids@[k]] 0 <= k < kids@.len() ==> kids@[k] < t@.len(),
            bindings_view(out@) + lambda_params_bindings(t@, list, k as int) == whole,
        decreases kids@.len() - k,
    {
        let ghost before = bindings_view(out@);
        assert(list[k as int] == kids@[k as int]);
        collect_lambda_param_bindings(t, kids[k], out);
        let ghost own = lambda_param_bindings(t@, list[k as int]);
        let ghost rest = lambda_params_bindings(t@, list, k + 1);
        assert(before + (own + rest) =~= (before + own) + rest);
        k = k + 1;
    }
    assert(bindings_view(out@) + Seq::<BindingView>::empty() =~= bindings_view(out@));
}

/// The token on which a scope walk for `offset` starts.
pub fn anchor_token(t: &SyntaxTree, offset: u32) -> (r: Option<usize>)
    ensures
        oint(r) == anchor(t@, offset),
        r matches Some(x) ==> x < t@.len(),
{
    let n: usize = t.len();
    let end: u32 = t.end();
    let at: u32 = if offset <= end {
        offset
    } else {
        end
    };
    match t.touching(0, at) {
        Some(l) => match t.touching(l + 1, at) {
            Some(r) => {
                if t.kind(r) == IDENT {
                    Some(r)
                } else {
                    Some(l)
                }
            },
            None => Some(l),
        },
        None => None,
    }
}

/// Every local binding visible at `offset`, nearest and latest first: inner
/// scopes come before outer ones, and in a block later constants before
/// earlier ones.
pub fn scope_bindings_at(t: &SyntaxTree, offset: u32) -> (r: Vec<Binding>)
    requires
        well_formed(t@),
    ensures
        bindings_view(r@) == visible_bindings(t@, offset),
{
    let mut out: Vec<Binding> = Vec::new();
    assert(bindings_view(out@) =~= Seq::<BindingView>::empty());
    let start = match anchor_token(t, offset) {
        Some(x) => t.parent(x),
        None => {
            return out;
        },
    };
    let ghost whole = visible_bindings(t@, offset);
    let mut cur: Option<usize> = start;
    proof {
        if start is Some {
            assert(bindings_view(out@) + bindings_up(t@, start->0 as int, offset) =~= whole);
        } else {
            assert(whole =~= Seq::<BindingView>::empty());
        }
    }
    loop
        invariant
            well_formed(t@),
            whole == visible_bindings(t@, offset),
            cur matches Some(n) ==> n < t@.len(),
            cur matches Some(n) ==> bindings_view(out@) + bindings_up(t@, n as int, offset)
                == whole,
            cur is None ==> bindings_view(out@) == whole,
        decreases (match cur {
            Some(n) => n + 1,
            None => 0int,
        }),
    {
        match cur {
            Some(n) => {
                let ghost before = bindings_view(out@);
                collect_scope_bindings(t, n, offset, &mut out);
                let ghost own = scope_bindings(t@, n as int, offset);
                cur = t.parent(n);
                assert(t@[n as int].parent == oint(cur));
                proof {
                    if cur is Some {
                        let up = bindings_up(t@, cur->0 as int, offset);
                        assert(before + (own + up) =~= (before + own) + up);
                    } else {
                        assert(before + (own + Seq::<BindingView>::empty()) =~= before + own);
                    }
                }
            },
            None => {
                return out;
            },
        }
    }
}


// ---------------------------------------------------------------------------
// Looking names up
// ---------------------------------------------------------------------------

/// The identifier token at or beside `offset`; between two tokens the right
/// one is preferred.
pub open spec fn ident_at(t: Tree, offset: u32) -> Option<int> {
    let at = clamped(t, offset);
    match touching_from(t, 0, at) {
        Some(l) => match touching_from(t, l + 1, at) {
            Some(r) => if t[r].kind == IDENT {
                Some(r)
            } else if t[l].kind == IDENT {
                Some(l)
            } else {
                None
            },
            None => if t[l].kind == IDENT {
                Some(l)
            } else {
                None
            },
        },
        None => None,
    }
}

/// Finds the identifier token at or beside `offset`.
pub fn ident_at_offset(t: &SyntaxTree, offset: u32) -> (r: Option<usize>)
    ensures
        oint(r) == ident_at(t@, offset),
        r matches Some(x) ==> x < t@.len() && t@[x as int].token,
{
    let n: usize = t.len();
    let end: u32 = t.end();
    let at: u32 = if offset <= end {
        offset
    } else {
        end
    };
    match t.touching(0, at) {
        Some(l) => match t.touching(l + 1, at) {
            Some(r) => {
                if t.kind(r) == IDENT {
                    Some(r)
                } else if t.kind(l) == IDENT {
                    Some(l)
                } else {
                    None
                }
            },
            None => {
                if t.kind(l) == IDENT {
                    Some(l)
                } else {
                    None
                }
            },
        },
        None => None,
    }
}

/// The first binding called `name` from position `k` on, as a definition.
pub open spec fn local_from(
    file: FileId,
    bindings: Seq<BindingView>,
    k: int,
    name: Seq<char>,
) -> Option<DefView>
    decreases bindings.len() - k,
{
    if 0 <= k < bindings.len() {
        if bindings[k].name == name {
            Some(
                DefView::Local {
                    file,
                    name,
                    name_range: bindings[k].name_range,
                    detail: bindings[k].detail,
                },
            )
        } else {
            local_from(file, bindings, k + 1, name)
        }
    } else {
        None
    }
}

/// What `name` stands for among the local bindings visible at `offset`.
pub open spec fn local_of(file: FileId, t: Tree, offset: u32, name: Seq<char>) -> Option<DefView> {
    local_from(file, visible_bindings(t, offset), 0, name)
}

/// Resolves `name` among the local bindings visible at `offset`; the nearest
/// wins.
pub fn resolve_local_name(file: FileId, t: &SyntaxTree, offset: u32, name: &str) -> (r: Option<
    Definition,
>)
    requires
        well_formed(t@),
    ensures
        odef(r) == local_of(file, t@, offset, name@),
{
    let bindings = scope_bindings_at(t, offset);
    let ghost all = bindings_view(bindings@);
    let mut k: usize = 0;
    while k < bindings.len()
        invariant
            k <= bindings@.len(),
            all == bindings_view(bindings@),
            all == visible_bindings(t@, offset),
            local_of(file, t@, offset, name@) == local_from(file, all, k as int, name@),
        decreases bindings@.len() - k,
    {
        assert(all[k as int] == bindings@[k as int]@);
        if same_text(&bindings[k].name, name) {
            return Some(
                Definition::Local {
                    file,
                    name: bindings[k].name.clone(),
                    name_range: bindings[k].name_range,
                    detail: bindings[k].detail.clone(),
                },
            );
        }
        k = k + 1;
    }
    None
}

/// The definition of a generic parameter at its own name token.
pub open spec fn generic_def(file: FileId, t: Tree, param: int, x: int) -> DefView {
    DefView::Local {
        file,
        name: t[x].text,
        name_range: range_of(t, x),
        detail: generic_detail(t, param, t[x].text),
    }
}

/// The definition of a generic parameter at its own name token.
pub fn generic_definition(file: FileId, t: &SyntaxTree, param: usize, x: usize) -> (r: Definition)
    requires
        well_formed(t@),
        param < t@.len(),
        x < t@.len(),
    ensures
        r@ == generic_def(file, t@, param as int, x as int),
{
    Definition::Local {
        file,
        name: t.token_text(x).to_owned(),
        name_range: t.range(x),
        detail: render_generic_detail(t, param, x),
    }
}

/// The definition of a pattern binding at its own name token.
pub open spec fn pattern_site_def(file: FileId, t: Tree, x: int) -> DefView {
    DefView::Local {
        file,
        name: t[x].text,
        name_range: range_of(t, x),
        detail: site_detail(t, x),
    }
}

/// The definition of a pattern binding at its own name token.
pub fn local_from_pattern_site(file: FileId, t: &SyntaxTree, x: usize) -> (r: Definition)
    requires
        well_formed(t@),
        x < t@.len(),
    ensures
        r@ == pattern_site_def(file, t@, x as int),
{
    Definition::Local {
        file,
        name: t.token_text(x).to_owned(),
        name_range: t.range(x),
        detail: detail_for_binding(t, x),
    }
}

/// The only top-level symbol with its index, where it is a module.
pub open spec fn sole_module(syms: Seq<SymbolView>) -> Option<(u32, SymbolView)> {
    let tops = members_from(syms, 0, None);
    if tops.len() == 1 && tops[0].1.kind == SymbolKind::Module {
        Some(tops[0])
    } else {
        None
    }
}

/// The only top-level symbol with its index, where it is a module.
pub fn single_top_level_module<'a>(tree: &'a ItemTree) -> (r: Option<(u32, &'a Symbol)>)
    ensures
        match r {
            Some(m) => sole_module(tree@) == Some((m.0, m.1@)),
            None => sole_module(tree@) is None,
        },
{
    let tops = tree.top_level();
    proof {
        let v = members_from(tree@, 0, None);
        assert(v.len() == tops@.len());
        if v.len() > 0 {
            assert(v[0] == (tops@[0].0, tops@[0].1@));
        }
    }
    if tops.len() != 1 {
        return None;
    }
    let first = tops[0];
    if first.1.kind == SymbolKind::Module {
        Some(first)
    } else {
        None
    }
}

/// The last of the first `n` symbols that is a module around `offset`.
pub open spec fn module_around(syms: Seq<SymbolView>, n: int, offset: u32) -> Option<u32>
    decreases n,
{
    if 0 < n <= syms.len() {
        if syms[n - 1].kind == SymbolKind::Module && covers(syms[n - 1].full_range, offset) {
            Some(index32(n - 1))
        } else {
            module_around(syms, n - 1, offset)
        }
    } else {
        None
    }
}

/// The index of the innermost module around `offset`.
pub fn enclosing_module(tree: &ItemTree, offset: u32) -> (r: Option<u32>)
    ensures
        r == module_around(tree@, tree@.len() as int, offset),
{
    let mut n: usize = tree.symbols.len();
    while n > 0
        invariant
            n <= tree@.len(),
            module_around(tree@, tree@.len() as int, offset) == module_around(
                tree@,
                n as int,
                offset,
            ),
        decreases n,
    {
        let s = &tree.symbols[n - 1];
        assert(tree@[n - 1] == s@);
        if s.kind == SymbolKind::Module && s.full_range.start <= offset && offset
            < s.full_range.end {
            return Some(clamp_index(n - 1));
        }
        n = n - 1;
    }
    None
}

/// The first identifier among the siblings from `i` up to `end` that comes
/// after an `as` keyword.
pub open spec fn alias_from(t: Tree, i: int, end: int, saw_as: bool) -> Option<int>
    decreases t.len() - i,
{
    if 0 <= i < end && i < t.len() && i < t[i].next <= t.len() {
        if t[i].token && t[i].kind == AS_KW {
            alias_from(t, t[i].next, end, true)
        } else if t[i].token && saw_as && t[i].kind == IDENT {
            Some(i)
        } else {
            alias_from(t, t[i].next, end, saw_as)
        }
    } else {
        None
    }
}

/// The text of the alias of import specifier `spec_node`.
pub open spec fn alias_of(t: Tree, spec_node: int) -> Option<Seq<char>> {
    match alias_from(t, spec_node + 1, t[spec_node].next, false) {
        Some(x) => Some(t[x].text),
        None => None,
    }
}

/// The alias of an import specifier: the identifier behind `as`.
pub fn import_specifier_alias(t: &SyntaxTree, spec_node: usize) -> (r: Option<String>)
    requires
        well_formed(t@),
        spec_node < t@.len(),
    ensures
        otext(r) == alias_of(t@, spec_node as int),
{
    let end: usize = t.next(spec_node);
    let mut saw_as: bool = false;
    let mut i: usize = spec_node + 1;
    while i < end
        invariant
            well_formed(t@),
            spec_node < t@.len(),
            end == t@[spec_node as int].next,
            end <= t@.len(),
            i <= t@.len(),
            alias_from(t@, spec_node + 1, end as int, false) == alias_from(
                t@,
                i as int,
                end as int,
                saw_as,
            ),
        decreases t@.len() - i,
    {
        assert(t@[i as int].next <= t@.len());
        if t.is_token(i) {
            let kind: u16 = t.kind(i);
            if kind == AS_KW {
                saw_as = true;
            } else if saw_as && kind == IDENT {
                return Some(t.token_text(i).to_owned());
            }
        }
        i = t.next(i);
    }
    None
}

} // verus!
