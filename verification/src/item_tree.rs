//! The declarations of one file, each with its name, ranges, signature,
//! documentation and container.

use vstd::prelude::*;
use vstd::string::*;

use crate::kinds::{
    is_trivia, trivia, Class, BLOCK, CIRCUIT_DECL, CIRCUIT_DEF, CONSTRUCTOR_DEF, CONTRACT_CIRCUIT,
    CONTRACT_DECL, ENUM_DEF, ENUM_VARIANT, EXPORT_KW, GENERIC_PARAM, GENERIC_PARAM_LIST, IDENT,
    LEDGER_DECL, LINE_COMMENT, L_BRACE, MODULE_DEF, SOURCE_FILE, STRUCT_DEF, STRUCT_FIELD,
    TYPE_DECL, WHITESPACE, WITNESS_DECL,
};
use crate::syntax::{
    child, child_token, children, ints, range_of, text_of, well_formed, SyntaxTree, Tree,
};
use crate::text::{
    cat3, chars_of, collapse_ws, collapsed, drop_char, join, join_texts, otext, skip_char, texts,
    trim, trim_end, trim_end_char, trim_start_char, trimmed, trimmed_end, TextRange,
};

verus! {

/// What a symbol declares.
#[derive(Clone, Copy, Debug, PartialEq, Eq, Structural)]
pub enum SymbolKind {
    Circuit,
    CircuitSig,
    Witness,
    Struct,
    StructField,
    Enum,
    EnumVariant,
    Module,
    TypeAlias,
    Ledger,
    Contract,
    ContractCircuit,
    Constructor,
}

/// One declaration.
#[derive(Debug, PartialEq, Eq)]
pub struct Symbol {
    pub name: String,
    pub kind: SymbolKind,
    /// The range of the name; the full range for an item without one.
    pub name_range: TextRange,
    /// The range of the whole declaration.
    pub full_range: TextRange,
    /// A one-line signature.
    pub signature: String,
    /// The leading `//` comment lines.
    pub doc: Option<String>,
    pub exported: bool,
    /// The index of the containing symbol.
    pub parent: Option<u32>,
    /// How many generic parameters the declaration takes.
    pub generic_param_count: u32,
}

/// The value of a [`Symbol`].
pub struct SymbolView {
    pub name: Seq<char>,
    pub kind: SymbolKind,
    pub name_range: TextRange,
    pub full_range: TextRange,
    pub signature: Seq<char>,
    pub doc: Option<Seq<char>>,
    pub exported: bool,
    pub parent: Option<u32>,
    pub generic_param_count: u32,
}

impl View for Symbol {
    type V = SymbolView;

    open spec fn view(&self) -> SymbolView {
        SymbolView {
            name: self.name@,
            kind: self.kind,
            name_range: self.name_range,
            full_range: self.full_range,
            signature: self.signature@,
            doc: otext(self.doc),
            exported: self.exported,
            parent: self.parent,
            generic_param_count: self.generic_param_count,
        }
    }
}

impl Clone for Symbol {
    fn clone(&self) -> (r: Self)
        ensures
            r@ == self@,
    {
        let doc = match &self.doc {
            Some(d) => Some(d.clone()),
            None => None,
        };
        Symbol {
            name: self.name.clone(),
            kind: self.kind,
            name_range: self.name_range,
            full_range: self.full_range,
            signature: self.signature.clone(),
            doc,
            exported: self.exported,
            parent: self.parent,
            generic_param_count: self.generic_param_count,
        }
    }
}

/// The symbols of one file, containers before their members.
#[derive(Debug, PartialEq, Eq)]
pub struct ItemTree {
    pub symbols: Vec<Symbol>,
}

impl View for ItemTree {
    type V = Seq<SymbolView>;

    open spec fn view(&self) -> Seq<SymbolView> {
        self.symbols@.map_values(|s: Symbol| s@)
    }
}

/// An index as it is stored: indices beyond 32 bits are clamped.
pub open spec fn index32(n: int) -> u32 {
    if 0 <= n <= u32::MAX {
        n as u32
    } else {
        u32::MAX
    }
}

/// An index as it is stored.
pub fn clamp_index(n: usize) -> (r: u32)
    ensures
        r == index32(n as int),
{
    if n <= u32::MAX as usize {
        n as u32
    } else {
        u32::MAX
    }
}

// ---------------------------------------------------------------------------
// Signatures and documentation
// ---------------------------------------------------------------------------

/// The offset at which the body of declaration `n` starts: its block, or its
/// first brace.
pub open spec fn body_start(t: Tree, n: int) -> Option<u32> {
    match child(t, n, Class::Kind(BLOCK)) {
        Some(b) => Some(t[b].start),
        None => match child_token(t, n, L_BRACE) {
            Some(b) => Some(t[b].start),
            None => None,
        },
    }
}

/// The tokens from index `i` up to `end` that start before `stop`, appended to
/// `out`; trivia become single spaces.
pub open spec fn signature_from(
    t: Tree,
    i: int,
    end: int,
    stop: Option<u32>,
    out: Seq<char>,
) -> Seq<char>
    decreases end - i,
{
    if 0 <= i < end && i < t.len() {
        if !t[i].token {
            signature_from(t, i + 1, end, stop, out)
        } else if stop is Some && t[i].start >= stop->0 {
            out
        } else if trivia(t[i].kind) {
            if out.len() > 0 && out.last() != ' ' {
                signature_from(t, i + 1, end, stop, out.push(' '))
            } else {
                signature_from(t, i + 1, end, stop, out)
            }
        } else {
            signature_from(t, i + 1, end, stop, out + t[i].text)
        }
    } else {
        out
    }
}

/// `s` without white space at the ends and without semicolons at its end,
/// runs of white space collapsed.
pub open spec fn tidied(s: Seq<char>) -> Seq<char> {
    let a = trimmed(s);
    collapsed(trimmed_end(a.take(drop_char(a, ';', a.len() as int))))
}

/// The one-line signature of declaration `n`: its tokens before its body.
pub open spec fn signature_of(t: Tree, n: int) -> Seq<char> {
    tidied(signature_from(t, n, t[n].next, body_start(t, n), Seq::empty()))
}

/// The text of a line comment without its slashes.
pub open spec fn comment_text(s: Seq<char>) -> Seq<char> {
    trimmed(s.skip(skip_char(s, '/', 0)))
}

/// The line comments among the siblings from `i` up to `end` that come before
/// anything but white space, behind `lines`.
pub open spec fn docs_from(t: Tree, i: int, end: int, lines: Seq<Seq<char>>) -> Seq<Seq<char>>
    decreases t.len() - i,
{
    if 0 <= i < end && i < t.len() && i < t[i].next <= t.len() && t[i].token {
        if t[i].kind == WHITESPACE {
            docs_from(t, t[i].next, end, lines)
        } else if t[i].kind == LINE_COMMENT {
            docs_from(t, t[i].next, end, lines.push(comment_text(t[i].text)))
        } else {
            lines
        }
    } else {
        lines
    }
}

/// The leading line comments of declaration `n`.
pub open spec fn docs_of(t: Tree, n: int) -> Option<Seq<char>> {
    let lines = docs_from(t, n + 1, t[n].next, Seq::empty());
    if lines.len() == 0 {
        None
    } else {
        Some(join(lines, seq!['\n']))
    }
}

/// The number of generic parameters that declaration `n` lists.
pub open spec fn generic_count_of(t: Tree, n: int) -> u32 {
    match child(t, n, Class::Kind(GENERIC_PARAM_LIST)) {
        Some(p) => index32(children(t, p, Class::Kind(GENERIC_PARAM)).len() as int),
        None => 0,
    }
}

fn ends_with_space(s: &str) -> (r: bool)
    ensures
        r == (s@.len() > 0 && s@.last() == ' '),
{
    let v = chars_of(s);
    v.len() > 0 && v[v.len() - 1] == ' '
}

fn find_body_start(t: &SyntaxTree, n: usize) -> (r: Option<u32>)
    requires
        well_formed(t@),
        n < t@.len(),
    ensures
        r == body_start(t@, n as int),
{
    match t.child(n, Class::Kind(BLOCK)) {
        Some(b) => Some(t.range(b).start),
        None => match t.child_token(n, L_BRACE) {
            Some(b) => Some(t.range(b).start),
            None => None,
        },
    }
}

/// Renders the one-line signature of declaration `n`.
pub fn render_signature(t: &SyntaxTree, n: usize) -> (r: String)
    requires
        well_formed(t@),
        n < t@.len(),
    ensures
        r@ == signature_of(t@, n as int),
{
    let stop: Option<u32> = find_body_start(t, n);
    let end: usize = t.next(n);
    let mut out = String::new();
    let mut i: usize = n;
    let mut done: bool = false;
    let ghost whole = signature_from(t@, n as int, end as int, stop, Seq::empty());
    assert(out@ =~= Seq::<char>::empty());
    while i < end && !done
        invariant
            i <= end <= t@.len(),
            done ==> out@ == whole,
            !done ==> signature_from(t@, i as int, end as int, stop, out@) == whole,
        decreases end - i,
    {
        if t.is_token(i) {
            let past: bool = match stop {
                Some(s) => t.range(i).start >= s,
                None => false,
            };
            if past {
                done = true;
                i = end;
            } else if is_trivia(t.kind(i)) {
                if !out.as_str().is_empty() && !ends_with_space(&out) {
                    out.push(' ');
                }
                i = i + 1;
            } else {
                out.append(t.token_text(i));
                i = i + 1;
            }
        } else {
            i = i + 1;
        }
    }
    let a = trim(&out);
    let b = trim_end_char(&a, ';');
    let c = trim_end(&b);
    collapse_ws(&c)
}

/// The leading line comments of declaration `n`, without their slashes.
pub fn leading_docs(t: &SyntaxTree, n: usize) -> (r: Option<String>)
    requires
        well_formed(t@),
        n < t@.len(),
    ensures
        otext(r) == docs_of(t@, n as int),
{
    let end: usize = t.next(n);
    let mut lines: Vec<String> = Vec::new();
    let mut i: usize = n + 1;
    let ghost whole = docs_from(t@, n + 1, end as int, Seq::empty());
    assert(texts(lines@) =~= Seq::<Seq<char>>::empty());
    while i < end && t.is_token(i) && (t.kind(i) == WHITESPACE || t.kind(i) == LINE_COMMENT)
        invariant
            well_formed(t@),
            i <= t@.len(),
            end <= t@.len(),
            docs_from(t@, i as int, end as int, texts(lines@)) == whole,
        decreases t@.len() - i,
    {
        assert(t@[i as int].next <= t@.len());
        if t.kind(i) == LINE_COMMENT {
            let ghost before = texts(lines@);
            let bare = trim_start_char(t.token_text(i), '/');
            let line = trim(&bare);
            lines.push(line);
            assert(texts(lines@) =~= before.push(comment_text(t@[i as int].text)));
        }
        i = t.next(i);
    }
    assert(texts(lines@) == whole);
    if lines.len() == 0 {
        None
    } else {
        proof {
            reveal_strlit("\n");
            assert("\n"@ =~= seq!['\n']);
        }
        Some(join_texts(&lines, "\n"))
    }
}

fn generic_count(t: &SyntaxTree, n: usize) -> (r: u32)
    requires
        well_formed(t@),
        n < t@.len(),
    ensures
        r == generic_count_of(t@, n as int),
{
    match t.child(n, Class::Kind(GENERIC_PARAM_LIST)) {
        Some(p) => {
            let v = t.children(p, Class::Kind(GENERIC_PARAM));
            assert(ints(v@).len() == v@.len());
            clamp_index(v.len())
        },
        None => 0,
    }
}


// ---------------------------------------------------------------------------
// Extraction
// ---------------------------------------------------------------------------

/// The symbol kind of an item that is a plain named declaration or a
/// container.
pub open spec fn item_symbol_kind(kind: u16) -> Option<SymbolKind> {
    if kind == CIRCUIT_DEF {
        Some(SymbolKind::Circuit)
    } else if kind == CIRCUIT_DECL {
        Some(SymbolKind::CircuitSig)
    } else if kind == WITNESS_DECL {
        Some(SymbolKind::Witness)
    } else if kind == LEDGER_DECL {
        Some(SymbolKind::Ledger)
    } else if kind == TYPE_DECL {
        Some(SymbolKind::TypeAlias)
    } else if kind == STRUCT_DEF {
        Some(SymbolKind::Struct)
    } else if kind == ENUM_DEF {
        Some(SymbolKind::Enum)
    } else if kind == CONTRACT_DECL {
        Some(SymbolKind::Contract)
    } else if kind == MODULE_DEF {
        Some(SymbolKind::Module)
    } else {
        None
    }
}

/// Whether items of `kind` count their generic parameters.
pub open spec fn counts_generics(kind: u16) -> bool {
    kind == CIRCUIT_DEF || kind == CIRCUIT_DECL || kind == WITNESS_DECL || kind == TYPE_DECL || kind
        == STRUCT_DEF
}

/// Whether declaration `n` carries the `export` keyword.
pub open spec fn is_exported(t: Tree, n: int) -> bool {
    child_token(t, n, EXPORT_KW) is Some
}

/// The symbol of a named item; without a name its name is empty and stands
/// for the whole range.
pub open spec fn named_symbol(t: Tree, n: int, kind: SymbolKind, parent: Option<u32>) -> SymbolView {
    let name = child_token(t, n, IDENT);
    SymbolView {
        name: match name {
            Some(x) => t[x].text,
            None => Seq::empty(),
        },
        kind,
        name_range: match name {
            Some(x) => range_of(t, x),
            None => range_of(t, n),
        },
        full_range: range_of(t, n),
        signature: signature_of(t, n),
        doc: docs_of(t, n),
        exported: is_exported(t, n),
        parent,
        generic_param_count: if counts_generics(t[n].kind) {
            generic_count_of(t, n)
        } else {
            0
        },
    }
}

/// The symbol of a constructor.
pub open spec fn constructor_symbol(t: Tree, n: int, parent: Option<u32>) -> SymbolView {
    SymbolView {
        name: "constructor"@,
        kind: SymbolKind::Constructor,
        name_range: range_of(t, n),
        full_range: range_of(t, n),
        signature: signature_of(t, n),
        doc: docs_of(t, n),
        exported: false,
        parent,
        generic_param_count: 0,
    }
}

/// The kind of the members that a container of `kind` lists.
pub open spec fn member_kind(kind: u16) -> Option<u16> {
    if kind == STRUCT_DEF {
        Some(STRUCT_FIELD)
    } else if kind == ENUM_DEF {
        Some(ENUM_VARIANT)
    } else if kind == CONTRACT_DECL {
        Some(CONTRACT_CIRCUIT)
    } else {
        None
    }
}

/// The signature of a struct field: its name and its type.
pub open spec fn field_signature(t: Tree, m: int, name: Seq<char>) -> Seq<char> {
    match child(t, m, Class::Type) {
        Some(ty) => name + ": "@ + collapsed(text_of(t, ty)),
        None => name,
    }
}

/// The symbol of member `m`, whose name is token `x`.
pub open spec fn member_symbol(t: Tree, m: int, x: int, exported: bool, parent: u32) -> SymbolView {
    let kind = t[m].kind;
    SymbolView {
        name: t[x].text,
        kind: if kind == STRUCT_FIELD {
            SymbolKind::StructField
        } else if kind == ENUM_VARIANT {
            SymbolKind::EnumVariant
        } else {
            SymbolKind::ContractCircuit
        },
        name_range: range_of(t, x),
        full_range: range_of(t, m),
        signature: if kind == STRUCT_FIELD {
            field_signature(t, m, t[x].text)
        } else if kind == ENUM_VARIANT {
            t[x].text
        } else {
            signature_of(t, m)
        },
        doc: if kind == ENUM_VARIANT {
            None
        } else {
            docs_of(t, m)
        },
        exported,
        parent: Some(parent),
        generic_param_count: 0,
    }
}

/// `syms` with the named ones of `kids` from position `k` on added.
pub open spec fn with_members(
    t: Tree,
    syms: Seq<SymbolView>,
    kids: Seq<int>,
    k: int,
    exported: bool,
    parent: u32,
) -> Seq<SymbolView>
    decreases kids.len() - k,
{
    if 0 <= k < kids.len() {
        match child_token(t, kids[k], IDENT) {
            Some(x) => with_members(
                t,
                syms.push(member_symbol(t, kids[k], x, exported, parent)),
                kids,
                k + 1,
                exported,
                parent,
            ),
            None => with_members(t, syms, kids, k + 1, exported, parent),
        }
    } else {
        syms
    }
}

/// `syms` with item `n`, and then what it contains, added.
pub open spec fn with_item(t: Tree, syms: Seq<SymbolView>, n: int, parent: Option<u32>) -> Seq<
    SymbolView,
>
    decreases t.len() - n, 0int, 0int,
{
    let kind = t[n].kind;
    if kind == CONSTRUCTOR_DEF {
        syms.push(constructor_symbol(t, n, parent))
    } else {
        match item_symbol_kind(kind) {
            Some(k) => {
                let own = syms.push(named_symbol(t, n, k, parent));
                let index = index32(syms.len() as int);
                match member_kind(kind) {
                    Some(m) => with_members(
                        t,
                        own,
                        children(t, n, Class::Kind(m)),
                        0,
                        is_exported(t, n),
                        index,
                    ),
                    None => if kind == MODULE_DEF && 0 <= n < t.len() {
                        with_items(t, own, children(t, n, Class::Item), 0, Some(index), n)
                    } else {
                        own
                    },
                }
            },
            None => syms,
        }
    }
}

/// `syms` with each item of `kids` from position `k` on added. All of them
/// come after `after`.
pub open spec fn with_items(
    t: Tree,
    syms: Seq<SymbolView>,
    kids: Seq<int>,
    k: int,
    parent: Option<u32>,
    after: int,
) -> Seq<SymbolView>
    decreases t.len() - after - 1, 1int, kids.len() - k,
{
    if 0 <= k < kids.len() && after < kids[k] < t.len() {
        with_items(t, with_item(t, syms, kids[k], parent), kids, k + 1, parent, after)
    } else {
        syms
    }
}

/// The symbols of a file.
pub open spec fn symbols_of(t: Tree) -> Seq<SymbolView> {
    if t.len() > 0 && !t[0].token && t[0].kind == SOURCE_FILE {
        with_items(t, Seq::empty(), children(t, 0, Class::Item), 0, None, 0)
    } else {
        Seq::empty()
    }
}

/// The symbols from index `i` on whose container is `parent`, each with its
/// index.
pub open spec fn members_from(syms: Seq<SymbolView>, i: int, parent: Option<u32>) -> Seq<
    (u32, SymbolView),
>
    decreases syms.len() - i,
{
    if 0 <= i < syms.len() {
        if syms[i].parent == parent {
            seq![(index32(i), syms[i])] + members_from(syms, i + 1, parent)
        } else {
            members_from(syms, i + 1, parent)
        }
    } else {
        Seq::empty()
    }
}

/// A list of indexed symbols as values.
pub open spec fn indexed_view(s: Seq<(u32, &Symbol)>) -> Seq<(u32, SymbolView)> {
    s.map_values(|p: (u32, &Symbol)| (p.0, p.1@))
}

impl ItemTree {
    /// Extracts the symbols of a parsed file.
    pub fn extract(t: &SyntaxTree) -> (r: ItemTree)
        requires
            well_formed(t@),
        ensures
            r@ == symbols_of(t@),
    {
        let mut tree = ItemTree { symbols: Vec::new() };
        assert(tree@ =~= Seq::<SymbolView>::empty());
        if t.len() == 0 || t.is_token(0) || t.kind(0) != SOURCE_FILE {
            return tree;
        }
        let kids = t.children(0, Class::Item);
        tree.push_items(t, &kids, None, 0);
        tree
    }

    fn push(&mut self, symbol: Symbol) -> (r: u32)
        ensures
            final(self)@ == old(self)@.push(symbol@),
            r == index32(old(self)@.len() as int),
    {
        let n: usize = self.symbols.len();
        let ghost before = self@;
        self.symbols.push(symbol);
        assert(self@ =~= before.push(symbol@));
        clamp_index(n)
    }

    fn push_items(
        &mut self,
        t: &SyntaxTree,
        kids: &Vec<usize>,
        parent: Option<u32>,
        after: usize,
    )
        requires
            well_formed(t@),
            after < t@.len(),
            forall|k: int| #![trigger kids@[k]] 0 <= k < kids@.len() ==> after < kids@[k] < t@.len(),
        ensures
            final(self)@ == with_items(
                t@,
                old(self)@,
                ints(kids@),
                0,
                parent,
                after as int,
            ),
        decreases t@.len() - after - 1, 1int,
    {
        let ghost whole = with_items(t@, self@, ints(kids@), 0, parent, after as int);
        let mut k: usize = 0;
        while k < kids.len()
            invariant
                well_formed(t@),
                after < t@.len(),
                k <= kids@.len(),
                forall|k: int|
                    #![trigger kids@[k]]
                    0 <= k < kids@.len() ==> after < kids@[k] < t@.len(),
                with_items(t@, self@, ints(kids@), k as int, parent, after as int) == whole,
            decreases kids@.len() - k,
        {
            assert(ints(kids@)[k as int] == kids@[k as int]);
            self.push_item(t, kids[k], parent);
            k = k + 1;
        }
    }

    fn push_item(&mut self, t: &SyntaxTree, n: usize, parent: Option<u32>)
        requires
            well_formed(t@),
            n < t@.len(),
        ensures
            final(self)@ == with_item(t@, old(self)@, n as int, parent),
        decreases t@.len() - n, 0int,
    {
        let kind: u16 = t.kind(n);
        if kind == CONSTRUCTOR_DEF {
            self.push(
                Symbol {
                    name: "constructor".to_owned(),
                    kind: SymbolKind::Constructor,
                    name_range: t.range(n),
                    full_range: t.range(n),
                    signature: render_signature(t, n),
                    doc: leading_docs(t, n),
                    exported: false,
                    parent,
                    generic_param_count: 0,
                },
            );
            return;
        }
        let symbol_kind = if kind == CIRCUIT_DEF {
            SymbolKind::Circuit
        } else if kind == CIRCUIT_DECL {
            SymbolKind::CircuitSig
        } else if kind == WITNESS_DECL {
            SymbolKind::Witness
        } else if kind == LEDGER_DECL {
            SymbolKind::Ledger
        } else if kind == TYPE_DECL {
            SymbolKind::TypeAlias
        } else if kind == STRUCT_DEF {
            SymbolKind::Struct
        } else if kind == ENUM_DEF {
            SymbolKind::Enum
        } else if kind == CONTRACT_DECL {
            SymbolKind::Contract
        } else if kind == MODULE_DEF {
            SymbolKind::Module
        } else {
            return;
        };
        let exported: bool = t.child_token(n, EXPORT_KW).is_some();
        let index: u32 = self.push_named(t, n, symbol_kind, exported, parent);
        if kind == STRUCT_DEF {
            let kids = t.children(n, Class::Kind(STRUCT_FIELD));
            self.push_members(t, &kids, exported, index);
        } else if kind == ENUM_DEF {
            let kids = t.children(n, Class::Kind(ENUM_VARIANT));
            self.push_members(t, &kids, exported, index);
        } else if kind == CONTRACT_DECL {
            let kids = t.children(n, Class::Kind(CONTRACT_CIRCUIT));
            self.push_members(t, &kids, exported, index);
        } else if kind == MODULE_DEF {
            let kids = t.children(n, Class::Item);
            self.push_items(t, &kids, Some(index), n);
        }
    }

    fn push_named(
        &mut self,
        t: &SyntaxTree,
        n: usize,
        kind: SymbolKind,
        exported: bool,
        parent: Option<u32>,
    ) -> (r: u32)
        requires
            well_formed(t@),
            n < t@.len(),
            exported == is_exported(t@, n as int),
        ensures
            final(self)@ == old(self)@.push(named_symbol(t@, n as int, kind, parent)),
            r == index32(old(self)@.len() as int),
    {
        let (name, name_range) = match t.child_token(n, IDENT) {
            Some(x) => (t.token_text(x).to_owned(), t.range(x)),
            None => (String::new(), t.range(n)),
        };
        assert(name@ =~= named_symbol(t@, n as int, kind, parent).name);
        let k: u16 = t.kind(n);
        let generic_param_count: u32 = if k == CIRCUIT_DEF || k == CIRCUIT_DECL || k == WITNESS_DECL
            || k == TYPE_DECL || k == STRUCT_DEF {
            generic_count(t, n)
        } else {
            0
        };
        self.push(
            Symbol {
                name,
                kind,
                name_range,
                full_range: t.range(n),
                signature: render_signature(t, n),
                doc: leading_docs(t, n),
                exported,
                parent,
                generic_param_count,
            },
        )
    }

    fn push_members(&mut self, t: &SyntaxTree, kids: &Vec<usize>, exported: bool, parent: u32)
        requires
            well_formed(t@),
            forall|k: int| #![trigger kids@[k]] 0 <= k < kids@.len() ==> kids@[k] < t@.len(),
        ensures
            final(self)@ == with_members(t@, old(self)@, ints(kids@), 0, exported, parent),
    {
        let ghost whole = with_members(t@, self@, ints(kids@), 0, exported, parent);
        let mut k: usize = 0;
        while k < kids.len()
            invariant
                well_formed(t@),
                k <= kids@.len(),
                forall|k: int| #![trigger kids@[k]] 0 <= k < kids@.len() ==> kids@[k] < t@.len(),
                with_members(t@, self@, ints(kids@), k as int, exported, parent) == whole,
            decreases kids@.len() - k,
        {
            let m: usize = kids[k];
            assert(ints(kids@)[k as int] == m);
            if let Some(x) = t.child_token(m, IDENT) {
                let s = member(t, m, x, exported, parent);
                self.push(s);
            }
            k = k + 1;
        }
    }

    /// The symbols without a container, each with its index.
    pub fn top_level(&self) -> (r: Vec<(u32, &Symbol)>)
        ensures
            indexed_view(r@) == members_from(self@, 0, None),
    {
        self.members(None)
    }

    /// The symbols directly inside `parent`, each with its index.
    pub fn children_of(&self, parent: u32) -> (r: Vec<(u32, &Symbol)>)
        ensures
            indexed_view(r@) == members_from(self@, 0, Some(parent)),
    {
        self.members(Some(parent))
    }

    fn members(&self, parent: Option<u32>) -> (r: Vec<(u32, &Symbol)>)
        ensures
            indexed_view(r@) == members_from(self@, 0, parent),
    {
        let mut out: Vec<(u32, &Symbol)> = Vec::new();
        let mut i: usize = 0;
        assert(indexed_view(out@) + members_from(self@, 0, parent) =~= members_from(
            self@,
            0,
            parent,
        ));
        while i < self.symbols.len()
            invariant
                i <= self.symbols@.len(),
                indexed_view(out@) + members_from(self@, i as int, parent) == members_from(
                    self@,
                    0,
                    parent,
                ),
            decreases self.symbols@.len() - i,
        {
            let ghost before = indexed_view(out@);
            let s = &self.symbols[i];
            assert(self@[i as int] == s@);
            if s.parent == parent {
                let ghost p = (index32(i as int), s@);
                out.push((clamp_index(i), s));
                assert(indexed_view(out@) =~= before.push(p));
                assert(before + (seq![p] + members_from(self@, i + 1, parent)) =~= before.push(p)
                    + members_from(self@, i + 1, parent));
            }
            i = i + 1;
        }
        assert(indexed_view(out@) + Seq::<(u32, SymbolView)>::empty() =~= indexed_view(out@));
        out
    }
}

fn member(t: &SyntaxTree, m: usize, x: usize, exported: bool, parent: u32) -> (r: Symbol)
    requires
        well_formed(t@),
        m < t@.len(),
        x < t@.len(),
    ensures
        r@ == member_symbol(t@, m as int, x as int, exported, parent),
{
    let node_kind: u16 = t.kind(m);
    let name = t.token_text(x).to_owned();
    let kind = if node_kind == STRUCT_FIELD {
        SymbolKind::StructField
    } else if node_kind == ENUM_VARIANT {
        SymbolKind::EnumVariant
    } else {
        SymbolKind::ContractCircuit
    };
    let signature = if node_kind == STRUCT_FIELD {
        match t.child(m, Class::Type) {
            Some(ty) => {
                let text = t.text(ty);
                cat3(&name, ": ", &collapse_ws(&text))
            },
            None => name.clone(),
        }
    } else if node_kind == ENUM_VARIANT {
        name.clone()
    } else {
        render_signature(t, m)
    };
    let doc = if node_kind == ENUM_VARIANT {
        None
    } else {
        leading_docs(t, m)
    };
    Symbol {
        name,
        kind,
        name_range: t.range(x),
        full_range: t.range(m),
        signature,
        doc,
        exported,
        parent: Some(parent),
        generic_param_count: 0,
    }
}

} // verus!
