//! The methods of the ledger data types.
//!
//! The ledger data types are built in and called with method syntax, so what
//! they offer is a table.

use vstd::prelude::*;
use vstd::string::*;

use crate::checks::{builtin_adt, is_builtin_adt};
use crate::infer::{decl_named, find_decl};
use crate::kinds::{Class, IDENT, LEDGER_DECL, TYPE_REF};
use crate::syntax::{child, child_token, well_formed, SyntaxTree, Tree};
use crate::text::{otext, same_text, TextRange};

verus! {

/// One method of a ledger data type.
#[derive(Debug)]
pub struct LedgerMethod {
    pub name: String,
    pub sig: String,
    pub doc: String,
}

/// The value of a [`LedgerMethod`].
pub struct MethodView {
    pub name: Seq<char>,
    pub sig: Seq<char>,
    pub doc: Seq<char>,
}

impl View for LedgerMethod {
    type V = MethodView;

    open spec fn view(&self) -> MethodView {
        MethodView { name: self.name@, sig: self.sig@, doc: self.doc@ }
    }
}

/// The values of a list of methods.
pub open spec fn methods_view(s: Seq<LedgerMethod>) -> Seq<MethodView> {
    s.map_values(|m: LedgerMethod| m@)
}

/// The methods of each ledger data type.
pub struct LedgerAdtTable {
    by_adt: Vec<(String, Vec<LedgerMethod>)>,
    none: Vec<LedgerMethod>,
}

/// The values of a table.
pub open spec fn rows_view(s: Seq<(String, Vec<LedgerMethod>)>) -> Seq<
    (Seq<char>, Seq<MethodView>),
> {
    s.map_values(|x: (String, Vec<LedgerMethod>)| (x.0@, methods_view(x.1@)))
}

/// The values of the rows that a table is made of.
pub open spec fn entries_view(s: Seq<(String, Option<Vec<LedgerMethod>>)>) -> Seq<
    (Seq<char>, Option<Seq<MethodView>>),
> {
    s.map_values(
        |x: (String, Option<Vec<LedgerMethod>>)|
            (
                x.0@,
                match x.1 {
                    Some(m) => Some(methods_view(m@)),
                    None => None,
                },
            ),
    )
}

/// The rows of a table from position `k` on: those that hold methods, without
/// the one that describes the table itself.
pub open spec fn rows_from(entries: Seq<(Seq<char>, Option<Seq<MethodView>>)>, k: int) -> Seq<
    (Seq<char>, Seq<MethodView>),
>
    decreases entries.len() - k,
{
    if 0 <= k < entries.len() {
        let rest = rows_from(entries, k + 1);
        match entries[k].1 {
            Some(m) => if entries[k].0 == "_meta"@ {
                rest
            } else {
                seq![(entries[k].0, m)] + rest
            },
            None => rest,
        }
    } else {
        Seq::empty()
    }
}

/// The methods of a data type among the first `n` rows; a later row replaces
/// an earlier one.
pub open spec fn methods_of(rows: Seq<(Seq<char>, Seq<MethodView>)>, adt: Seq<char>, n: int) -> Seq<
    MethodView,
>
    decreases n,
{
    if 0 < n <= rows.len() {
        if rows[n - 1].0 == adt {
            rows[n - 1].1
        } else {
            methods_of(rows, adt, n - 1)
        }
    } else {
        Seq::empty()
    }
}

impl View for LedgerAdtTable {
    type V = Seq<(Seq<char>, Seq<MethodView>)>;

    closed spec fn view(&self) -> Seq<(Seq<char>, Seq<MethodView>)> {
        rows_view(self.by_adt@)
    }
}

impl LedgerAdtTable {
    #[verifier::type_invariant]
    closed spec fn made(&self) -> bool {
        self.none@.len() == 0
    }

    /// The table with the given rows. A row without methods is left out, and
    /// so is the one that describes the table.
    pub fn load(entries: Vec<(String, Option<Vec<LedgerMethod>>)>) -> (r: LedgerAdtTable)
        ensures
            r@ == rows_from(entries_view(entries@), 0),
    {
        let ghost all = entries_view(entries@);
        let ghost whole = rows_from(all, 0);
        let mut entries = entries;
        let ghost input = entries@;
        let mut reversed: Vec<(String, Option<Vec<LedgerMethod>>)> = Vec::new();
        while entries.len() > 0
            invariant
                entries@.len() + reversed@.len() == input.len(),
                entries@ == input.take(entries@.len() as int),
                forall|j: int|
                    #![trigger reversed@[j]]
                    0 <= j < reversed@.len() ==> reversed@[j] == input[input.len() - 1 - j],
            decreases entries@.len(),
        {
            if let Some(e) = entries.pop() {
                reversed.push(e);
            }
        }
        let mut rows: Vec<(String, Vec<LedgerMethod>)> = Vec::new();
        let ghost mut k: int = 0;
        assert(rows_view(rows@) + whole =~= whole);
        while reversed.len() > 0
            invariant
                0 <= k,
                k + reversed@.len() == input.len(),
                all == entries_view(input),
                forall|j: int|
                    #![trigger reversed@[j]]
                    0 <= j < reversed@.len() ==> reversed@[j] == input[input.len() - 1 - j],
                rows_view(rows@) + rows_from(all, k) == whole,
            decreases reversed@.len(),
        {
            let ghost last = reversed@.last();
            if let Some((adt, methods)) = reversed.pop() {
                assert(last == input[k]);
                let ghost rest = rows_from(all, k + 1);
                let ghost before = rows_view(rows@);
                if let Some(m) = methods {
                    if !same_text(&adt, "_meta") {
                        let ghost own = (adt@, methods_view(m@));
                        rows.push((adt, m));
                        assert(rows_view(rows@) =~= before.push(own));
                        assert(before + (seq![own] + rest) =~= before.push(own) + rest);
                    }
                }
                proof {
                    k = k + 1;
                }
            }
        }
        assert(rows_view(rows@) + Seq::<(Seq<char>, Seq<MethodView>)>::empty() =~= rows_view(
            rows@,
        ));
        LedgerAdtTable { by_adt: rows, none: Vec::new() }
    }

    /// The methods of a data type; none where the table does not hold it.
    pub fn methods(&self, adt: &str) -> (r: &Vec<LedgerMethod>)
        ensures
            methods_view(r@) == methods_of(self@, adt@, self@.len() as int),
    {
        proof {
            use_type_invariant(self);
        }
        let ghost rows = self@;
        let mut n: usize = self.by_adt.len();
        while n > 0
            invariant
                n <= self.by_adt@.len(),
                rows == rows_view(self.by_adt@),
                methods_of(rows, adt@, rows.len() as int) == methods_of(rows, adt@, n as int),
            decreases n,
        {
            assert(rows[n - 1].0 == self.by_adt@[n - 1].0@);
            if same_text(&self.by_adt[n - 1].0, adt) {
                return &self.by_adt[n - 1].1;
            }
            n = n - 1;
        }
        assert(methods_view(self.none@) =~= Seq::<MethodView>::empty());
        &self.none
    }
}

/// The data type whose methods the ledger field named at `range` has: the one
/// that its type names, or `Cell` for a field of any other type.
pub open spec fn field_adt(t: Tree, range: TextRange) -> Option<Seq<char>> {
    match decl_named(t, LEDGER_DECL, range) {
        Some(d) => match child(t, d, Class::Type) {
            Some(ty) => if t[ty].kind == TYPE_REF {
                match child_token(t, ty, IDENT) {
                    Some(x) => if builtin_adt(t[x].text) {
                        Some(t[x].text)
                    } else {
                        Some("Cell"@)
                    },
                    None => None,
                }
            } else {
                Some("Cell"@)
            },
            None => None,
        },
        None => None,
    }
}

/// The data type whose methods the ledger field named at `range` has.
pub fn find_field_adt(t: &SyntaxTree, range: TextRange) -> (r: Option<String>)
    requires
        well_formed(t@),
    ensures
        otext(r) == field_adt(t@, range),
{
    let d = match find_decl(t, LEDGER_DECL, range) {
        Some(d) => d,
        None => {
            return None;
        },
    };
    let ty = match t.child(d, Class::Type) {
        Some(ty) => ty,
        None => {
            return None;
        },
    };
    if t.kind(ty) != TYPE_REF {
        return Some("Cell".to_owned());
    }
    match t.child_token(ty, IDENT) {
        Some(x) => {
            if is_builtin_adt(t.token_text(x)) {
                Some(t.token_text(x).to_owned())
            } else {
                Some("Cell".to_owned())
            }
        },
        None => None,
    }
}

} // verus!
