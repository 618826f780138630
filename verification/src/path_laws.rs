//! Laws of paths, and of the methods of ledger fields.

use vstd::prelude::*;

use crate::analysis::{adt_of_def, name_of_def, place_of_def};
use crate::checks::builtin_adt;
use crate::disk::DiskView;
use crate::host_model::{sourced, HostView};
use crate::infer::decl_named;
use crate::item_tree::SymbolKind;
use crate::kinds::{Class, IDENT, LEDGER_DECL, TYPE_REF};
use crate::ledger_adts::{field_adt, methods_of, rows_from, MethodView};
use crate::resolve::DefView;
use crate::source_path::{
    component_begin, last_component_start, module_name_of, parent_of, source_file, unquoted,
    without_slashes,
};
use crate::syntax::{child, child_token, Tree};
use crate::text::TextRange;

verus! {

// ---------------------------------------------------------------------------
// Paths
// ---------------------------------------------------------------------------

/// Whether a text can be one component of a path.
pub open spec fn is_component(name: Seq<char>) -> bool {
    &&& name.len() > 0
    &&& forall|i: int| 0 <= i < name.len() ==> #[trigger] name[i] != '/'
    &&& name != seq!['.']
}

/// Whether a path ends in a component.
pub open spec fn ends_plainly(dir: Seq<char>) -> bool {
    &&& dir.len() > 0
    &&& dir.last() != '/'
    &&& dir.last() == '.' ==> dir.len() == 1 || dir[dir.len() - 2] != '/'
}

proof fn lemma_component_begin(s: Seq<char>, n: int, m: int)
    requires
        0 <= m <= n <= s.len(),
        forall|i: int| m <= i < n ==> #[trigger] s[i] != '/',
        m == 0 || s[m - 1] == '/',
    ensures
        component_begin(s, n) == m,
    decreases n - m,
{
    if m < n {
        assert(s[n - 1] != '/');
        lemma_component_begin(s, n - 1, m);
    }
}

/// What a component lies in is the path in front of it: the directory without
/// the slash behind it, the root for a component of the root, and the empty
/// path for a bare name.
pub proof fn law_parent_of_a_path(dir: Seq<char>, name: Seq<char>)
    requires
        is_component(name),
    ensures
        ends_plainly(dir) ==> parent_of(dir + seq!['/'] + name) == Some(dir),
        parent_of(seq!['/'] + name) == Some(seq!['/']),
        parent_of(name) == Some(Seq::<char>::empty()),
{
    lemma_ends(name);
    lemma_component_begin(name, name.len() as int, 0);
    let rooted = seq!['/'] + name;
    assert forall|i: int| 1 <= i < rooted.len() implies #[trigger] rooted[i] != '/' by {
        assert(rooted[i] == name[i - 1]);
    }
    lemma_end_stays(seq!['/'], name);
    lemma_component_begin(rooted, rooted.len() as int, 1);
    assert(without_slashes(rooted, 1) == without_slashes(rooted, 0));
    assert(rooted.take(1) =~= seq!['/']);
    if ends_plainly(dir) {
        let front = dir + seq!['/'];
        let path = front + name;
        assert forall|i: int| front.len() <= i < path.len() implies #[trigger] path[i] != '/' by {
            assert(path[i] == name[i - front.len()]);
        }
        lemma_end_stays(front, name);
        let n = dir.len() as int;
        assert(path[n] == '/');
        lemma_component_begin(path, path.len() as int, n + 1);
        assert(path[n - 1] == dir.last());
        if n > 1 {
            assert(path[n - 2] == dir[n - 2]);
        }
        assert(without_slashes(path, n + 1) == without_slashes(path, n));
        assert(without_slashes(path, n) == n);
        assert(path.take(n) =~= dir);
    }
}

proof fn lemma_ends(name: Seq<char>)
    requires
        is_component(name),
    ensures
        without_slashes(name, name.len() as int) == name.len(),
{
    let n = name.len() as int;
    assert(name[n - 1] != '/');
    if n > 1 {
        assert(name[n - 2] != '/');
    }
}

proof fn lemma_end_stays(front: Seq<char>, name: Seq<char>)
    requires
        is_component(name),
        front.len() > 0,
        front.last() == '/',
    ensures
        without_slashes(front + name, (front + name).len() as int) == (front + name).len(),
{
    let path = front + name;
    let n = path.len() as int;
    assert(path[n - 1] == name[name.len() - 1]);
    if name.len() > 1 {
        assert(path[n - 2] == name[name.len() - 2]);
    } else if path[n - 1] == '.' {
        assert(name =~= seq!['.']);
    }
}

/// A string literal is its text in quotes; a text without them is itself.
pub proof fn law_quotes_are_taken_off(s: Seq<char>)
    ensures
        unquoted(seq!['"'] + s + seq!['"']) == s,
        s.len() == 0 || s[0] != '"' || s.last() != '"' ==> unquoted(s) == s,
{
    let q = seq!['"'] + s + seq!['"'];
    assert(q.subrange(1, q.len() - 1) =~= s);
}

proof fn lemma_last_component(s: Seq<char>, n: int, m: int)
    requires
        0 <= m <= n <= s.len(),
        forall|i: int| m <= i < n ==> #[trigger] s[i] != '/' && s[i] != '\\',
        m == 0 || s[m - 1] == '/' || s[m - 1] == '\\',
    ensures
        last_component_start(s, n) == m,
    decreases n - m,
{
    if m < n {
        assert(s[n - 1] != '/' && s[n - 1] != '\\');
        lemma_last_component(s, n - 1, m);
    }
}

/// The module that a path import expects has the name behind the last slash or
/// backslash; a path that ends in one names none.
pub proof fn law_module_of_a_path(dir: Seq<char>, name: Seq<char>)
    requires
        forall|i: int| 0 <= i < name.len() ==> #[trigger] name[i] != '/' && name[i] != '\\',
    ensures
        name.len() > 0 ==> module_name_of(name) == Some(name) && module_name_of(
            dir + seq!['/'] + name,
        ) == Some(name) && module_name_of(dir + seq!['\\'] + name) == Some(name),
        module_name_of(dir + seq!['/']) is None,
        module_name_of(dir + seq!['\\']) is None,
{
    lemma_last_component(name, name.len() as int, 0);
    assert(name.skip(0) =~= name);
    let n = dir.len() as int;
    let a = dir + seq!['/'] + name;
    let b = dir + seq!['\\'] + name;
    assert forall|i: int| n + 1 <= i < a.len() implies #[trigger] a[i] != '/' && a[i] != '\\' by {
        assert(a[i] == name[i - n - 1]);
    }
    assert forall|i: int| n + 1 <= i < b.len() implies #[trigger] b[i] != '/' && b[i] != '\\' by {
        assert(b[i] == name[i - n - 1]);
    }
    assert(a[n] == '/' && b[n] == '\\');
    lemma_last_component(a, a.len() as int, n + 1);
    lemma_last_component(b, b.len() as int, n + 1);
    assert(a.skip(n + 1) =~= name);
    assert(b.skip(n + 1) =~= name);
    let c = dir + seq!['/'];
    let d = dir + seq!['\\'];
    assert(c[n] == '/' && d[n] == '\\');
    lemma_last_component(c, n + 1, n + 1);
    lemma_last_component(d, n + 1, n + 1);
}

/// A source file has a stem and the extension `.compact`, in whatever directory
/// it lies.
pub proof fn law_source_files(dir: Seq<char>, name: Seq<char>)
    requires
        forall|i: int| 0 <= i < name.len() ==> #[trigger] name[i] != '/',
    ensures
        source_file(name) <==> exists|stem: Seq<char>|
            #![trigger stem + ".compact"@]
            stem.len() > 0 && name == stem + ".compact"@,
        source_file(dir + seq!['/'] + name) == source_file(name),
{
    let ext = ".compact"@;
    lemma_component_begin(name, name.len() as int, 0);
    assert(name.skip(0) =~= name);
    if source_file(name) {
        let k = name.len() - ext.len();
        let stem = name.take(k);
        assert(name =~= stem + ext);
    }
    if exists|stem: Seq<char>| #![trigger stem + ext] stem.len() > 0 && name == stem + ext {
        let stem = choose|stem: Seq<char>|
            #![trigger stem + ext]
            stem.len() > 0 && name == stem + ext;
        assert(name.skip(name.len() - ext.len()) =~= ext);
    }
    let path = dir + seq!['/'] + name;
    let n = dir.len() as int;
    assert forall|i: int| n + 1 <= i < path.len() implies #[trigger] path[i] != '/' by {
        assert(path[i] == name[i - n - 1]);
    }
    assert(path[n] == '/');
    lemma_component_begin(path, path.len() as int, n + 1);
    assert(path.skip(n + 1) =~= name);
}

// ---------------------------------------------------------------------------
// Ledger data types
// ---------------------------------------------------------------------------

/// A data type has the methods of the last row of the table under its name, and
/// none without one.
pub proof fn law_last_row_counts(
    rows: Seq<(Seq<char>, Seq<MethodView>)>,
    adt: Seq<char>,
    n: int,
    i: int,
)
    requires
        0 <= n <= rows.len(),
    ensures
        0 <= i < n && rows[i].0 == adt && (forall|j: int|
            i < j < n ==> (#[trigger] rows[j]).0 != adt) ==> methods_of(rows, adt, n) == rows[i].1,
        (forall|j: int| 0 <= j < n ==> (#[trigger] rows[j]).0 != adt) ==> methods_of(
            rows,
            adt,
            n,
        ).len() == 0,
    decreases n,
{
    if n > 0 {
        law_last_row_counts(rows, adt, n - 1, i);
        if rows[n - 1].0 == adt && i < n - 1 {
            assert(!(forall|j: int| i < j < n ==> (#[trigger] rows[j]).0 != adt) || i < 0);
        }
    }
}

/// A table has a row for each entry with methods, but for the one that describes
/// the table, and no other.
pub proof fn law_rows_of_a_table(
    entries: Seq<(Seq<char>, Option<Seq<MethodView>>)>,
    k: int,
    row: (Seq<char>, Seq<MethodView>),
)
    requires
        0 <= k,
    ensures
        rows_from(entries, k).contains(row) <==> row.0 != "_meta"@ && exists|i: int|
            k <= i < entries.len() && #[trigger] entries[i] == (row.0, Some(row.1)),
    decreases entries.len() - k,
{
    if k < entries.len() {
        law_rows_of_a_table(entries, k + 1, row);
        let rest = rows_from(entries, k + 1);
        let all = rows_from(entries, k);
        if let Some(m) = entries[k].1 {
            if entries[k].0 != "_meta"@ {
                let mine = (entries[k].0, m);
                assert(all == seq![mine] + rest);
                assert(all[0] == mine);
                if rest.contains(row) {
                    assert(all[rest.index_of(row) + 1] == row);
                }
                if all.contains(row) && row != mine {
                    assert(rest[all.index_of(row) - 1] == row);
                }
                if row == mine {
                    assert(entries[k] == (row.0, Some(row.1)));
                }
            }
        }
    }
}

/// Whether a type of this name is a data type of the ledger.
pub open spec fn ledger_type_name(name: Seq<char>) -> bool {
    seq![
        "Cell"@,
        "Counter"@,
        "HistoricMerkleTree"@,
        "Kernel"@,
        "List"@,
        "Map"@,
        "MerkleTree"@,
        "Set"@,
    ].contains(name)
}

/// A ledger field has the methods of the data type that it is declared with; a
/// field of any other type is a cell.
pub proof fn law_methods_of_a_ledger_field(t: Tree, range: TextRange, d: int, ty: int)
    requires
        decl_named(t, LEDGER_DECL, range) == Some(d),
        child(t, d, Class::Type) == Some(ty),
    ensures
        t[ty].kind != TYPE_REF ==> field_adt(t, range) == Some("Cell"@),
        t[ty].kind == TYPE_REF ==> (child_token(t, ty, IDENT) matches Some(x) ==> field_adt(t, range)
            == Some(
            if ledger_type_name(t[x].text) {
                t[x].text
            } else {
                "Cell"@
            },
        )),
{
    if let Some(x) = child_token(t, ty, IDENT) {
        lemma_ledger_type_name(t[x].text);
    }
}

proof fn lemma_ledger_type_name(name: Seq<char>)
    ensures
        ledger_type_name(name) == builtin_adt(name),
{
    let all = seq![
        "Cell"@,
        "Counter"@,
        "HistoricMerkleTree"@,
        "Kernel"@,
        "List"@,
        "Map"@,
        "MerkleTree"@,
        "Set"@,
    ];
    assert(all[0] == "Cell"@ && all[1] == "Counter"@ && all[2] == "HistoricMerkleTree"@ && all[3]
        == "Kernel"@ && all[4] == "List"@ && all[5] == "Map"@ && all[6] == "MerkleTree"@ && all[7]
        == "Set"@);
    if all.contains(name) {
        let i = all.index_of(name);
        assert(all[i] == name);
    }
}

// ---------------------------------------------------------------------------
// Definitions
// ---------------------------------------------------------------------------

/// A definition that is an item has the name and the place of its symbol, and
/// the methods of its declaration where it is a ledger field. A local one has
/// its own name and place, and reading nothing is needed for it.
pub proof fn law_definition_follows_its_symbol(h: HostView, def: DefView, disk: DiskView)
    ensures
        match def {
            DefView::Item { file, index } => {
                let r = sourced(h, file, disk);
                let name = name_of_def(h, def, disk);
                let place = place_of_def(h, def, disk);
                let adt = adt_of_def(h, def, disk);
                &&& name.0 == r.0 && place.0 == r.0 && adt.0 == r.0
                &&& r.1 is None ==> name.1 is None && place.1 is None && adt.1 is None
                &&& r.1 matches Some(s) ==> ({
                    let syms = r.0.db.sources[s.id as int].syms;
                    &&& index >= syms.len() ==> name.1 is None && place.1 is None && adt.1 is None
                    &&& index < syms.len() ==> name.1 == Some(syms[index as int].name) && place.1
                        == Some(
                        (file, syms[index as int].name_range, syms[index as int].full_range),
                    ) && (syms[index as int].kind != SymbolKind::Ledger ==> adt.1 is None)
                })
            },
            DefView::Local { file, name, name_range, .. } => {
                &&& name_of_def(h, def, disk) == (h, Some(name))
                &&& place_of_def(h, def, disk) == (h, Some((file, name_range, name_range)))
                &&& adt_of_def(h, def, disk).1 is None
            },
        },
{
}

} // verus!
