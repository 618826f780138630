//! Types that a single file shows: annotations, literals and the return
//! statements of circuits.

use vstd::arithmetic::power2::{
    lemma2_to64, lemma2_to64_rest, lemma_pow2_adds, lemma_pow2_strictly_increases,
    lemma_pow2_unfold, pow2,
};
use vstd::prelude::*;
use vstd::string::*;

use crate::db::{db_ok, item_tree, syntax_tree, CompactDatabase, SourceText};
use crate::diagnostics::{
    diags_view, plain_diag, DiagView, Diagnostic, DiagnosticCode, Severity,
};
use crate::item_tree::{ItemTree, SymbolKind, SymbolView};
use crate::kinds::{
    Class, ARRAY_EXPR, BLOCK, BOOLEAN_TYPE, BYTES_TYPE, CAST_EXPR, CIRCUIT_DEF, FALSE_KW,
    FIELD_TYPE, IDENT, LITERAL_EXPR, RETURN_STMT, SPREAD_EXPR, TRUE_KW, TUPLE_TYPE, TYPE_SIZE,
    UINT_TYPE, VECTOR_TYPE,
};
use crate::syntax::{
    child, child_token, children, ints, oint, range_of, text_of, well_formed, SyntaxTree, Tree,
};
use crate::text::{
    cat2, chars_of, decimal, digit, lemma_trimmed_head, lemma_trimmed_same, trim, trimmed,
    white_space, TextRange,
};
use crate::ty::{
    display_kind, displayed, is_subtype, lemma_tuple_view, subtype, tys_view, TyKind, TyView,
};

verus! {

// ---------------------------------------------------------------------------
// Integer literals
// ---------------------------------------------------------------------------

/// The value of a digit in the given radix, which is ten or sixteen.
pub open spec fn digit_value(c: char, radix: nat) -> Option<nat> {
    let u = c as u32;
    if 48 <= u <= 57 {
        Some((u - 48) as nat)
    } else if radix == 16 && 97 <= u <= 102 {
        Some((u - 87) as nat)
    } else if radix == 16 && 65 <= u <= 70 {
        Some((u - 55) as nat)
    } else {
        None
    }
}

/// The number that the digits from position `i` on continue, where `acc` has
/// been read already.
pub open spec fn digits_value(s: Seq<char>, i: int, acc: nat, radix: nat) -> Option<nat>
    decreases s.len() - i,
{
    if 0 <= i < s.len() {
        match digit_value(s[i], radix) {
            Some(d) => digits_value(s, i + 1, acc * radix + d, radix),
            None => None,
        }
    } else {
        Some(acc)
    }
}

/// The number that `s` from position `i` on writes in the given radix: at least
/// one digit, and nothing else.
pub open spec fn number_from(s: Seq<char>, i: int, radix: nat) -> Option<nat> {
    if i >= s.len() {
        None
    } else {
        digits_value(s, i, 0, radix)
    }
}

/// The number that an integer literal writes, decimal or hexadecimal, however
/// great; `None` for anything else.
pub open spec fn literal_number(text: Seq<char>) -> Option<nat> {
    let s = trimmed(text);
    if s.len() >= 2 && s[0] == '0' && (s[1] == 'x' || s[1] == 'X') {
        number_from(s, 2, 16)
    } else {
        number_from(s, 0, 10)
    }
}

/// A number as far as it has 128 bits.
pub open spec fn fitting(n: nat) -> Option<u128> {
    if n <= u128::MAX {
        Some(n as u128)
    } else {
        None
    }
}

/// The number that an integer literal writes, where it has 128 bits.
pub open spec fn int_literal(text: Seq<char>) -> Option<u128> {
    match literal_number(text) {
        Some(n) => fitting(n),
        None => None,
    }
}

fn digit_of(c: char, radix: u128) -> (r: Option<u128>)
    requires
        radix == 10 || radix == 16,
    ensures
        match r {
            Some(d) => digit_value(c, radix as nat) == Some(d as nat) && d < radix,
            None => digit_value(c, radix as nat) is None,
        },
{
    let u: u32 = c as u32;
    if 48 <= u && u <= 57 {
        Some((u - 48) as u128)
    } else if radix == 16 && 97 <= u && u <= 102 {
        Some((u - 87) as u128)
    } else if radix == 16 && 65 <= u && u <= 70 {
        Some((u - 55) as u128)
    } else {
        None
    }
}

proof fn lemma_digits_push(s: Seq<char>, c: char, i: int, acc: nat, radix: nat)
    requires
        0 <= i <= s.len(),
    ensures
        digits_value(s.push(c), i, acc, radix) == (match digits_value(s, i, acc, radix) {
            Some(v) => match digit_value(c, radix) {
                Some(d) => Some((v * radix + d) as nat),
                None => None,
            },
            None => None,
        }),
    decreases s.len() - i,
{
    let t = s.push(c);
    if i < s.len() {
        assert(t[i] == s[i]);
        if let Some(d) = digit_value(s[i], radix) {
            lemma_digits_push(s, c, i + 1, (acc * radix + d) as nat, radix);
        }
    } else {
        assert(t[i] == c);
        if let Some(d) = digit_value(c, radix) {
            assert(digits_value(t, i + 1, (acc * radix + d) as nat, radix) == Some(
                (acc * radix + d) as nat,
            ));
        }
    }
}

/// The hexadecimal digit of a number below sixteen.
pub open spec fn hex_digit(d: nat) -> char {
    if d < 10 {
        digit(d)
    } else if d == 10 {
        'a'
    } else if d == 11 {
        'b'
    } else if d == 12 {
        'c'
    } else if d == 13 {
        'd'
    } else if d == 14 {
        'e'
    } else {
        'f'
    }
}

/// `n` in hexadecimal, without leading zeros.
pub open spec fn hexadecimal(n: nat) -> Seq<char>
    decreases n,
{
    if n < 16 {
        seq![hex_digit(n)]
    } else {
        hexadecimal(n / 16).push(hex_digit(n % 16))
    }
}

proof fn lemma_decimal_digits(n: nat)
    ensures
        decimal(n).len() > 0,
        digit_value(decimal(n)[0], 10) is Some,
        digit_value(decimal(n).last(), 10) is Some,
        decimal(n).len() > 1 ==> decimal(n)[1] != 'x' && decimal(n)[1] != 'X',
        digits_value(decimal(n), 0, 0, 10) == Some(n),
    decreases n,
{
    if n < 10 {
        let s = decimal(n);
        assert(s =~= Seq::<char>::empty().push(digit(n)));
        lemma_digits_push(Seq::empty(), digit(n), 0, 0, 10);
    } else {
        lemma_decimal_digits(n / 10);
        lemma_digits_push(decimal(n / 10), digit(n % 10), 0, 0, 10);
        assert(decimal(n)[0] == decimal(n / 10)[0]);
        if decimal(n / 10).len() > 1 {
            assert(decimal(n)[1] == decimal(n / 10)[1]);
        }
    }
}

proof fn lemma_hexadecimal_digits(n: nat)
    ensures
        hexadecimal(n).len() > 0,
        digit_value(hexadecimal(n).last(), 16) is Some,
    decreases n,
{
    if n >= 16 {
        lemma_hexadecimal_digits(n / 16);
    }
}

/// Digits behind a prefix are worth what they are worth alone.
proof fn lemma_digits_shift(p: Seq<char>, s: Seq<char>, i: int, acc: nat, radix: nat)
    requires
        0 <= i <= s.len(),
    ensures
        digits_value(p + s, p.len() + i, acc, radix) == digits_value(s, i, acc, radix),
    decreases s.len() - i,
{
    if i < s.len() {
        assert((p + s)[p.len() + i] == s[i]);
        if let Some(d) = digit_value(s[i], radix) {
            lemma_digits_shift(p, s, i + 1, (acc * radix + d) as nat, radix);
        }
    }
}

proof fn lemma_hexadecimal_value(n: nat)
    ensures
        digits_value(hexadecimal(n), 0, 0, 16) == Some(n),
    decreases n,
{
    if n < 16 {
        assert(hexadecimal(n) =~= Seq::<char>::empty().push(hex_digit(n)));
        lemma_digits_push(Seq::empty(), hex_digit(n), 0, 0, 16);
    } else {
        lemma_hexadecimal_value(n / 16);
        lemma_digits_push(hexadecimal(n / 16), hex_digit(n % 16), 0, 0, 16);
    }
}

/// A number that is written in decimal reads back as itself, and as no number
/// of 128 bits where it has more.
pub proof fn law_decimal_reads_back(n: nat)
    ensures
        literal_number(decimal(n)) == Some(n),
        int_literal(decimal(n)) == fitting(n),
{
    lemma_decimal_digits(n);
    lemma_trimmed_same(decimal(n));
}

/// A number that is written in hexadecimal, with a prefix in either case,
/// reads back as itself.
pub proof fn law_hexadecimal_reads_back(n: nat)
    ensures
        int_literal(seq!['0', 'x'] + hexadecimal(n)) == fitting(n),
        int_literal(seq!['0', 'X'] + hexadecimal(n)) == fitting(n),
{
    lemma_hexadecimal_digits(n);
    lemma_hexadecimal_value(n);
    let h = hexadecimal(n);
    lemma_digits_shift(seq!['0', 'x'], h, 0, 0, 16);
    lemma_digits_shift(seq!['0', 'X'], h, 0, 0, 16);
    assert((seq!['0', 'x'] + h).last() == h.last());
    assert((seq!['0', 'X'] + h).last() == h.last());
    lemma_trimmed_same(seq!['0', 'x'] + h);
    lemma_trimmed_same(seq!['0', 'X'] + h);
}

/// What starts with neither white space nor a digit is no literal: a name, a
/// sign or nothing at all.
pub proof fn law_names_are_no_literals(s: Seq<char>)
    requires
        s.len() > 0 ==> !white_space(s[0]) && digit_value(s[0], 10) is None,
    ensures
        literal_number(s) is None,
        int_literal(s) is None,
{
    if s.len() > 0 {
        lemma_trimmed_head(s);
    }
}

/// What has no white space at its ends is read as it stands: in decimal, or in
/// hexadecimal behind a prefix.
pub proof fn law_literals_are_read_as_they_stand(s: Seq<char>)
    requires
        s.len() > 0,
        !white_space(s[0]),
        !white_space(s.last()),
    ensures
        literal_number(s) == (if s.len() >= 2 && s[0] == '0' && (s[1] == 'x' || s[1] == 'X') {
            number_from(s, 2, 16)
        } else {
            number_from(s, 0, 10)
        }),
{
    lemma_trimmed_same(s);
}

/// What came of reading digits.
enum Digits {
    /// A number of 128 bits.
    Fits(u128),
    /// A greater number.
    Large,
    /// Something else than digits.
    Malformed,
}

impl Digits {
    spec fn reads(self, n: Option<nat>) -> bool {
        match self {
            Digits::Fits(v) => n == Some(v as nat),
            Digits::Large => n matches Some(x) && x > u128::MAX,
            Digits::Malformed => n is None,
        }
    }
}

fn parse_number(s: &Vec<char>, i: usize, radix: u128) -> (r: Digits)
    requires
        i <= s@.len(),
        radix == 10 || radix == 16,
    ensures
        r.reads(number_from(s@, i as int, radix as nat)),
{
    if i >= s.len() {
        return Digits::Malformed;
    }
    let mut acc: Option<u128> = Some(0);
    let ghost mut value: nat = 0;
    let mut k: usize = i;
    while k < s.len()
        invariant
            i <= k <= s@.len(),
            i < s@.len(),
            radix == 10 || radix == 16,
            match acc {
                Some(a) => a == value,
                None => value > u128::MAX,
            },
            number_from(s@, i as int, radix as nat) == digits_value(
                s@,
                k as int,
                value,
                radix as nat,
            ),
        decreases s@.len() - k,
    {
        let d: u128 = match digit_of(s[k], radix) {
            Some(d) => d,
            None => {
                return Digits::Malformed;
            },
        };
        let ghost next: nat = value * radix as nat + d as nat;
        proof {
            assert(value * radix as nat >= value) by (nonlinear_arith)
                requires
                    radix >= 1,
            ;
        }
        acc = match acc {
            Some(a) => match a.checked_mul(radix) {
                Some(x) => x.checked_add(d),
                None => None,
            },
            None => None,
        };
        proof {
            value = next;
        }
        k = k + 1;
    }
    match acc {
        Some(a) => Digits::Fits(a),
        None => Digits::Large,
    }
}

fn parse_literal(text: &str) -> (r: Digits)
    ensures
        r.reads(literal_number(text@)),
{
    let t = trim(text);
    let s = chars_of(&t);
    if s.len() >= 2 && s[0] == '0' && (s[1] == 'x' || s[1] == 'X') {
        parse_number(&s, 2, 16)
    } else {
        parse_number(&s, 0, 10)
    }
}

/// Reads an integer literal, decimal or hexadecimal, where it has 128 bits.
pub fn parse_int_literal(text: &str) -> (r: Option<u128>)
    ensures
        r == int_literal(text@),
{
    match parse_literal(text) {
        Digits::Fits(v) => Some(v),
        _ => None,
    }
}

// ---------------------------------------------------------------------------
// Annotations
// ---------------------------------------------------------------------------

/// The type of a `Uint<..>` annotation: `Uint<k>` holds the numbers below two
/// to the `k`, `Uint<0..hi>` those below `hi`. A malformed one is unknown, and
/// so is one whose bounds are not literals.
pub open spec fn uint_type(t: Tree, n: int) -> TyView {
    let sizes = children(t, n, Class::Kind(TYPE_SIZE));
    if sizes.len() == 1 {
        match int_literal(text_of(t, sizes[0])) {
            Some(k) => if 1 <= k <= 248 {
                if k < 128 {
                    TyView::Uint(Some(pow2(k as nat) as u128))
                } else {
                    TyView::Uint(None)
                }
            } else {
                TyView::Unknown
            },
            None => TyView::Unknown,
        }
    } else if sizes.len() == 2 {
        if int_literal(text_of(t, sizes[0])) != Some(0u128) {
            TyView::Unknown
        } else {
            match literal_number(text_of(t, sizes[1])) {
                Some(hi) => if hi == 0 {
                    TyView::Unknown
                } else {
                    TyView::Uint(fitting(hi))
                },
                None => TyView::Unknown,
            }
        }
    } else {
        TyView::Unknown
    }
}

/// The type of an annotation as far as the return check models it.
pub open spec fn annotated(t: Tree, n: int) -> TyView {
    let kind = t[n].kind;
    if kind == BOOLEAN_TYPE {
        TyView::Boolean
    } else if kind == FIELD_TYPE {
        TyView::Field
    } else if kind == UINT_TYPE {
        uint_type(t, n)
    } else {
        TyView::Unknown
    }
}

/// The number that the size of annotation `n` writes, where it fits.
pub open spec fn size_of_type(t: Tree, n: int) -> Option<u32> {
    match child(t, n, Class::Kind(TYPE_SIZE)) {
        Some(s) => match int_literal(text_of(t, s)) {
            Some(k) => if k <= u32::MAX {
                Some(k as u32)
            } else {
                None
            },
            None => None,
        },
        None => None,
    }
}

/// The type of an annotation without looking any name up: primitives, byte
/// arrays and sequences. A name anywhere in it is unknown.
pub open spec fn lowered(t: Tree, n: int) -> TyView
    decreases t.len() - n, 0int, 0int,
{
    if 0 <= n < t.len() {
        let kind = t[n].kind;
        if kind == BYTES_TYPE {
            match size_of_type(t, n) {
                Some(k) => TyView::Bytes(k),
                None => TyView::Unknown,
            }
        } else if kind == VECTOR_TYPE {
            match (size_of_type(t, n), child(t, n, Class::Type)) {
                (Some(k), Some(e)) => if n < e < t.len() {
                    TyView::Vector(k, Box::new(lowered(t, e)))
                } else {
                    TyView::Unknown
                },
                _ => TyView::Unknown,
            }
        } else if kind == TUPLE_TYPE {
            TyView::Tuple(lowered_list(t, children(t, n, Class::Type), 0, n))
        } else {
            annotated(t, n)
        }
    } else {
        TyView::Unknown
    }
}

/// The types of the annotations `kids` from position `k` on.
pub open spec fn lowered_list(t: Tree, kids: Seq<int>, k: int, after: int) -> Seq<TyView>
    decreases t.len() - after - 1, 1int, kids.len() - k,
{
    if 0 <= k < kids.len() && after < kids[k] < t.len() {
        seq![lowered(t, kids[k])] + lowered_list(t, kids, k + 1, after)
    } else {
        Seq::empty()
    }
}

fn power_of_two(k: u128) -> (r: u128)
    requires
        k < 128,
    ensures
        r as nat == pow2(k as nat),
        pow2(k as nat) <= u128::MAX,
{
    proof {
        lemma2_to64();
        lemma2_to64_rest();
        lemma_pow2_adds(64, 63);
        if k < 127 {
            lemma_pow2_strictly_increases(k as nat, 127);
        }
        assert(pow2(127) == pow2(64) * pow2(63));
        assert(pow2(127) == 0x8000_0000_0000_0000_0000_0000_0000_0000nat);
    }
    let mut p: u128 = 1;
    let mut i: u128 = 0;
    while i < k
        invariant
            i <= k < 128,
            p as nat == pow2(i as nat),
            pow2(127) == 0x8000_0000_0000_0000_0000_0000_0000_0000nat,
        decreases k - i,
    {
        proof {
            lemma_pow2_unfold((i + 1) as nat);
            if i + 1 < 127 {
                lemma_pow2_strictly_increases((i + 1) as nat, 127);
            }
        }
        p = p * 2;
        i = i + 1;
    }
    p
}

fn size_text_value(t: &SyntaxTree, s: usize) -> (r: Option<u128>)
    requires
        well_formed(t@),
        s < t@.len(),
    ensures
        r == int_literal(text_of(t@, s as int)),
{
    let text = t.text(s);
    parse_int_literal(&text)
}

fn uint_bound(t: &SyntaxTree, n: usize) -> (r: TyKind)
    requires
        well_formed(t@),
        n < t@.len(),
    ensures
        r@ == uint_type(t@, n as int),
{
    let sizes = t.children(n, Class::Kind(TYPE_SIZE));
    let ghost list = ints(sizes@);
    assert(list.len() == sizes@.len());
    if sizes.len() == 1 {
        assert(list[0] == sizes@[0]);
        match size_text_value(t, sizes[0]) {
            Some(k) => {
                if 1 <= k && k <= 248 {
                    if k < 128 {
                        TyKind::Uint(Some(power_of_two(k)))
                    } else {
                        TyKind::Uint(None)
                    }
                } else {
                    TyKind::Unknown
                }
            },
            None => TyKind::Unknown,
        }
    } else if sizes.len() == 2 {
        assert(list[0] == sizes@[0]);
        assert(list[1] == sizes@[1]);
        match size_text_value(t, sizes[0]) {
            Some(lo) => {
                if lo != 0 {
                    return TyKind::Unknown;
                }
            },
            None => {
                return TyKind::Unknown;
            },
        }
        match parse_literal(&t.text(sizes[1])) {
            Digits::Fits(hi) => {
                if hi == 0 {
                    TyKind::Unknown
                } else {
                    TyKind::Uint(Some(hi))
                }
            },
            Digits::Large => TyKind::Uint(None),
            Digits::Malformed => TyKind::Unknown,
        }
    } else {
        TyKind::Unknown
    }
}

/// The type of an annotation as far as the return check models it: `Boolean`,
/// `Field` and `Uint`.
pub fn type_node_kind(t: &SyntaxTree, n: usize) -> (r: TyKind)
    requires
        well_formed(t@),
        n < t@.len(),
    ensures
        r@ == annotated(t@, n as int),
{
    let kind: u16 = t.kind(n);
    if kind == BOOLEAN_TYPE {
        TyKind::Boolean
    } else if kind == FIELD_TYPE {
        TyKind::Field
    } else if kind == UINT_TYPE {
        uint_bound(t, n)
    } else {
        TyKind::Unknown
    }
}

fn type_size(t: &SyntaxTree, n: usize) -> (r: Option<u32>)
    requires
        well_formed(t@),
        n < t@.len(),
    ensures
        r == size_of_type(t@, n as int),
{
    match t.child(n, Class::Kind(TYPE_SIZE)) {
        Some(s) => match size_text_value(t, s) {
            Some(k) => {
                if k <= u32::MAX as u128 {
                    Some(k as u32)
                } else {
                    None
                }
            },
            None => None,
        },
        None => None,
    }
}

/// The type of an annotation without looking any name up: primitives, byte
/// arrays and sequences.
pub fn lower_type_node(t: &SyntaxTree, n: usize) -> (r: TyKind)
    requires
        well_formed(t@),
        n < t@.len(),
    ensures
        r@ == lowered(t@, n as int),
    decreases t@.len() - n, 0int,
{
    let kind: u16 = t.kind(n);
    if kind == BYTES_TYPE {
        match type_size(t, n) {
            Some(k) => TyKind::Bytes(k),
            None => TyKind::Unknown,
        }
    } else if kind == VECTOR_TYPE {
        match (type_size(t, n), t.child(n, Class::Type)) {
            (Some(k), Some(e)) => TyKind::Vector(k, Box::new(lower_type_node(t, e))),
            _ => TyKind::Unknown,
        }
    } else if kind == TUPLE_TYPE {
        let kids = t.children(n, Class::Type);
        let elems = lower_type_nodes(t, &kids, n);
        proof {
            lemma_tuple_view(elems);
        }
        TyKind::Tuple(elems)
    } else {
        type_node_kind(t, n)
    }
}

fn lower_type_nodes(t: &SyntaxTree, kids: &Vec<usize>, after: usize) -> (r: Vec<TyKind>)
    requires
        well_formed(t@),
        after < t@.len(),
        forall|k: int| #![trigger kids@[k]] 0 <= k < kids@.len() ==> after < kids@[k] < t@.len(),
    ensures
        tys_view(r@) == lowered_list(t@, ints(kids@), 0, after as int),
    decreases t@.len() - after - 1, 1int,
{
    let ghost list = ints(kids@);
    let ghost whole = lowered_list(t@, list, 0, after as int);
    let mut out: Vec<TyKind> = Vec::new();
    let mut k: usize = 0;
    assert(tys_view(out@) + whole =~= whole);
    while k < kids.len()
        invariant
            well_formed(t@),
            after < t@.len(),
            k <= kids@.len(),
            list == ints(kids@),
            forall|k: int| #![trigger kids@[k]] 0 <= k < kids@.len() ==> after < kids@[k] < t@.len(),
            tys_view(out@) + lowered_list(t@, list, k as int, after as int) == whole,
        decreases kids@.len() - k,
    {
        assert(list[k as int] == kids@[k as int]);
        let ghost before = tys_view(out@);
        let ghost rest = lowered_list(t@, list, k + 1, after as int);
        let e = lower_type_node(t, kids[k]);
        let ghost own = e@;
        out.push(e);
        assert(tys_view(out@) =~= before.push(own));
        assert(before + (seq![own] + rest) =~= before.push(own) + rest);
        k = k + 1;
    }
    assert(tys_view(out@) + Seq::<TyView>::empty() =~= tys_view(out@));
    out
}


// ---------------------------------------------------------------------------
// Expressions
// ---------------------------------------------------------------------------

/// The type of a literal: that of `true` and `false`, and else unknown.
pub open spec fn literal_type(t: Tree, n: int) -> TyView {
    if child_token(t, n, TRUE_KW) is Some || child_token(t, n, FALSE_KW) is Some {
        TyView::Boolean
    } else {
        TyView::Unknown
    }
}

/// The type that an expression shows by itself: that of a literal, the target
/// of a cast, and element by element that of an array without spreads.
pub open spec fn shown_type(t: Tree, n: int) -> TyView
    decreases t.len() - n, 0int, 0int,
{
    if 0 <= n < t.len() {
        let kind = t[n].kind;
        if kind == LITERAL_EXPR {
            literal_type(t, n)
        } else if kind == CAST_EXPR {
            match child(t, n, Class::Type) {
                Some(ty) => lowered(t, ty),
                None => TyView::Unknown,
            }
        } else if kind == ARRAY_EXPR {
            if child(t, n, Class::Kind(SPREAD_EXPR)) is Some {
                TyView::Unknown
            } else {
                TyView::Tuple(shown_list(t, children(t, n, Class::Expr), 0, n))
            }
        } else {
            TyView::Unknown
        }
    } else {
        TyView::Unknown
    }
}

/// The types that the expressions `kids` from position `k` on show.
pub open spec fn shown_list(t: Tree, kids: Seq<int>, k: int, after: int) -> Seq<TyView>
    decreases t.len() - after - 1, 1int, kids.len() - k,
{
    if 0 <= k < kids.len() && after < kids[k] < t.len() {
        seq![shown_type(t, kids[k])] + shown_list(t, kids, k + 1, after)
    } else {
        Seq::empty()
    }
}

fn literal_ty_kind(t: &SyntaxTree, n: usize) -> (r: TyKind)
    requires
        well_formed(t@),
        n < t@.len(),
    ensures
        r@ == literal_type(t@, n as int),
{
    if t.child_token(n, TRUE_KW).is_some() || t.child_token(n, FALSE_KW).is_some() {
        TyKind::Boolean
    } else {
        TyKind::Unknown
    }
}

/// The type that an expression shows by itself.
pub fn expr_ty_kind(t: &SyntaxTree, n: usize) -> (r: TyKind)
    requires
        well_formed(t@),
        n < t@.len(),
    ensures
        r@ == shown_type(t@, n as int),
    decreases t@.len() - n, 0int,
{
    let kind: u16 = t.kind(n);
    if kind == LITERAL_EXPR {
        literal_ty_kind(t, n)
    } else if kind == CAST_EXPR {
        match t.child(n, Class::Type) {
            Some(ty) => lower_type_node(t, ty),
            None => TyKind::Unknown,
        }
    } else if kind == ARRAY_EXPR {
        if t.child(n, Class::Kind(SPREAD_EXPR)).is_some() {
            return TyKind::Unknown;
        }
        let kids = t.children(n, Class::Expr);
        let elems = expr_ty_kinds(t, &kids, n);
        proof {
            lemma_tuple_view(elems);
        }
        TyKind::Tuple(elems)
    } else {
        TyKind::Unknown
    }
}

fn expr_ty_kinds(t: &SyntaxTree, kids: &Vec<usize>, after: usize) -> (r: Vec<TyKind>)
    requires
        well_formed(t@),
        after < t@.len(),
        forall|k: int| #![trigger kids@[k]] 0 <= k < kids@.len() ==> after < kids@[k] < t@.len(),
    ensures
        tys_view(r@) == shown_list(t@, ints(kids@), 0, after as int),
    decreases t@.len() - after - 1, 1int,
{
    let ghost list = ints(kids@);
    let ghost whole = shown_list(t@, list, 0, after as int);
    let mut out: Vec<TyKind> = Vec::new();
    let mut k: usize = 0;
    assert(tys_view(out@) + whole =~= whole);
    while k < kids.len()
        invariant
            well_formed(t@),
            after < t@.len(),
            k <= kids@.len(),
            list == ints(kids@),
            forall|k: int| #![trigger kids@[k]] 0 <= k < kids@.len() ==> after < kids@[k] < t@.len(),
            tys_view(out@) + shown_list(t@, list, k as int, after as int) == whole,
        decreases kids@.len() - k,
    {
        assert(list[k as int] == kids@[k as int]);
        let ghost before = tys_view(out@);
        let ghost rest = shown_list(t@, list, k + 1, after as int);
        let e = expr_ty_kind(t, kids[k]);
        let ghost own = e@;
        out.push(e);
        assert(tys_view(out@) =~= before.push(own));
        assert(before + (seq![own] + rest) =~= before.push(own) + rest);
        k = k + 1;
    }
    assert(tys_view(out@) + Seq::<TyView>::empty() =~= tys_view(out@));
    out
}

// ---------------------------------------------------------------------------
// Return statements
// ---------------------------------------------------------------------------

/// The first node of `kind` from index `i` up to `end` whose name stands at
/// `range`.
pub open spec fn decl_named_from(t: Tree, i: int, end: int, kind: u16, range: TextRange) -> Option<
    int,
>
    decreases end - i,
{
    if 0 <= i < end && i < t.len() {
        let name = child_token(t, i, IDENT);
        if !t[i].token && t[i].kind == kind && name is Some && range_of(t, name->0) == range {
            Some(i)
        } else {
            decl_named_from(t, i + 1, end, kind, range)
        }
    } else {
        None
    }
}

/// The first declaration of `kind` in the file whose name stands at `range`.
pub open spec fn decl_named(t: Tree, kind: u16, range: TextRange) -> Option<int> {
    decl_named_from(t, 0, t.len() as int, kind, range)
}

/// Finds the first declaration of `kind` whose name stands at `range`.
pub fn find_decl(t: &SyntaxTree, kind: u16, range: TextRange) -> (r: Option<usize>)
    requires
        well_formed(t@),
    ensures
        oint(r) == decl_named(t@, kind, range),
        r matches Some(n) ==> n < t@.len(),
{
    let end: usize = t.len();
    let mut i: usize = 0;
    while i < end
        invariant
            well_formed(t@),
            end == t@.len(),
            decl_named(t@, kind, range) == decl_named_from(t@, i as int, end as int, kind, range),
        decreases end - i,
    {
        if !t.is_token(i) && t.kind(i) == kind {
            if let Some(x) = t.child_token(i, IDENT) {
                if t.range(x) == range {
                    return Some(i);
                }
            }
        }
        i = i + 1;
    }
    None
}

/// The definition of the circuit with the given index among the symbols.
pub open spec fn circuit_at(t: Tree, syms: Seq<SymbolView>, index: u32) -> Option<int> {
    if index < syms.len() && syms[index as int].kind == SymbolKind::Circuit {
        decl_named(t, CIRCUIT_DEF, syms[index as int].name_range)
    } else {
        None
    }
}

/// The node of the circuit with the given index among the symbols.
pub fn circuit_node_by_index(db: &CompactDatabase, src: SourceText, index: u32) -> (r: Option<
    usize,
>)
    requires
        db_ok(db@),
        src.id < db@.sources.len(),
    ensures
        oint(r) == circuit_at(
            db@.sources[src.id as int].tree,
            db@.sources[src.id as int].syms,
            index,
        ),
        r matches Some(n) ==> n < db@.sources[src.id as int].tree.len(),
{
    let tree = item_tree(db, src);
    let i: usize = index as usize;
    if i >= tree.symbols.len() {
        return None;
    }
    assert(tree@[i as int] == tree.symbols@[i as int]@);
    if tree.symbols[i].kind != SymbolKind::Circuit {
        return None;
    }
    find_decl(syntax_tree(db, src), CIRCUIT_DEF, tree.symbols[i].name_range)
}

/// The return statements among `stmts` from position `k` on that return a
/// literal: where they stand, and the type of the literal.
pub open spec fn literal_returns(t: Tree, stmts: Seq<int>, k: int) -> Seq<(TextRange, TyView)>
    decreases stmts.len() - k,
{
    if 0 <= k < stmts.len() {
        let rest = literal_returns(t, stmts, k + 1);
        if t[stmts[k]].kind == RETURN_STMT {
            match child(t, stmts[k], Class::Expr) {
                Some(e) => if t[e].kind == LITERAL_EXPR {
                    seq![(range_of(t, stmts[k]), literal_type(t, e))] + rest
                } else {
                    rest
                },
                None => rest,
            }
        } else {
            rest
        }
    } else {
        Seq::empty()
    }
}

/// The literal return statements of circuit `n`.
pub open spec fn circuit_returns(t: Tree, n: int) -> Seq<(TextRange, TyView)> {
    match child(t, n, Class::Kind(BLOCK)) {
        Some(b) => literal_returns(t, children(t, b, Class::Stmt), 0),
        None => Seq::empty(),
    }
}

/// A list of typed places as values.
pub open spec fn places_view(s: Seq<(TextRange, TyKind)>) -> Seq<(TextRange, TyView)> {
    s.map_values(|p: (TextRange, TyKind)| (p.0, p.1@))
}

fn circuit_return_kinds(t: &SyntaxTree, n: usize) -> (r: Vec<(TextRange, TyKind)>)
    requires
        well_formed(t@),
        n < t@.len(),
    ensures
        places_view(r@) == circuit_returns(t@, n as int),
{
    let mut out: Vec<(TextRange, TyKind)> = Vec::new();
    let b = match t.child(n, Class::Kind(BLOCK)) {
        Some(b) => b,
        None => {
            assert(places_view(out@) =~= Seq::<(TextRange, TyView)>::empty());
            return out;
        },
    };
    let stmts = t.children(b, Class::Stmt);
    let ghost list = ints(stmts@);
    let ghost whole = literal_returns(t@, list, 0);
    let mut k: usize = 0;
    assert(places_view(out@) + whole =~= whole);
    while k < stmts.len()
        invariant
            well_formed(t@),
            k <= stmts@.len(),
            list == ints(stmts@),
            forall|k: int| #![trigger stmts@[k]] 0 <= k < stmts@.len() ==> stmts@[k] < t@.len(),
            places_view(out@) + literal_returns(t@, list, k as int) == whole,
        decreases stmts@.len() - k,
    {
        let s: usize = stmts[k];
        assert(list[k as int] == s);
        let ghost before = places_view(out@);
        let ghost rest = literal_returns(t@, list, k + 1);
        if t.kind(s) == RETURN_STMT {
            if let Some(e) = t.child(s, Class::Expr) {
                if t.kind(e) == LITERAL_EXPR {
                    let ty = literal_ty_kind(t, e);
                    let ghost own = (range_of(t@, s as int), ty@);
                    out.push((t.range(s), ty));
                    assert(places_view(out@) =~= before.push(own));
                    assert(before + (seq![own] + rest) =~= before.push(own) + rest);
                }
            }
        }
        k = k + 1;
    }
    assert(places_view(out@) + Seq::<(TextRange, TyView)>::empty() =~= places_view(out@));
    out
}

/// The literal return statements of the circuit with the given index.
pub open spec fn returns_at(t: Tree, syms: Seq<SymbolView>, index: u32) -> Seq<
    (TextRange, TyView),
> {
    match circuit_at(t, syms, index) {
        Some(n) => circuit_returns(t, n),
        None => Seq::empty(),
    }
}

/// Types the literals that a circuit places: for each such return statement
/// its range and the type.
pub fn infer_circuit_returns(db: &CompactDatabase, src: SourceText, circuit_index: u32) -> (r: Vec<
    (TextRange, TyKind),
>)
    requires
        db_ok(db@),
        src.id < db@.sources.len(),
    ensures
        places_view(r@) == returns_at(
            db@.sources[src.id as int].tree,
            db@.sources[src.id as int].syms,
            circuit_index,
        ),
{
    match circuit_node_by_index(db, src, circuit_index) {
        Some(n) => circuit_return_kinds(syntax_tree(db, src), n),
        None => {
            let out: Vec<(TextRange, TyKind)> = Vec::new();
            assert(places_view(out@) =~= Seq::<(TextRange, TyView)>::empty());
            out
        },
    }
}

/// The name of the last of the first `n` symbols that is a circuit whose name
/// stands at `range`.
pub open spec fn circuit_name_at(syms: Seq<SymbolView>, n: int, range: TextRange) -> Option<
    Seq<char>,
>
    decreases n,
{
    if 0 < n <= syms.len() {
        if syms[n - 1].kind == SymbolKind::Circuit && syms[n - 1].name_range == range {
            Some(syms[n - 1].name)
        } else {
            circuit_name_at(syms, n - 1, range)
        }
    } else {
        None
    }
}

/// The complaint about a return statement of the wrong type.
pub open spec fn return_mismatch(
    actual: TyView,
    declared: TyView,
    name: Seq<char>,
    span: TextRange,
) -> DiagView {
    plain_diag(
        Severity::Error,
        "E"@,
        3001,
        "mismatch between actual return type "@ + displayed(actual) + " and declared return type "@
            + displayed(declared) + " of circuit "@ + name,
        span,
    )
}

/// The complaints about the returns from position `k` on, for a circuit with
/// this name and declared return type.
pub open spec fn return_mismatches(
    places: Seq<(TextRange, TyView)>,
    k: int,
    declared: TyView,
    name: Seq<char>,
) -> Seq<DiagView>
    decreases places.len() - k,
{
    if 0 <= k < places.len() {
        let rest = return_mismatches(places, k + 1, declared, name);
        if subtype(places[k].1, declared) {
            rest
        } else {
            seq![return_mismatch(places[k].1, declared, name, places[k].0)] + rest
        }
    } else {
        Seq::empty()
    }
}

/// The complaints about circuit `n`: none where its return type is not
/// modelled.
pub open spec fn circuit_mismatches(t: Tree, syms: Seq<SymbolView>, n: int) -> Seq<DiagView> {
    match child_token(t, n, IDENT) {
        Some(x) => match circuit_name_at(syms, syms.len() as int, range_of(t, x)) {
            Some(name) => match child(t, n, Class::Type) {
                Some(ty) => if annotated(t, ty) is Unknown {
                    Seq::empty()
                } else {
                    return_mismatches(circuit_returns(t, n), 0, annotated(t, ty), name)
                },
                None => Seq::empty(),
            },
            None => Seq::empty(),
        },
        None => Seq::empty(),
    }
}

/// The complaints about the circuits from index `i` on, in walk order.
pub open spec fn type_mismatches(t: Tree, syms: Seq<SymbolView>, i: int) -> Seq<DiagView>
    decreases t.len() - i,
{
    if 0 <= i < t.len() {
        let rest = type_mismatches(t, syms, i + 1);
        if !t[i].token && t[i].kind == CIRCUIT_DEF {
            circuit_mismatches(t, syms, i) + rest
        } else {
            rest
        }
    } else {
        Seq::empty()
    }
}

fn find_circuit_name<'a>(tree: &'a ItemTree, range: TextRange) -> (r: Option<&'a str>)
    ensures
        match r {
            Some(s) => circuit_name_at(tree@, tree@.len() as int, range) == Some(s@),
            None => circuit_name_at(tree@, tree@.len() as int, range) is None,
        },
{
    let mut n: usize = tree.symbols.len();
    while n > 0
        invariant
            n <= tree@.len(),
            circuit_name_at(tree@, tree@.len() as int, range) == circuit_name_at(
                tree@,
                n as int,
                range,
            ),
        decreases n,
    {
        let s = &tree.symbols[n - 1];
        assert(tree@[n - 1] == s@);
        if s.kind == SymbolKind::Circuit && s.name_range == range {
            return Some(s.name.as_str());
        }
        n = n - 1;
    }
    None
}

fn return_mismatch_diag(actual: &TyKind, declared: &TyKind, name: &str, span: TextRange) -> (r:
    Diagnostic)
    ensures
        r@ == return_mismatch(actual@, declared@, name@, span),
{
    let mut m = cat2("mismatch between actual return type ", &display_kind(actual));
    m.append(" and declared return type ");
    m.append(&display_kind(declared));
    m.append(" of circuit ");
    m.append(name);
    Diagnostic::error(DiagnosticCode::new("E", 3001), m, span)
}

fn push_circuit_mismatches(
    t: &SyntaxTree,
    tree: &ItemTree,
    n: usize,
    diags: &mut Vec<Diagnostic>,
)
    requires
        well_formed(t@),
        n < t@.len(),
    ensures
        diags_view(final(diags)@) == diags_view(old(diags)@) + circuit_mismatches(
            t@,
            tree@,
            n as int,
        ),
{
    let ghost base = diags_view(diags@);
    assert(base + Seq::<DiagView>::empty() =~= base);
    let x = match t.child_token(n, IDENT) {
        Some(x) => x,
        None => {
            return;
        },
    };
    let name = match find_circuit_name(tree, t.range(x)) {
        Some(s) => s,
        None => {
            return;
        },
    };
    let declared = match t.child(n, Class::Type) {
        Some(ty) => type_node_kind(t, ty),
        None => {
            return;
        },
    };
    if let TyKind::Unknown = declared {
        return;
    }
    let places = circuit_return_kinds(t, n);
    let ghost list = places_view(places@);
    let ghost whole = base + return_mismatches(list, 0, declared@, name@);
    let mut k: usize = 0;
    while k < places.len()
        invariant
            k <= places@.len(),
            list == places_view(places@),
            diags_view(diags@) + return_mismatches(list, k as int, declared@, name@) == whole,
        decreases places@.len() - k,
    {
        assert(list[k as int] == (places@[k as int].0, places@[k as int].1@));
        let ghost before = diags_view(diags@);
        let ghost rest = return_mismatches(list, k + 1, declared@, name@);
        if !is_subtype(&places[k].1, &declared) {
            let d = return_mismatch_diag(&places[k].1, &declared, name, places[k].0);
            let ghost own = d@;
            diags.push(d);
            assert(diags_view(diags@) =~= before.push(own));
            assert(before + (seq![own] + rest) =~= before.push(own) + rest);
        }
        k = k + 1;
    }
    assert(diags_view(diags@) + Seq::<DiagView>::empty() =~= diags_view(diags@));
}

/// Complains about each literal return statement whose type does not fit the
/// declared return type of its circuit. A type that is not modelled on either
/// side causes no complaint.
pub fn type_diagnostics_query(db: &CompactDatabase, src: SourceText) -> (r: Vec<Diagnostic>)
    requires
        db_ok(db@),
        src.id < db@.sources.len(),
    ensures
        diags_view(r@) == type_mismatches(
            db@.sources[src.id as int].tree,
            db@.sources[src.id as int].syms,
            0,
        ),
{
    let t = syntax_tree(db, src);
    let tree = item_tree(db, src);
    let mut diags: Vec<Diagnostic> = Vec::new();
    let ghost whole = type_mismatches(t@, tree@, 0);
    let end: usize = t.len();
    let mut i: usize = 0;
    assert(diags_view(diags@) + whole =~= whole);
    while i < end
        invariant
            well_formed(t@),
            i <= end,
            end == t@.len(),
            diags_view(diags@) + type_mismatches(t@, tree@, i as int) == whole,
        decreases end - i,
    {
        let ghost before = diags_view(diags@);
        let ghost rest = type_mismatches(t@, tree@, i + 1);
        if !t.is_token(i) && t.kind(i) == CIRCUIT_DEF {
            push_circuit_mismatches(t, tree, i, &mut diags);
            let ghost own = circuit_mismatches(t@, tree@, i as int);
            assert(before + (own + rest) =~= (before + own) + rest);
        }
        i = i + 1;
    }
    assert(diags_view(diags@) + Seq::<DiagView>::empty() =~= diags_view(diags@));
    diags
}

} // verus!
