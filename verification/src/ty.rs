//! The types that are modelled, their display, assignability and casts.

use vstd::arithmetic::power2::{lemma2_to64, lemma_pow2_unfold, pow2};
use vstd::prelude::*;
use vstd::string::*;

use crate::text::{
    cat2, cat3, cat5, decimal, decimal_text, join, join_texts, same_text, texts,
};

verus! {

/// A Compact type, as far as it is modelled.
#[derive(Debug, PartialEq, Eq)]
pub enum TyKind {
    Boolean,
    Field,
    /// A type that is not modelled. It never causes a type error.
    Unknown,
    /// `Uint<0..upper>`: the exclusive upper bound, or `None` where it does
    /// not fit.
    Uint(Option<u128>),
    /// `Bytes<n>`.
    Bytes(u32),
    /// `[T0, ..., Tk]`.
    Tuple(Vec<TyKind>),
    /// `Vector<n, T>`, the same as the tuple of `n` elements of type `T`.
    Vector(u32, Box<TyKind>),
    /// A struct, by name, with its fields in order.
    Struct { name: String, fields: Vec<(String, TyKind)> },
    /// An enum, by name, with its variants in order.
    Enum { name: String, variants: Vec<String> },
}

/// The value of a [`TyKind`].
pub enum TyView {
    Boolean,
    Field,
    Unknown,
    Uint(Option<u128>),
    Bytes(u32),
    Tuple(Seq<TyView>),
    Vector(u32, Box<TyView>),
    Struct { name: Seq<char>, fields: Seq<(Seq<char>, TyView)> },
    Enum { name: Seq<char>, variants: Seq<Seq<char>> },
}

impl TyKind {
    pub open spec fn model(&self) -> TyView
        decreases self,
    {
        match self {
            TyKind::Boolean => TyView::Boolean,
            TyKind::Field => TyView::Field,
            TyKind::Unknown => TyView::Unknown,
            TyKind::Uint(b) => TyView::Uint(*b),
            TyKind::Bytes(n) => TyView::Bytes(*n),
            TyKind::Tuple(elems) => TyView::Tuple(
                Seq::new(
                    elems@.len(),
                    |i: int|
                        if 0 <= i < elems@.len() {
                            elems@[i].model()
                        } else {
                            arbitrary()
                        },
                ),
            ),
            TyKind::Vector(n, elem) => TyView::Vector(*n, Box::new(elem.model())),
            TyKind::Struct { name, fields } => TyView::Struct {
                name: name@,
                fields: Seq::new(
                    fields@.len(),
                    |i: int|
                        if 0 <= i < fields@.len() {
                            (fields@[i].0@, fields@[i].1.model())
                        } else {
                            arbitrary()
                        },
                ),
            },
            TyKind::Enum { name, variants } => TyView::Enum {
                name: name@,
                variants: texts(variants@),
            },
        }
    }
}

impl View for TyKind {
    type V = TyView;

    open spec fn view(&self) -> TyView {
        self.model()
    }
}

/// The value of an optional type.
pub open spec fn okind(k: Option<TyKind>) -> Option<TyView> {
    match k {
        Some(k) => Some(k@),
        None => None,
    }
}

/// The values of a list of types.
pub open spec fn tys_view(s: Seq<TyKind>) -> Seq<TyView> {
    s.map_values(|t: TyKind| t@)
}

/// The values of a list of fields.
pub open spec fn fields_view(s: Seq<(String, TyKind)>) -> Seq<(Seq<char>, TyView)> {
    s.map_values(|f: (String, TyKind)| (f.0@, f.1@))
}

/// The model of a tuple lists the models of its elements.
pub proof fn lemma_tuple_view(elems: Vec<TyKind>)
    ensures
        TyKind::Tuple(elems)@ == TyView::Tuple(tys_view(elems@)),
{
    assert(TyKind::Tuple(elems)@->Tuple_0 =~= tys_view(elems@));
}

/// The model of a struct lists the models of its fields.
pub proof fn lemma_struct_view(name: String, fields: Vec<(String, TyKind)>)
    ensures
        (TyKind::Struct { name, fields })@ == (TyView::Struct {
            name: name@,
            fields: fields_view(fields@),
        }),
{
    assert((TyKind::Struct { name, fields })@->fields =~= fields_view(fields@));
}

fn clone_texts(v: &Vec<String>) -> (r: Vec<String>)
    ensures
        texts(r@) == texts(v@),
{
    let mut out: Vec<String> = Vec::new();
    let mut i: usize = 0;
    while i < v.len()
        invariant
            i <= v@.len(),
            out@.len() == i,
            forall|j: int| 0 <= j < i ==> (#[trigger] out@[j])@ == v@[j]@,
        decreases v@.len() - i,
    {
        out.push(v[i].clone());
        i = i + 1;
    }
    assert(texts(out@) =~= texts(v@));
    out
}

impl Clone for TyKind {
    fn clone(&self) -> (r: Self)
        ensures
            r@ == self@,
        decreases self,
    {
        match self {
            TyKind::Boolean => TyKind::Boolean,
            TyKind::Field => TyKind::Field,
            TyKind::Unknown => TyKind::Unknown,
            TyKind::Uint(b) => TyKind::Uint(*b),
            TyKind::Bytes(n) => TyKind::Bytes(*n),
            TyKind::Tuple(elems) => {
                let mut out: Vec<TyKind> = Vec::new();
                let mut i: usize = 0;
                while i < elems.len()
                    invariant
                        i <= elems@.len(),
                        out@.len() == i,
                        *self is Tuple,
                        self->Tuple_0 == *elems,
                        forall|j: int| 0 <= j < i ==> (#[trigger] out@[j])@ == elems@[j]@,
                    decreases elems@.len() - i,
                {
                    assert(decreases_to!(*elems => elems@[i as int]));
                    let e = elems[i].clone();
                    out.push(e);
                    i = i + 1;
                }
                proof {
                    lemma_tuple_view(*elems);
                    lemma_tuple_view(out);
                    assert(tys_view(out@) =~= tys_view(elems@));
                }
                TyKind::Tuple(out)
            },
            TyKind::Vector(n, elem) => TyKind::Vector(*n, Box::new((**elem).clone())),
            TyKind::Struct { name, fields } => {
                let mut out: Vec<(String, TyKind)> = Vec::new();
                let mut i: usize = 0;
                while i < fields.len()
                    invariant
                        i <= fields@.len(),
                        out@.len() == i,
                        *self is Struct,
                        self->fields == *fields,
                        forall|j: int|
                            0 <= j < i ==> (#[trigger] out@[j]).0@ == fields@[j].0@ && out@[j].1@
                                == fields@[j].1@,
                    decreases fields@.len() - i,
                {
                    assert(decreases_to!(*fields => fields@[i as int]));
                    let e = fields[i].1.clone();
                    out.push((fields[i].0.clone(), e));
                    i = i + 1;
                }
                let copy = name.clone();
                proof {
                    lemma_struct_view(*name, *fields);
                    lemma_struct_view(copy, out);
                    assert(fields_view(out@) =~= fields_view(fields@));
                }
                TyKind::Struct { name: copy, fields: out }
            },
            TyKind::Enum { name, variants } => TyKind::Enum {
                name: name.clone(),
                variants: clone_texts(variants),
            },
        }
    }
}

// ---------------------------------------------------------------------------
// Display
// ---------------------------------------------------------------------------

/// The exponent of a power of two.
pub open spec fn log2(n: nat) -> Option<nat>
    decreases n,
{
    if n == 0 {
        None
    } else if n == 1 {
        Some(0)
    } else if n % 2 == 0 {
        match log2(n / 2) {
            Some(k) => Some(k + 1),
            None => None,
        }
    } else {
        None
    }
}

/// The variants of an enum from position `i` on, each behind a comma.
pub open spec fn variant_list(variants: Seq<Seq<char>>, n: int) -> Seq<char>
    decreases n,
{
    if 0 < n <= variants.len() {
        variant_list(variants, n - 1) + ", "@ + variants[n - 1]
    } else {
        Seq::empty()
    }
}

/// How each of a list of types is written.
pub open spec fn displays(elems: Seq<TyView>) -> Seq<Seq<char>>
    decreases elems,
{
    Seq::new(
        elems.len(),
        |i: int|
            if 0 <= i < elems.len() {
                displayed(elems[i])
            } else {
                arbitrary()
            },
    )
}

/// How a type is written for a reader. A bound that is a power of two is
/// written as a width.
pub open spec fn displayed(t: TyView) -> Seq<char>
    decreases t,
{
    match t {
        TyView::Boolean => "Boolean"@,
        TyView::Field => "Field"@,
        TyView::Unknown => "?"@,
        TyView::Uint(Some(hi)) => match log2(hi as nat) {
            Some(k) => if k >= 1 {
                "Uint<"@ + decimal(k) + ">"@
            } else {
                "Uint<0.."@ + decimal(hi as nat) + ">"@
            },
            None => "Uint<0.."@ + decimal(hi as nat) + ">"@,
        },
        TyView::Uint(None) => "Uint<0..?>"@,
        TyView::Bytes(n) => "Bytes<"@ + decimal(n as nat) + ">"@,
        TyView::Tuple(elems) => "["@ + join(displays(elems), ", "@) + "]"@,
        TyView::Vector(n, elem) => "Vector<"@ + decimal(n as nat) + ", "@ + displayed(*elem)
            + ">"@,
        TyView::Struct { name, .. } => name,
        TyView::Enum { name, variants } => "Enum<"@ + name + variant_list(
            variants,
            variants.len() as int,
        ) + ">"@,
    }
}

/// `log2` finds exactly the powers of two.
pub proof fn law_log2_is_exponent(n: nat, k: nat)
    ensures
        log2(n) == Some(k) <==> n == pow2(k),
    decreases n,
{
    lemma2_to64();
    if n == 0 {
        vstd::arithmetic::power2::lemma_pow2_pos(k);
    } else if n == 1 {
        if k > 0 {
            lemma_pow2_unfold(k);
            vstd::arithmetic::power2::lemma_pow2_pos((k - 1) as nat);
        }
    } else {
        if k > 0 {
            lemma_pow2_unfold(k);
            law_log2_is_exponent(n / 2, (k - 1) as nat);
        }
    }
}

fn exact_log2(n: u128) -> (r: Option<u128>)
    ensures
        r is Some <==> log2(n as nat) is Some,
        r matches Some(k) ==> k as nat == log2(n as nat)->0 && k < n,
    decreases n,
{
    if n == 0 {
        None
    } else if n == 1 {
        Some(0)
    } else if n % 2 == 0 {
        match exact_log2(n / 2) {
            Some(k) => Some(k + 1),
            None => None,
        }
    } else {
        None
    }
}

/// Writes a type for a reader.
pub fn display_kind(kind: &TyKind) -> (r: String)
    ensures
        r@ == displayed(kind@),
    decreases kind,
{
    match kind {
        TyKind::Boolean => "Boolean".to_owned(),
        TyKind::Field => "Field".to_owned(),
        TyKind::Unknown => "?".to_owned(),
        TyKind::Uint(Some(hi)) => {
            match exact_log2(*hi) {
                Some(k) => {
                    if k >= 1 {
                        return cat3("Uint<", &decimal_text(k), ">");
                    }
                },
                None => {},
            }
            cat3("Uint<0..", &decimal_text(*hi), ">")
        },
        TyKind::Uint(None) => "Uint<0..?>".to_owned(),
        TyKind::Bytes(n) => cat3("Bytes<", &decimal_text(*n as u128), ">"),
        TyKind::Tuple(elems) => {
            let mut parts: Vec<String> = Vec::new();
            let mut i: usize = 0;
            while i < elems.len()
                invariant
                    i <= elems@.len(),
                    parts@.len() == i,
                    *kind is Tuple,
                    kind->Tuple_0 == *elems,
                    forall|j: int| 0 <= j < i ==> (#[trigger] parts@[j])@ == displayed(elems@[j]@),
                decreases elems@.len() - i,
            {
                assert(decreases_to!(*elems => elems@[i as int]));
                let d = display_kind(&elems[i]);
                parts.push(d);
                i = i + 1;
            }
            proof {
                lemma_tuple_view(*elems);
                let vs = kind@->Tuple_0;
                assert(vs =~= tys_view(elems@));
                assert(texts(parts@) =~= displays(vs));
            }
            cat3("[", &join_texts(&parts, ", "), "]")
        },
        TyKind::Vector(n, elem) => {
            let e = display_kind(elem);
            cat5("Vector<", &decimal_text(*n as u128), ", ", &e, ">")
        },
        TyKind::Struct { name, .. } => name.clone(),
        TyKind::Enum { name, variants } => {
            let mut out = cat2("Enum<", name);
            let ghost head = out@;
            let mut i: usize = 0;
            assert(head + variant_list(texts(variants@), 0) =~= head);
            while i < variants.len()
                invariant
                    i <= variants@.len(),
                    out@ == head + variant_list(texts(variants@), i as int),
                decreases variants@.len() - i,
            {
                let ghost before = variant_list(texts(variants@), i as int);
                out.append(", ");
                out.append(&variants[i]);
                assert(texts(variants@)[i as int] == variants@[i as int]@);
                assert(out@ =~= head + (before + ", "@ + variants@[i as int]@));
                i = i + 1;
            }
            out.append(">");
            assert(out@ =~= displayed(kind@));
            out
        },
    }
}

/// A type as a value of its own.
#[derive(Debug, PartialEq, Eq)]
pub struct Ty {
    pub kind: TyKind,
}

impl Ty {
    /// The type of `kind`.
    pub fn new(kind: TyKind) -> (r: Ty)
        ensures
            r.kind == kind,
    {
        Ty { kind }
    }
}

/// Writes a type for a reader.
pub fn ty_display(ty: &Ty) -> (r: String)
    ensures
        r@ == displayed(ty.kind@),
{
    display_kind(&ty.kind)
}

// ---------------------------------------------------------------------------
// Assignability and casts
// ---------------------------------------------------------------------------

/// `a <= b` on exclusive upper bounds, where `None` is too large to represent.
pub open spec fn upper_le(a: Option<u128>, b: Option<u128>) -> bool {
    match (a, b) {
        (Some(x), Some(y)) => x <= y,
        (Some(_), None) => true,
        (None, Some(_)) => false,
        (None, None) => true,
    }
}

/// The number of elements of a sequence type.
pub open spec fn sequence_len(t: TyView) -> Option<nat> {
    match t {
        TyView::Tuple(v) => Some(v.len()),
        TyView::Vector(n, _) => Some(n as nat),
        _ => None,
    }
}

/// The type of element `i` of a sequence type.
pub open spec fn sequence_elem(t: TyView, i: int) -> TyView {
    match t {
        TyView::Tuple(v) => v[i],
        TyView::Vector(_, e) => *e,
        _ => t,
    }
}

/// Whether a value of `sub` may stand where `sup` is expected. `Unknown` on
/// either side is accepted, sequences compare element by element, structs and
/// enums by name.
pub open spec fn subtype(sub: TyView, sup: TyView) -> bool
    decreases sub,
{
    match (sub, sup) {
        (TyView::Unknown, _) => true,
        (_, TyView::Unknown) => true,
        (TyView::Boolean, TyView::Boolean) => true,
        (TyView::Field, TyView::Field) => true,
        (TyView::Uint(_), TyView::Field) => true,
        (TyView::Uint(a), TyView::Uint(b)) => upper_le(a, b),
        (TyView::Bytes(a), TyView::Bytes(b)) => a == b,
        (TyView::Struct { name: a, .. }, TyView::Struct { name: b, .. }) => a == b,
        (TyView::Enum { name: a, .. }, TyView::Enum { name: b, .. }) => a == b,
        (TyView::Tuple(v), _) => sequence_len(sup) == Some(v.len()) && forall|i: int|
            0 <= i < v.len() ==> subtype(#[trigger] v[i], sequence_elem(sup, i)),
        (TyView::Vector(n, e), _) => sequence_len(sup) == Some(n as nat) && forall|i: int|
            0 <= i < n ==> subtype(*e, #[trigger] sequence_elem(sup, i)),
        _ => false,
    }
}

/// Whether `src as tgt` is accepted: `Boolean` does not convert to or from
/// `Bytes`, `Bytes` keeps its size, and nothing else is rejected.
pub open spec fn castable(src: TyView, tgt: TyView) -> bool {
    match (src, tgt) {
        (TyView::Boolean, TyView::Bytes(_)) => false,
        (TyView::Bytes(_), TyView::Boolean) => false,
        (TyView::Bytes(a), TyView::Bytes(b)) => a == b,
        _ => true,
    }
}

fn uint_upper_le(a: Option<u128>, b: Option<u128>) -> (r: bool)
    ensures
        r == upper_le(a, b),
{
    match (a, b) {
        (Some(x), Some(y)) => x <= y,
        (Some(_), None) => true,
        (None, Some(_)) => false,
        (None, None) => true,
    }
}

/// Whether a value of `sub` may be used where `sup` is expected.
pub fn is_subtype(sub: &TyKind, sup: &TyKind) -> (r: bool)
    ensures
        r == subtype(sub@, sup@),
    decreases sub,
{
    match (sub, sup) {
        (TyKind::Unknown, _) => true,
        (_, TyKind::Unknown) => true,
        (TyKind::Boolean, TyKind::Boolean) => true,
        (TyKind::Field, TyKind::Field) => true,
        (TyKind::Uint(_), TyKind::Field) => true,
        (TyKind::Uint(a), TyKind::Uint(b)) => uint_upper_le(*a, *b),
        (TyKind::Bytes(a), TyKind::Bytes(b)) => *a == *b,
        (TyKind::Struct { name: a, .. }, TyKind::Struct { name: b, .. }) => same_text(a, b),
        (TyKind::Enum { name: a, .. }, TyKind::Enum { name: b, .. }) => same_text(a, b),
        (TyKind::Tuple(v), _) => {
            proof {
                lemma_tuple_view(*v);
            }
            if !same_seq_len(v.len(), sup) {
                return false;
            }
            let mut i: usize = 0;
            while i < v.len()
                invariant
                    i <= v@.len(),
                    *sub is Tuple,
                    sub->Tuple_0 == *v,
                    sub@ == TyView::Tuple(tys_view(v@)),
                    sequence_len(sup@) == Some(v@.len()),
                    !(sup@ is Unknown),
                    forall|j: int|
                        0 <= j < i ==> subtype(
                            #[trigger] tys_view(v@)[j],
                            sequence_elem(sup@, j),
                        ),
                decreases v@.len() - i,
            {
                assert(decreases_to!(*v => v@[i as int]));
                let e = seq_elem(sup, i);
                assert(tys_view(v@)[i as int] == v@[i as int]@);
                if !is_subtype(&v[i], e) {
                    assert(!subtype(tys_view(v@)[i as int], sequence_elem(sup@, i as int)));
                    return false;
                }
                i = i + 1;
            }
            true
        },
        (TyKind::Vector(n, e), TyKind::Vector(m, f)) => {
            if *n != *m {
                return false;
            }
            if *n == 0 {
                return true;
            }
            let ok: bool = is_subtype(e, f);
            assert(sequence_elem(sup@, 0) == f@);
            assert(forall|i: int| 0 <= i < *n ==> #[trigger] sequence_elem(sup@, i) == f@);
            ok
        },
        (TyKind::Vector(n, e), TyKind::Tuple(w)) => {
            proof {
                lemma_tuple_view(*w);
            }
            if *n as usize != w.len() {
                return false;
            }
            let mut i: usize = 0;
            while i < w.len()
                invariant
                    i <= w@.len(),
                    *n == w@.len(),
                    *sub is Vector,
                    sub->Vector_1 == *e,
                    sub@ == TyView::Vector(*n, Box::new(e@)),
                    sup@ == TyView::Tuple(tys_view(w@)),
                    forall|j: int| 0 <= j < i ==> subtype(e@, #[trigger] sequence_elem(sup@, j)),
                decreases w@.len() - i,
            {
                assert(sequence_elem(sup@, i as int) == w@[i as int]@);
                if !is_subtype(e, &w[i]) {
                    assert(!subtype(e@, sequence_elem(sup@, i as int)));
                    return false;
                }
                i = i + 1;
            }
            true
        },
        _ => false,
    }
}

fn same_seq_len(n: usize, t: &TyKind) -> (r: bool)
    ensures
        r == (sequence_len(t@) == Some(n as nat)),
{
    match t {
        TyKind::Tuple(v) => {
            proof {
                lemma_tuple_view(*v);
            }
            v.len() == n
        },
        TyKind::Vector(m, _) => *m as usize == n,
        _ => false,
    }
}

/// The type of element `i` of a sequence type.
fn seq_elem<'a>(t: &'a TyKind, i: usize) -> (r: &'a TyKind)
    requires
        sequence_len(t@) matches Some(n) && i < n,
    ensures
        r@ == sequence_elem(t@, i as int),
{
    match t {
        TyKind::Tuple(v) => {
            proof {
                lemma_tuple_view(*v);
                assert(tys_view(v@)[i as int] == v@[i as int]@);
            }
            &v[i]
        },
        TyKind::Vector(_, e) => e,
        _ => t,
    }
}

/// Whether a cast from `src` to `tgt` is accepted.
pub fn can_cast(src: &TyKind, tgt: &TyKind) -> (r: bool)
    ensures
        r == castable(src@, tgt@),
{
    match (src, tgt) {
        (TyKind::Boolean, TyKind::Bytes(_)) => false,
        (TyKind::Bytes(_), TyKind::Boolean) => false,
        (TyKind::Bytes(a), TyKind::Bytes(b)) => *a == *b,
        _ => true,
    }
}

// ---------------------------------------------------------------------------
// Laws
// ---------------------------------------------------------------------------

/// `Unknown` on either side never causes a mismatch or an illegal cast.
pub proof fn law_unknown_suppresses(t: TyView)
    ensures
        subtype(TyView::Unknown, t),
        subtype(t, TyView::Unknown),
        castable(TyView::Unknown, t),
        castable(t, TyView::Unknown),
{
}

/// Every type may be used as itself.
pub proof fn law_subtype_reflexive(t: TyView)
    ensures
        subtype(t, t),
    decreases t,
{
    match t {
        TyView::Tuple(v) => {
            assert forall|i: int| 0 <= i < v.len() implies subtype(
                #[trigger] v[i],
                sequence_elem(t, i),
            ) by {
                law_subtype_reflexive(v[i]);
            }
        },
        TyView::Vector(n, e) => {
            law_subtype_reflexive(*e);
        },
        _ => {},
    }
}

/// No part of the type is `Unknown`, as far as assignability looks.
pub open spec fn fully_known(t: TyView) -> bool
    decreases t,
{
    match t {
        TyView::Unknown => false,
        TyView::Tuple(v) => forall|i: int| 0 <= i < v.len() ==> fully_known(#[trigger] v[i]),
        TyView::Vector(_, e) => fully_known(*e),
        _ => true,
    }
}

/// Assignability composes through a type that is fully known.
pub proof fn law_subtype_transitive(a: TyView, b: TyView, c: TyView)
    requires
        subtype(a, b),
        subtype(b, c),
        fully_known(b),
    ensures
        subtype(a, c),
    decreases a,
{
    if !(a is Unknown) && !(c is Unknown) {
        match a {
            TyView::Tuple(v) => {
                assert forall|i: int| 0 <= i < v.len() implies subtype(
                    #[trigger] v[i],
                    sequence_elem(c, i),
                ) by {
                    lemma_elem_step(b, c, i);
                    law_subtype_transitive(v[i], sequence_elem(b, i), sequence_elem(c, i));
                }
            },
            TyView::Vector(n, e) => {
                assert forall|i: int| 0 <= i < n implies subtype(
                    *e,
                    #[trigger] sequence_elem(c, i),
                ) by {
                    assert(subtype(*e, sequence_elem(b, i)));
                    lemma_elem_step(b, c, i);
                    law_subtype_transitive(*e, sequence_elem(b, i), sequence_elem(c, i));
                }
            },
            _ => {},
        }
    }
}

proof fn lemma_elem_step(b: TyView, c: TyView, i: int)
    requires
        subtype(b, c),
        fully_known(b),
        !(c is Unknown),
        sequence_len(b) matches Some(n) && 0 <= i < n,
    ensures
        subtype(sequence_elem(b, i), sequence_elem(c, i)),
        fully_known(sequence_elem(b, i)),
        sequence_len(c) == sequence_len(b),
{
    match b {
        TyView::Tuple(w) => {
            assert(subtype(w[i], sequence_elem(c, i)));
            assert(fully_known(w[i]));
        },
        TyView::Vector(m, f) => {
            assert(subtype(*f, sequence_elem(c, i)));
        },
        _ => {},
    }
}

/// A vector and the tuple that repeats its element type stand for each other.
pub proof fn law_vector_is_tuple(n: u32, e: TyView)
    ensures
        subtype(
            TyView::Vector(n, Box::new(e)),
            TyView::Tuple(Seq::new(n as nat, |i: int| e)),
        ),
        subtype(
            TyView::Tuple(Seq::new(n as nat, |i: int| e)),
            TyView::Vector(n, Box::new(e)),
        ),
{
    law_subtype_reflexive(e);
    let v = TyView::Vector(n, Box::new(e));
    let t = TyView::Tuple(Seq::new(n as nat, |i: int| e));
    assert(forall|i: int| 0 <= i < n ==> #[trigger] sequence_elem(t, i) == e);
    assert(forall|i: int| #[trigger] sequence_elem(v, i) == e);
}

/// Cast legality does not depend on the direction.
pub proof fn law_cast_symmetric(a: TyView, b: TyView)
    ensures
        castable(a, b) == castable(b, a),
{
}

/// Whatever may be assigned may be cast.
pub proof fn law_subtype_casts(a: TyView, b: TyView)
    requires
        subtype(a, b),
    ensures
        castable(a, b),
{
}

/// Which of the simple types may stand where another is expected: every number
/// where a field element is, a smaller number where a larger one is, bytes where
/// bytes of the same length are; a Boolean only where a Boolean is.
pub proof fn law_assignability_of_simple_types(a: u128, b: u128, m: u32, n: u32)
    ensures
        !subtype(TyView::Boolean, TyView::Field),
        !subtype(TyView::Boolean, TyView::Uint(Some(a))),
        !subtype(TyView::Boolean, TyView::Uint(None)),
        !subtype(TyView::Boolean, TyView::Bytes(n)),
        !subtype(TyView::Field, TyView::Boolean),
        !subtype(TyView::Field, TyView::Uint(Some(a))),
        !subtype(TyView::Field, TyView::Bytes(n)),
        subtype(TyView::Uint(Some(a)), TyView::Field),
        subtype(TyView::Uint(None), TyView::Field),
        !subtype(TyView::Uint(Some(a)), TyView::Boolean),
        !subtype(TyView::Uint(Some(a)), TyView::Bytes(n)),
        subtype(TyView::Uint(Some(a)), TyView::Uint(Some(b))) <==> a <= b,
        subtype(TyView::Uint(Some(a)), TyView::Uint(None)),
        !subtype(TyView::Uint(None), TyView::Uint(Some(a))),
        subtype(TyView::Bytes(m), TyView::Bytes(n)) <==> m == n,
        !subtype(TyView::Bytes(m), TyView::Field),
        !subtype(TyView::Bytes(m), TyView::Boolean),
        !subtype(TyView::Bytes(m), TyView::Uint(Some(a))),
{
}

/// Structs and enums are told apart by name, and from each other and from the
/// simple types.
pub proof fn law_named_types_by_name(
    a: Seq<char>,
    b: Seq<char>,
    f: Seq<(Seq<char>, TyView)>,
    g: Seq<(Seq<char>, TyView)>,
    v: Seq<Seq<char>>,
    w: Seq<Seq<char>>,
)
    ensures
        subtype(TyView::Struct { name: a, fields: f }, TyView::Struct { name: b, fields: g }) <==> a
            == b,
        subtype(TyView::Enum { name: a, variants: v }, TyView::Enum { name: b, variants: w }) <==> a
            == b,
        !subtype(TyView::Struct { name: a, fields: f }, TyView::Enum { name: b, variants: w }),
        !subtype(TyView::Enum { name: a, variants: v }, TyView::Struct { name: b, fields: g }),
        !subtype(TyView::Struct { name: a, fields: f }, TyView::Field),
        !subtype(TyView::Boolean, TyView::Struct { name: b, fields: g }),
        !subtype(TyView::Enum { name: a, variants: v }, TyView::Field),
{
}

/// A tuple may stand where a sequence of the same length is expected exactly
/// where each of its elements may; one of another length never.
pub proof fn law_sequences_by_element(v: Seq<TyView>, w: Seq<TyView>, n: u32, e: TyView)
    ensures
        subtype(TyView::Tuple(v), TyView::Tuple(w)) <==> v.len() == w.len() && forall|i: int|
            0 <= i < v.len() ==> subtype(#[trigger] v[i], w[i]),
        subtype(TyView::Tuple(v), TyView::Vector(n, Box::new(e))) <==> v.len() == n && forall|i: int|
            0 <= i < v.len() ==> subtype(#[trigger] v[i], e),
        !subtype(TyView::Tuple(v), TyView::Field),
        !subtype(TyView::Boolean, TyView::Tuple(w)),
        !subtype(TyView::Bytes(n), TyView::Vector(n, Box::new(e))),
{
    assert(forall|i: int| #![trigger v[i]] sequence_elem(TyView::Tuple(w), i) == w[i]);
    assert(forall|i: int| #![trigger v[i]] sequence_elem(TyView::Vector(n, Box::new(e)), i) == e);
    if subtype(TyView::Tuple(v), TyView::Tuple(w)) {
        assert forall|i: int| 0 <= i < v.len() implies subtype(#[trigger] v[i], w[i]) by {
            assert(subtype(v[i], sequence_elem(TyView::Tuple(w), i)));
        }
    }
    if v.len() == w.len() && forall|i: int| 0 <= i < v.len() ==> subtype(#[trigger] v[i], w[i]) {
        assert forall|i: int| 0 <= i < v.len() implies subtype(
            #[trigger] v[i],
            sequence_elem(TyView::Tuple(w), i),
        ) by {
            assert(subtype(v[i], w[i]));
        }
    }
}

/// A cast is refused only between Booleans and bytes, and between bytes of
/// different lengths.
pub proof fn law_refused_casts(a: TyView, b: TyView)
    ensures
        !castable(a, b) <==> (a is Boolean && b is Bytes) || (a is Bytes && b is Boolean) || (
        a is Bytes && b is Bytes && a != b),
{
}

} // verus!
