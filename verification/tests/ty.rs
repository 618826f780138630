//! Tests of types and the relations between them.

use analyzer_core::ty::TyKind::{Boolean, Bytes, Field, Tuple, Uint, Unknown, Vector};
use analyzer_core::ty::{can_cast, display_kind, is_subtype, ty_display, Ty, TyKind};

#[test]
fn interning_gives_id_equality() {
    let a = Ty::new(TyKind::Boolean);
    let b = Ty::new(TyKind::Boolean);
    let c = Ty::new(TyKind::Field);
    assert_eq!(a, b);
    assert_ne!(a, c);
}

#[test]
fn display_projects_to_strings() {
    assert_eq!(ty_display(&Ty::new(TyKind::Boolean)), "Boolean");
    assert_eq!(ty_display(&Ty::new(TyKind::Field)), "Field");
    assert_eq!(ty_display(&Ty::new(TyKind::Unknown)), "?");
}

#[test]
fn uint_display_normalizes_power_of_two() {
    assert_eq!(
        ty_display(&Ty::new(TyKind::Uint(Some(256)))),
        "Uint<8>"
    );
    assert_eq!(
        ty_display(&Ty::new(TyKind::Uint(Some(2)))),
        "Uint<1>"
    );
    assert_eq!(
        ty_display(&Ty::new(TyKind::Uint(Some(10)))),
        "Uint<0..10>"
    );
    assert_eq!(
        ty_display(&Ty::new(TyKind::Uint(Some(1)))),
        "Uint<0..1>"
    );
    assert_eq!(
        ty_display(&Ty::new(TyKind::Uint(Some(257)))),
        "Uint<0..257>"
    );
    assert_eq!(
        ty_display(&Ty::new(TyKind::Uint(None))),
        "Uint<0..?>"
    );
}

#[test]
fn uint_interns_by_bound() {
    let a = Ty::new(TyKind::Uint(Some(256)));
    let b = Ty::new(TyKind::Uint(Some(256)));
    let c = Ty::new(TyKind::Uint(Some(255)));
    assert_eq!(a, b);
    assert_ne!(a, c);
}

#[test]
fn bytes_display_and_interning() {
    assert_eq!(
        ty_display(&Ty::new(TyKind::Bytes(32))),
        "Bytes<32>"
    );
    assert_eq!(ty_display(&Ty::new(TyKind::Bytes(1))), "Bytes<1>");
    let a = Ty::new(TyKind::Bytes(32));
    let b = Ty::new(TyKind::Bytes(32));
    let c = Ty::new(TyKind::Bytes(4));
    assert_eq!(a, b);
    assert_ne!(a, c);
}

#[test]
fn subtype_lattice_matches_compiler() {
    assert!(is_subtype(&Boolean, &Boolean));
    assert!(is_subtype(&Field, &Field));
    assert!(is_subtype(&Uint(Some(6)), &Uint(Some(10))));
    assert!(!is_subtype(&Uint(Some(12)), &Uint(Some(10))));
    assert!(is_subtype(&Uint(Some(10)), &Uint(Some(10))));
    assert!(is_subtype(&Uint(Some(256)), &Uint(Some(65536))));
    assert!(!is_subtype(&Uint(Some(65536)), &Uint(Some(256))));
    assert!(is_subtype(&Uint(Some(256)), &Field));
    assert!(!is_subtype(&Field, &Uint(Some(256))));
    assert!(!is_subtype(&Boolean, &Field));
    assert!(!is_subtype(&Field, &Boolean));
    assert!(!is_subtype(&Boolean, &Uint(Some(256))));
    assert!(!is_subtype(&Uint(Some(256)), &Boolean));
    assert!(is_subtype(&Uint(Some(5)), &Uint(None)));
    assert!(!is_subtype(&Uint(None), &Uint(Some(5))));
    assert!(is_subtype(&Uint(None), &Uint(None)));
    assert!(is_subtype(&Uint(None), &Field));
    assert!(is_subtype(&Unknown, &Field));
    assert!(is_subtype(&Boolean, &Unknown));
}

#[test]
fn bytes_subtype_is_same_size_only() {
    assert!(is_subtype(&Bytes(32), &Bytes(32)));
    assert!(is_subtype(&Bytes(1), &Bytes(1)));
    assert!(!is_subtype(&Bytes(4), &Bytes(32)));
    assert!(!is_subtype(&Bytes(32), &Bytes(4)));
    assert!(!is_subtype(&Bytes(32), &Field));
    assert!(!is_subtype(&Field, &Bytes(32)));
    assert!(!is_subtype(&Bytes(32), &Uint(Some(256))));
    assert!(!is_subtype(&Uint(Some(256)), &Bytes(32)));
    assert!(!is_subtype(&Bytes(32), &Boolean));
    assert!(!is_subtype(&Boolean, &Bytes(32)));
    assert!(is_subtype(&Unknown, &Bytes(32)));
    assert!(is_subtype(&Bytes(32), &Unknown));
}

#[test]
fn can_cast_matches_compiler() {
    assert!(!can_cast(&Boolean, &Bytes(32)));
    assert!(!can_cast(&Bytes(32), &Boolean));
    assert!(!can_cast(&Bytes(32), &Bytes(4)));
    assert!(!can_cast(&Bytes(4), &Bytes(32)));
    assert!(can_cast(&Bytes(32), &Bytes(32)));
    assert!(can_cast(&Boolean, &Field));
    assert!(can_cast(&Field, &Boolean));
    assert!(can_cast(&Boolean, &Uint(Some(256))));
    assert!(can_cast(&Uint(Some(6)), &Boolean));
    assert!(can_cast(&Uint(Some(6)), &Bytes(32)));
    assert!(can_cast(&Bytes(32), &Uint(Some(256))));
    assert!(can_cast(&Field, &Bytes(4)));
    assert!(can_cast(&Bytes(4), &Field));
    assert!(can_cast(&Uint(Some(256)), &Uint(Some(6))));
    assert!(can_cast(&Unknown, &Bytes(32)));
    assert!(can_cast(&Boolean, &Unknown));
}

#[test]
fn tuple_and_vector_display() {
    let tup = TyKind::Tuple(vec![TyKind::Uint(Some(256)), TyKind::Boolean]);
    assert_eq!(ty_display(&Ty::new(tup)), "[Uint<8>, Boolean]");
    let vec = TyKind::Vector(3, Box::new(TyKind::Uint(Some(256))));
    assert_eq!(ty_display(&Ty::new(vec)), "Vector<3, Uint<8>>");
    assert_eq!(
        ty_display(&Ty::new(TyKind::Tuple(vec![]))),
        "[]"
    );
}

#[test]
fn sequence_subtyping_matches_compiler() {
    let u8k = || Uint(Some(256));
    let u16k = || Uint(Some(65536));
    let tup = |v: Vec<TyKind>| Tuple(v);
    let vec = |n, t| Vector(n, Box::new(t));

    assert!(is_subtype(
        &tup(vec![u8k(), u8k()]),
        &tup(vec![u16k(), Field])
    ));
    assert!(!is_subtype(
        &tup(vec![u16k(), u16k()]),
        &tup(vec![u8k(), u8k()])
    ));
    assert!(!is_subtype(
        &tup(vec![u8k(), Boolean]),
        &tup(vec![u16k(), Field])
    ));
    assert!(!is_subtype(&tup(vec![u8k(), u8k()]), &tup(vec![u8k()])));
    assert!(is_subtype(&vec(3, u8k()), &vec(3, u16k())));
    assert!(!is_subtype(&vec(3, u16k()), &vec(3, u8k())));
    assert!(!is_subtype(&vec(3, u8k()), &vec(2, u8k())));
    assert!(is_subtype(&vec(3, u8k()), &tup(vec![u8k(), u8k(), u8k()])));
    assert!(is_subtype(&tup(vec![u8k(), u8k(), u8k()]), &vec(3, u8k())));
    assert!(is_subtype(&vec(2, u8k()), &tup(vec![u16k(), Field])));
    assert!(is_subtype(&tup(vec![u8k(), u8k()]), &vec(2, Field)));
    assert!(!is_subtype(&tup(vec![u8k(), Boolean]), &vec(2, Field)));
    assert!(is_subtype(
        &vec(2, tup(vec![u8k(), u8k()])),
        &vec(2, tup(vec![u16k(), Field]))
    ));
    assert!(is_subtype(
        &tup(vec![Unknown, Boolean]),
        &tup(vec![u8k(), Boolean])
    ));
    assert!(!is_subtype(&tup(vec![u8k()]), &u8k()));
    assert!(!is_subtype(&u8k(), &vec(1, u8k())));
}

#[test]
fn struct_display_is_its_name() {
    let s = TyKind::Struct {
        name: "S".to_string(),
        fields: vec![("a".to_string(), TyKind::Field)],
    };
    assert_eq!(display_kind(&s), "S");
}

#[test]
fn enum_display_lists_variants() {
    let e = TyKind::Enum {
        name: "E".to_string(),
        variants: vec!["A".to_string(), "B".to_string()],
    };
    assert_eq!(display_kind(&e), "Enum<E, A, B>");
}

#[test]
fn struct_subtype_is_nominal_same_name() {
    let s1 = TyKind::Struct {
        name: "S".to_string(),
        fields: vec![("a".to_string(), TyKind::Field)],
    };
    let s2 = s1.clone();
    let other = TyKind::Struct {
        name: "T".to_string(),
        fields: vec![("a".to_string(), TyKind::Field)],
    };
    assert!(is_subtype(&s1, &s2));
    assert!(!is_subtype(&s1, &other));
    assert!(is_subtype(&s1, &TyKind::Unknown));
}

#[test]
fn enum_subtype_is_nominal_same_name() {
    let e1 = TyKind::Enum {
        name: "E".to_string(),
        variants: vec!["A".to_string()],
    };
    let e2 = e1.clone();
    let f = TyKind::Enum {
        name: "F".to_string(),
        variants: vec!["A".to_string()],
    };
    assert!(is_subtype(&e1, &e2));
    assert!(!is_subtype(&e1, &f));
}
