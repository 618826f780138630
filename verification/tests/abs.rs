//! Tests of abstract values.

use analyzer_core::disclosure::abs::{
    abs_equal, combine_abs, disclose, merge_witnesses, witnesses_of, Abs, PathPoint, Witness,
    WitnessInfo,
};
use analyzer_core::text::TextRange;

#[test]
fn disclose_clears_all_levels_and_join_unions() {
    let w = Witness {
        uid: 1,
        src: TextRange::empty(0),
        info: WitnessInfo::CircuitArg {
            function: "f".into(),
            arg: "x".into(),
        },
        path: vec![],
    };
    let tainted = Abs::Multiple(vec![
        Abs::Atomic(vec![w.clone()]),
        Abs::Single(Box::new(Abs::Atomic(vec![w.clone()]))),
    ]);
    assert!(witnesses_of(&disclose(&tainted)).is_empty());
    let joined = combine_abs(&Abs::Atomic(vec![w.clone()]), &Abs::Atomic(vec![]));
    assert_eq!(witnesses_of(&joined).len(), 1);
}

#[test]
fn combine_abs_distributes_single_over_multiple() {
    let w = Witness {
        uid: 1,
        src: TextRange::empty(0),
        info: WitnessInfo::CircuitArg {
            function: "f".into(),
            arg: "x".into(),
        },
        path: vec![],
    };
    let multiple = Abs::Multiple(vec![Abs::Atomic(vec![w.clone()])]);
    let single = Abs::Single(Box::new(Abs::Atomic(vec![])));
    let joined = combine_abs(&multiple, &single);
    match joined {
        Abs::Multiple(children) => {
            assert_eq!(children.len(), 1);
            assert_eq!(witnesses_of(&children[0]).len(), 1);
        }
        other => panic!("expected Abs::Multiple, got {other:?}"),
    }
}

#[test]
fn merge_witnesses_unions_paths_on_uid_collision() {
    let path_a = PathPoint {
        src: TextRange::empty(0),
        description: "A".into(),
        exposure: "".into(),
    };
    let path_b = PathPoint {
        src: TextRange::empty(0),
        description: "B".into(),
        exposure: "".into(),
    };
    let info = WitnessInfo::CircuitArg {
        function: "f".into(),
        arg: "x".into(),
    };
    let w1 = Witness {
        uid: 1,
        src: TextRange::empty(0),
        info: info.clone(),
        path: vec![path_a.clone()],
    };
    let w2 = Witness {
        uid: 1,
        src: TextRange::empty(0),
        info,
        path: vec![path_b.clone()],
    };
    let merged = merge_witnesses(&vec![w1], &vec![w2]);
    assert_eq!(merged.len(), 1);
    assert_eq!(merged[0].path, vec![path_a, path_b]);
}

#[test]
fn witnesses_of_dedups_across_multiple_children() {
    let w = Witness {
        uid: 1,
        src: TextRange::empty(0),
        info: WitnessInfo::CircuitArg {
            function: "f".into(),
            arg: "x".into(),
        },
        path: vec![],
    };
    let abs = Abs::Multiple(vec![Abs::Atomic(vec![w.clone()]), Abs::Atomic(vec![w])]);
    assert_eq!(witnesses_of(&abs).len(), 1);
}

#[test]
fn abs_equal_is_structural_and_order_independent() {
    let w1 = Witness {
        uid: 1,
        src: TextRange::empty(0),
        info: WitnessInfo::CircuitArg {
            function: "f".into(),
            arg: "x".into(),
        },
        path: vec![],
    };
    let w2 = Witness {
        uid: 2,
        src: TextRange::empty(0),
        info: WitnessInfo::ConstructorArg { arg: "y".into() },
        path: vec![],
    };
    let a = Abs::Atomic(vec![w1.clone(), w2.clone()]);
    let b = Abs::Atomic(vec![w2.clone(), w1.clone()]);
    assert!(abs_equal(&a, &b));

    assert!(!abs_equal(&a, &Abs::Atomic(vec![w1.clone()])));

    assert!(abs_equal(
        &Abs::Multiple(vec![
            Abs::Atomic(vec![w1.clone()]),
            Abs::Single(Box::new(Abs::Atomic(vec![w2.clone()])))
        ]),
        &Abs::Multiple(vec![
            Abs::Atomic(vec![w1]),
            Abs::Single(Box::new(Abs::Atomic(vec![w2])))
        ]),
    ));
}

#[test]
fn merging_dedups_the_first_list_too() {
    let w = Witness {
        uid: 1,
        src: TextRange::empty(0),
        info: WitnessInfo::ConstructorArg { arg: "x".into() },
        path: vec![],
    };
    let merged = merge_witnesses(&vec![w.clone(), w], &vec![]);
    assert_eq!(merged.len(), 1);
    assert_eq!(merged[0].uid, 1);
}
