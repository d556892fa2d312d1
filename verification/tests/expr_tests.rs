use std::collections::HashMap;

use boolean_expression::Expr;

fn terminal(t: u64) -> Expr {
    Expr::Terminal(t)
}

fn assignment(pairs: &[(u64, bool)]) -> HashMap<u64, bool> {
    let mut m = HashMap::new();
    for &(k, v) in pairs {
        m.insert(k, v);
    }
    m
}

/// XOR of terminals 0, 1 and 2 as a disjunction of the four odd-parity
/// minterms.
fn xor3() -> Expr {
    let m1 = Expr::and(
        Expr::and(Expr::not(terminal(0)), Expr::not(terminal(1))),
        terminal(2),
    );
    let m2 = Expr::and(Expr::and(Expr::not(terminal(0)), terminal(1)), Expr::not(terminal(2)));
    let m3 = Expr::and(Expr::and(terminal(0), Expr::not(terminal(1))), Expr::not(terminal(2)));
    let m4 = Expr::and(Expr::and(terminal(0), terminal(1)), terminal(2));
    Expr::or(Expr::or(m1, m2), Expr::or(m3, m4))
}

/// Checks that the tree obeys the simplified node ordering: no AND node
/// with an OR child, and NOT nodes only around terminals or constants.
fn shape_holds(e: &Expr) -> bool {
    match e {
        Expr::Terminal(_) => true,
        Expr::Const(_) => true,
        Expr::Not(x) => matches!(**x, Expr::Terminal(_)) || matches!(**x, Expr::Const(_)),
        Expr::And(x, y) => {
            !x.is_or() && !y.is_or() && shape_holds(x) && shape_holds(y)
        },
        Expr::Or(x, y) => shape_holds(x) && shape_holds(y),
    }
}

#[test]
fn predicates_classify_nodes() {
    assert!(terminal(3).is_terminal());
    assert!(!terminal(3).is_const());
    assert!(Expr::Const(true).is_const());
    assert!(Expr::not(terminal(0)).is_not());
    assert!(Expr::and(terminal(0), terminal(1)).is_and());
    assert!(Expr::or(terminal(0), terminal(1)).is_or());
    assert!(!Expr::or(terminal(0), terminal(1)).is_and());
}

#[test]
fn evaluate_defaults_unassigned_to_false() {
    let e = terminal(42);
    let empty = assignment(&[]);
    assert!(!e.evaluate(&empty));
    let set = assignment(&[(42, true)]);
    assert!(e.evaluate(&set));
    let cleared = assignment(&[(42, false)]);
    assert!(!e.evaluate(&cleared));
}

#[test]
fn evaluate_connectives() {
    let a = assignment(&[(0, true), (1, false)]);
    assert!(Expr::Const(true).evaluate(&a));
    assert!(!Expr::Const(false).evaluate(&a));
    assert!(!Expr::and(terminal(0), terminal(1)).evaluate(&a));
    assert!(Expr::or(terminal(0), terminal(1)).evaluate(&a));
    assert!(!Expr::not(terminal(0)).evaluate(&a));
    assert!(Expr::not(terminal(1)).evaluate(&a));
}

#[test]
fn xor3_evaluation_scenario() {
    let e = xor3();
    assert_eq!(e.evaluate(&assignment(&[(0, true), (1, false), (2, false)])), true);
    assert_eq!(e.evaluate(&assignment(&[(0, true), (1, true), (2, false)])), false);
    assert_eq!(e.evaluate(&assignment(&[(0, true), (1, true), (2, true)])), true);
}

#[test]
fn simplify_double_negation() {
    let e = Expr::not(Expr::not(terminal(5)));
    assert_eq!(e.simplify(), terminal(5));
}

#[test]
fn simplify_de_morgan() {
    let e = Expr::not(Expr::and(terminal(0), terminal(1)));
    let expected = Expr::or(Expr::not(terminal(0)), Expr::not(terminal(1)));
    assert_eq!(e.simplify(), expected);

    let e2 = Expr::not(Expr::or(terminal(0), terminal(1)));
    let expected2 = Expr::and(Expr::not(terminal(0)), Expr::not(terminal(1)));
    assert_eq!(e2.simplify(), expected2);
}

#[test]
fn simplify_constants() {
    assert_eq!(Expr::and(Expr::Const(false), terminal(0)).simplify(), Expr::Const(false));
    assert_eq!(Expr::and(Expr::Const(true), terminal(0)).simplify(), terminal(0));
    assert_eq!(Expr::or(Expr::Const(true), terminal(0)).simplify(), Expr::Const(true));
    assert_eq!(Expr::or(Expr::Const(false), terminal(0)).simplify(), terminal(0));
    assert_eq!(Expr::not(Expr::Const(true)).simplify(), Expr::Const(false));
    assert_eq!(Expr::not(Expr::Const(false)).simplify(), Expr::Const(true));
}

#[test]
fn simplify_distributes_and_over_or() {
    let e = Expr::and(Expr::or(terminal(0), terminal(1)), terminal(2));
    let expected = Expr::or(
        Expr::and(terminal(0), terminal(2)),
        Expr::and(terminal(1), terminal(2)),
    );
    assert_eq!(e.simplify(), expected);
}

#[test]
fn simplify_preserves_semantics_on_all_assignments() {
    // Semantic preservation checked over every assignment of three
    // terminals, for a tree mixing every connective.
    let build = || {
        Expr::not(Expr::or(
            Expr::and(terminal(0), Expr::not(terminal(1))),
            Expr::and(Expr::or(terminal(1), Expr::Const(false)), terminal(2)),
        ))
    };
    let simplified = build().simplify();
    for bits in 0..8u32 {
        let a = assignment(&[
            (0, bits & 1 != 0),
            (1, bits & 2 != 0),
            (2, bits & 4 != 0),
        ]);
        assert_eq!(simplified.evaluate(&a), build().evaluate(&a));
    }
}

#[test]
fn simplify_output_has_sum_of_products_shape() {
    let e = Expr::not(Expr::or(
        Expr::and(terminal(0), Expr::not(Expr::not(terminal(1)))),
        Expr::and(Expr::or(terminal(1), terminal(2)), Expr::not(terminal(2))),
    ));
    let s = e.simplify();
    assert!(shape_holds(&s));
    let x = xor3().simplify();
    assert!(shape_holds(&x));
}

#[test]
fn simplify_is_idempotent() {
    let e = Expr::not(Expr::or(
        Expr::and(terminal(0), Expr::not(terminal(1))),
        Expr::and(terminal(1), terminal(2)),
    ));
    let once = e.simplify();
    let twice = once.dup().simplify();
    // A tree already in simplified shape comes back unchanged.
    assert_eq!(twice, once);
    for bits in 0..8u32 {
        let a = assignment(&[
            (0, bits & 1 != 0),
            (1, bits & 2 != 0),
            (2, bits & 4 != 0),
        ]);
        assert_eq!(once.evaluate(&a), twice.evaluate(&a));
    }
}

#[test]
fn dup_makes_equal_copy() {
    let e = xor3();
    assert_eq!(e.dup(), e);
}

#[test]
fn simplify_is_deterministic() {
    let build = || {
        Expr::not(Expr::or(
            Expr::and(terminal(0), Expr::not(terminal(1))),
            Expr::and(Expr::or(terminal(1), terminal(2)), Expr::not(terminal(2))),
        ))
    };
    // Structurally equal inputs give structurally equal result trees.
    assert_eq!(build().simplify(), build().simplify());
}

#[test]
fn simplify_introduces_no_terminals() {
    let e = Expr::and(Expr::Const(false), terminal(0));
    assert_eq!(e.simplify(), Expr::Const(false));
    let collected = |e: &Expr| {
        fn walk(e: &Expr, out: &mut Vec<u64>) {
            match e {
                Expr::Terminal(t) => out.push(*t),
                Expr::Const(_) => {},
                Expr::Not(x) => walk(x, out),
                Expr::And(x, y) | Expr::Or(x, y) => {
                    walk(x, out);
                    walk(y, out);
                },
            }
        }
        let mut out = Vec::new();
        walk(e, &mut out);
        out
    };
    let input = Expr::not(Expr::or(
        Expr::and(terminal(3), Expr::not(terminal(4))),
        Expr::and(terminal(4), terminal(5)),
    ));
    let in_terms = collected(&input);
    let out_terms = collected(&input.simplify());
    for t in out_terms {
        assert!(in_terms.contains(&t));
    }
}
