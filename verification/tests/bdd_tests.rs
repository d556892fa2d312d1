use std::collections::HashMap;

use boolean_expression::Bdd;
use boolean_expression::BoolOp;
use boolean_expression::Expr;
use boolean_expression::BDD_ONE;
use boolean_expression::BDD_ZERO;

fn terminal(t: u64) -> Expr {
    Expr::Terminal(t)
}

fn assignment(pairs: &[(u64, bool)]) -> HashMap<u64, bool> {
    let mut m = HashMap::new();
    for &(k, v) in pairs {
        m.insert(k, v);
    }
    m
}

/// XOR of terminals 0, 1 and 2 as a disjunction of the four odd-parity
/// minterms (the De-Morgan-expanded disjunctive form).
fn xor3_direct() -> Expr {
    let m1 = Expr::and(
        Expr::and(Expr::not(terminal(0)), Expr::not(terminal(1))),
        terminal(2),
    );
    let m2 = Expr::and(Expr::and(Expr::not(terminal(0)), terminal(1)), Expr::not(terminal(2)));
    let m3 = Expr::and(Expr::and(terminal(0), Expr::not(terminal(1))), Expr::not(terminal(2)));
    let m4 = Expr::and(Expr::and(terminal(0), terminal(1)), terminal(2));
    Expr::or(Expr::or(m1, m2), Expr::or(m3, m4))
}

/// XOR of two expressions by if-then-else composition:
/// `if a then not b else b`.
fn xor_ite(a: Expr, b: Expr) -> Expr {
    Expr::or(
        Expr::and(a.dup(), Expr::not(b.dup())),
        Expr::and(Expr::not(a), b),
    )
}

/// XOR of terminals 0, 1 and 2 by nested if-then-else composition.
fn xor3_nested() -> Expr {
    xor_ite(xor_ite(terminal(0), terminal(1)), terminal(2))
}

#[test]
fn terminal_functions_are_reserved_ids() {
    let b = Bdd::new();
    assert_eq!(b.terminal_func(false), BDD_ZERO);
    assert_eq!(b.terminal_func(true), BDD_ONE);
    assert_eq!(b.node_count(), 2);
    assert_eq!(b.var_count(), 0);
}

#[test]
fn terminal_functions_evaluate_to_constants() {
    let b = Bdd::new();
    let a = assignment(&[(0, true)]);
    assert!(!b.evaluate(BDD_ZERO, &a));
    assert!(b.evaluate(BDD_ONE, &a));
}

#[test]
fn var_func_assigns_ranks_by_first_use() {
    let mut b = Bdd::new();
    let f7 = b.var_func(7);
    let f3 = b.var_func(3);
    assert_ne!(f7, f3);
    // Repeated registration hands back the same function.
    assert_eq!(b.var_func(7), f7);
    assert_eq!(b.var_func(3), f3);
    assert_eq!(b.var_count(), 2);
    let a = assignment(&[(7, true)]);
    assert!(b.evaluate(f7, &a));
    assert!(!b.evaluate(f3, &a));
}

#[test]
fn mk_node_reduction_rule() {
    let mut b = Bdd::new();
    let v = b.var_func(0);
    // A node whose branches agree collapses to that child.
    assert_eq!(b.mk_node(0, BDD_ZERO, BDD_ZERO), BDD_ZERO);
    assert_eq!(b.mk_node(0, BDD_ONE, BDD_ONE), BDD_ONE);
    assert_eq!(b.mk_node(0, v, v), v);
}

#[test]
fn mk_node_hash_consing() {
    let mut b = Bdd::new();
    let _ = b.var_func(0);
    let n1 = b.mk_node(0, BDD_ZERO, BDD_ONE);
    let n2 = b.mk_node(0, BDD_ZERO, BDD_ONE);
    assert_eq!(n1, n2);
}

#[test]
fn apply_terminal_rules() {
    let mut b = Bdd::new();
    let v = b.var_func(0);
    assert_eq!(b.apply(BoolOp::And, v, BDD_ZERO), BDD_ZERO);
    assert_eq!(b.apply(BoolOp::And, v, BDD_ONE), v);
    assert_eq!(b.apply(BoolOp::Or, v, BDD_ONE), BDD_ONE);
    assert_eq!(b.apply(BoolOp::Or, v, BDD_ZERO), v);
}

#[test]
fn not_func_swaps_terminals() {
    let mut b = Bdd::new();
    assert_eq!(b.not_func(BDD_ZERO), BDD_ONE);
    assert_eq!(b.not_func(BDD_ONE), BDD_ZERO);
    let v = b.var_func(9);
    let nv = b.not_func(v);
    let a1 = assignment(&[(9, true)]);
    let a0 = assignment(&[]);
    assert!(!b.evaluate(nv, &a1));
    assert!(b.evaluate(nv, &a0));
    // Double complement returns the original function id.
    assert_eq!(b.not_func(nv), v);
}

#[test]
fn from_expr_agrees_with_expr_evaluate_on_all_assignments() {
    let e = xor3_direct();
    let mut b = Bdd::new();
    let f = b.from_expr(&e);
    for bits in 0..8u32 {
        let a = assignment(&[
            (0, bits & 1 != 0),
            (1, bits & 2 != 0),
            (2, bits & 4 != 0),
        ]);
        assert_eq!(b.evaluate(f, &a), e.evaluate(&a));
    }
}

#[test]
fn from_expr_works_on_raw_and_simplified_trees_alike() {
    let raw = Expr::not(Expr::or(
        Expr::and(terminal(0), Expr::not(terminal(1))),
        Expr::and(terminal(1), terminal(2)),
    ));
    let simplified = raw.dup().simplify();
    let mut b = Bdd::new();
    let f_raw = b.from_expr(&raw);
    let f_simplified = b.from_expr(&simplified);
    assert_eq!(f_raw, f_simplified);
}

#[test]
fn xor3_bdd_evaluation_scenario() {
    let mut b = Bdd::new();
    let f = b.from_expr(&xor3_direct());
    assert_eq!(b.evaluate(f, &assignment(&[(0, true), (1, false), (2, false)])), true);
    assert_eq!(b.evaluate(f, &assignment(&[(0, true), (1, true), (2, false)])), false);
    assert_eq!(b.evaluate(f, &assignment(&[(0, true), (1, true), (2, true)])), true);
}

#[test]
fn canonicity_two_construction_paths_share_one_id() {
    let mut b = Bdd::new();
    let f_direct = b.from_expr(&xor3_direct());
    let f_nested = b.from_expr(&xor3_nested());
    assert_eq!(f_direct, f_nested);
}

#[test]
fn restrict_fixes_one_variable() {
    let mut b = Bdd::new();
    let f = b.from_expr(&xor3_direct());
    let f_a_true = b.restrict(f, 0, true);
    for bits in 0..4u32 {
        let without_a = assignment(&[(1, bits & 1 != 0), (2, bits & 2 != 0)]);
        let mut with_a = assignment(&[(1, bits & 1 != 0), (2, bits & 2 != 0)]);
        with_a.insert(0, true);
        assert_eq!(b.evaluate(f_a_true, &without_a), b.evaluate(f, &with_a));
    }
    // Restricting on both values and recombining is the Shannon expansion.
    let f_a_false = b.restrict(f, 0, false);
    assert_ne!(f_a_true, f_a_false);
}

#[test]
fn restrict_on_unknown_terminal_is_identity() {
    let mut b = Bdd::new();
    let f = b.from_expr(&xor3_direct());
    assert_eq!(b.restrict(f, 99, true), f);
}

#[test]
fn sat_count_examples() {
    let mut b = Bdd::new();
    let f = b.from_expr(&xor3_direct());
    // Of the 8 assignments of three variables, the 4 with odd parity
    // satisfy XOR.
    assert_eq!(b.sat_count(f), 4);
    assert_eq!(b.sat_count(BDD_ONE), 8);
    assert_eq!(b.sat_count(BDD_ZERO), 0);
}

#[test]
fn to_dot_of_terminal_is_exact() {
    let b = Bdd::new();
    let text = b.to_dot(BDD_ZERO);
    assert_eq!(text, "digraph bdd {\nn0 [shape=box,label=\"0\"];\n}\n");
}

#[test]
fn to_dot_of_single_variable_is_exact() {
    let mut b = Bdd::new();
    let f = b.var_func(7);
    let text = b.to_dot(f);
    assert_eq!(
        text,
        "digraph bdd {\n\
         n0 [shape=box,label=\"0\"];\n\
         n1 [shape=box,label=\"1\"];\n\
         n2 [label=\"7\"];\n\
         n2 -> n0 [style=dashed];\n\
         n2 -> n1 [style=solid];\n\
         }\n"
    );
}

#[test]
fn to_dot_statement_counts_match_reachable_subgraph() {
    let mut b = Bdd::new();
    let f = b.from_expr(&xor3_direct());
    let text = b.to_dot(f);
    assert!(text.starts_with("digraph bdd {\n"));
    assert!(text.ends_with("}\n"));
    assert_eq!(text.matches('{').count(), 1);
    assert_eq!(text.matches('}').count(), 1);
    let node_statements = text.matches("[label=").count() + text.matches("[shape=box").count();
    let edge_statements = text.matches(" -> ").count();
    // XOR of three variables: the two terminals, one node testing rank 0,
    // and two nodes each testing ranks 1 and 2.
    assert_eq!(node_statements, 7);
    // One low and one high edge per decision node.
    assert_eq!(edge_statements, 10);
}

#[test]
fn engines_do_not_share_state() {
    let mut b1 = Bdd::new();
    let mut b2 = Bdd::new();
    let f1 = b1.from_expr(&xor3_direct());
    let g2 = b2.var_func(5);
    let f2 = b2.from_expr(&xor3_direct());
    assert_eq!(b1.sat_count(f1), 4);
    // The second engine assigned rank 0 to terminal 5 first, so ids differ
    // from the first engine's, but the function is the same.
    assert!(f2 != f1 || g2 == f1);
    for bits in 0..8u32 {
        let a = assignment(&[
            (0, bits & 1 != 0),
            (1, bits & 2 != 0),
            (2, bits & 4 != 0),
        ]);
        assert_eq!(b1.evaluate(f1, &a), b2.evaluate(f2, &a));
    }
}

#[test]
fn to_dot_multi_digit_labels() {
    let mut b = Bdd::new();
    let f = b.var_func(123);
    let text = b.to_dot(f);
    assert_eq!(
        text,
        "digraph bdd {\n\
         n0 [shape=box,label=\"0\"];\n\
         n1 [shape=box,label=\"1\"];\n\
         n2 [label=\"123\"];\n\
         n2 -> n0 [style=dashed];\n\
         n2 -> n1 [style=solid];\n\
         }\n"
    );
}

#[test]
fn sat_count_single_variable() {
    let mut b = Bdd::new();
    let f = b.var_func(5);
    assert_eq!(b.sat_count(f), 1);
    let nf = b.not_func(f);
    assert_eq!(b.sat_count(nf), 1);
}
