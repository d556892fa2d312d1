//! Boolean expression trees over terminal identifiers.
//!
//! An [`Expr`] is an owned tree of AND, OR and NOT nodes over free variables
//! ("terminals", named by `u64` identifiers) and Boolean constants. The
//! semantics of a tree is given by the spec function [`eval_expr`], under an
//! assignment from terminals to Booleans in which unassigned terminals read
//! as `false`.

use std::collections::HashMap;
use vstd::prelude::*;

verus! {

/// A simple Boolean logic expression. It may contain terminals (free
/// variables), constants, and the operations AND, OR and NOT.
#[derive(Debug, PartialEq, Eq, PartialOrd, Ord, Hash)]
pub enum Expr {
    /// A terminal (free variable), named by its identifier. The value it
    /// stands for is not known until evaluation time.
    Terminal(u64),
    /// A Boolean constant: true or false.
    Const(bool),
    /// The logical complement of the contained expression.
    Not(Box<Expr>),
    /// The logical AND of the two contained expressions.
    And(Box<Expr>, Box<Expr>),
    /// The logical OR of the two contained expressions.
    Or(Box<Expr>, Box<Expr>),
}

/// Whether terminal `t` reads as true under assignment `a`; terminals absent
/// from the assignment read as false.
pub open spec fn assigned_true(a: Map<u64, bool>, t: u64) -> bool {
    a.contains_key(t) && a[t]
}

/// The truth value of expression `e` under assignment `a`.
pub open spec fn eval_expr(e: Expr, a: Map<u64, bool>) -> bool
    decreases e,
{
    match e {
        Expr::Terminal(t) => assigned_true(a, t),
        Expr::Const(c) => c,
        Expr::Not(x) => !eval_expr(*x, a),
        Expr::And(x, y) => eval_expr(*x, a) && eval_expr(*y, a),
        Expr::Or(x, y) => eval_expr(*x, a) || eval_expr(*y, a),
    }
}

/// A literal: a terminal or a negated terminal.
pub open spec fn is_literal(e: Expr) -> bool {
    match e {
        Expr::Terminal(_) => true,
        Expr::Not(x) => *x is Terminal,
        _ => false,
    }
}

/// A product: a conjunction of one or more literals, with no constants,
/// OR nodes, or non-leaf NOT nodes inside.
pub open spec fn is_product(e: Expr) -> bool
    decreases e,
{
    match e {
        Expr::And(x, y) => is_product(*x) && is_product(*y),
        _ => is_literal(e),
    }
}

/// A sum of products: a disjunction of one or more products.
pub open spec fn is_sum(e: Expr) -> bool
    decreases e,
{
    match e {
        Expr::Or(x, y) => is_sum(*x) && is_sum(*y),
        _ => is_product(e),
    }
}

/// The canonical simplified shape: either a single constant, or a
/// constant-free sum of products. In such a tree, nodes appear in the order
/// OR, then AND, then NOT from root to leaves: no AND node has an OR child,
/// and every NOT node wraps a terminal directly.
pub open spec fn is_simple(e: Expr) -> bool {
    e is Const || is_sum(e)
}

impl Expr {
    /// Returns `true` if this `Expr` is a terminal.
    pub fn is_terminal(&self) -> (r: bool)
        ensures
            r == (self is Terminal),
    {
        match self {
            Expr::Terminal(_) => true,
            _ => false,
        }
    }

    /// Returns `true` if this `Expr` is a constant.
    pub fn is_const(&self) -> (r: bool)
        ensures
            r == (self is Const),
    {
        match self {
            Expr::Const(_) => true,
            _ => false,
        }
    }

    /// Returns `true` if this `Expr` is a NOT node.
    pub fn is_not(&self) -> (r: bool)
        ensures
            r == (self is Not),
    {
        match self {
            Expr::Not(_) => true,
            _ => false,
        }
    }

    /// Returns `true` if this `Expr` is an AND node.
    pub fn is_and(&self) -> (r: bool)
        ensures
            r == (self is And),
    {
        match self {
            Expr::And(_, _) => true,
            _ => false,
        }
    }

    /// Returns `true` if this `Expr` is an OR node.
    pub fn is_or(&self) -> (r: bool)
        ensures
            r == (self is Or),
    {
        match self {
            Expr::Or(_, _) => true,
            _ => false,
        }
    }

    /// Builds a NOT node around an argument, consuming the argument
    /// expression.
    pub fn not(e: Expr) -> (r: Expr)
        ensures
            r == Expr::Not(Box::new(e)),
    {
        Expr::Not(Box::new(e))
    }

    /// Builds an AND node around two arguments, consuming the argument
    /// expressions.
    pub fn and(e1: Expr, e2: Expr) -> (r: Expr)
        ensures
            r == Expr::And(Box::new(e1), Box::new(e2)),
    {
        Expr::And(Box::new(e1), Box::new(e2))
    }

    /// Builds an OR node around two arguments, consuming the argument
    /// expressions.
    pub fn or(e1: Expr, e2: Expr) -> (r: Expr)
        ensures
            r == Expr::Or(Box::new(e1), Box::new(e2)),
    {
        Expr::Or(Box::new(e1), Box::new(e2))
    }

    /// Builds a structurally equal copy of this expression.
    pub fn dup(&self) -> (r: Expr)
        ensures
            r == *self,
        decreases self,
    {
        match self {
            Expr::Terminal(t) => Expr::Terminal(*t),
            Expr::Const(c) => Expr::Const(*c),
            Expr::Not(x) => Expr::Not(Box::new(x.dup())),
            Expr::And(x, y) => Expr::And(Box::new(x.dup()), Box::new(y.dup())),
            Expr::Or(x, y) => Expr::Or(Box::new(x.dup()), Box::new(y.dup())),
        }
    }

    /// Evaluates the expression with a particular set of terminal
    /// assignments. If any terminals are not assigned, they default to
    /// `false`.
    pub fn evaluate(&self, vals: &HashMap<u64, bool>) -> (r: bool)
        ensures
            r == eval_expr(*self, vals@),
        decreases self,
    {
        match self {
            Expr::Terminal(t) => match vals.get(t) {
                Some(b) => *b,
                None => false,
            },
            Expr::Const(c) => *c,
            Expr::Not(x) => !x.evaluate(vals),
            Expr::And(x, y) => x.evaluate(vals) && y.evaluate(vals),
            Expr::Or(x, y) => x.evaluate(vals) || y.evaluate(vals),
        }
    }
}

/// The node-ordering property of simplified trees, stated over each node:
/// no AND node has an OR child, and every NOT node wraps a terminal or a
/// constant directly. AND nodes may have AND children, since a conjunction
/// of three or more literals has no other binary-tree form.
pub open spec fn shape_ok(e: Expr) -> bool
    decreases e,
{
    match e {
        Expr::Not(x) => *x is Terminal || *x is Const,
        Expr::And(x, y) => !(*x is Or) && !(*y is Or) && shape_ok(*x) && shape_ok(*y),
        Expr::Or(x, y) => shape_ok(*x) && shape_ok(*y),
        _ => true,
    }
}

/// Every tree in the canonical simplified shape satisfies the node-ordering
/// property: OR above AND above NOT, with NOT only over leaves.
pub proof fn lemma_simple_shape(e: Expr)
    ensures
        is_product(e) ==> shape_ok(e) && !(e is Or) && !(e is Const),
        is_sum(e) ==> shape_ok(e),
        is_simple(e) ==> shape_ok(e),
    decreases e,
{
    match e {
        Expr::Not(x) => {
            lemma_simple_shape(*x);
        },
        Expr::And(x, y) => {
            lemma_simple_shape(*x);
            lemma_simple_shape(*y);
        },
        Expr::Or(x, y) => {
            lemma_simple_shape(*x);
            lemma_simple_shape(*y);
        },
        _ => {},
    }
}

/// The set of terminal identifiers occurring in an expression.
pub open spec fn terminals_of(e: Expr) -> Set<u64>
    decreases e,
{
    match e {
        Expr::Terminal(t) => set![t],
        Expr::Const(_) => Set::empty(),
        Expr::Not(x) => terminals_of(*x),
        Expr::And(x, y) => terminals_of(*x).union(terminals_of(*y)),
        Expr::Or(x, y) => terminals_of(*x).union(terminals_of(*y)),
    }
}

/// The OR-joining step of the simplification strategy, as an equation:
/// a true constant annihilates the disjunction, a false constant is
/// absorbed, and two sums are joined under a new OR node.
pub open spec fn spec_join_or(p: Expr, q: Expr) -> Expr {
    match p {
        Expr::Const(c) => if c {
            Expr::Const(true)
        } else {
            q
        },
        _ => match q {
            Expr::Const(c) => if c {
                Expr::Const(true)
            } else {
                p
            },
            _ => Expr::Or(Box::new(p), Box::new(q)),
        },
    }
}

/// The AND-joining step of the simplification strategy, as an equation:
/// a false constant annihilates the conjunction, a true constant is
/// absorbed, the conjunction distributes over any OR operand (left operand
/// first, each time against the whole other operand), and two products are
/// joined under a new AND node.
pub open spec fn spec_join_and(p: Expr, q: Expr) -> Expr
    decreases p, q,
{
    match p {
        Expr::Const(c) => if c {
            q
        } else {
            Expr::Const(false)
        },
        Expr::Or(x, y) => spec_join_or(spec_join_and(*x, q), spec_join_and(*y, q)),
        _ => match q {
            Expr::Const(c) => if c {
                p
            } else {
                Expr::Const(false)
            },
            Expr::Or(x, y) => spec_join_or(spec_join_and(p, *x), spec_join_and(p, *y)),
            _ => Expr::And(Box::new(p), Box::new(q)),
        },
    }
}

/// The negation step of the simplification strategy, as an equation:
/// constants flip, a terminal gains a NOT, double negation is eliminated,
/// and De Morgan's laws push the negation into AND and OR nodes, rejoined
/// by the two steps above so the result stays a sum of products.
pub open spec fn spec_negate(p: Expr) -> Expr
    decreases p,
{
    match p {
        Expr::Const(c) => Expr::Const(!c),
        Expr::Terminal(t) => Expr::Not(Box::new(Expr::Terminal(t))),
        Expr::Not(x) => *x,
        Expr::And(x, y) => spec_join_or(spec_negate(*x), spec_negate(*y)),
        Expr::Or(x, y) => spec_join_and(spec_negate(*x), spec_negate(*y)),
    }
}

/// The whole simplification strategy, as an equation: one bottom-up pass
/// rebuilding each node by the joining and negation steps above. This is
/// the exact tree that [`Expr::simplify`] returns, so simplification is a
/// function of the input tree alone: structurally equal inputs give
/// structurally equal results.
pub open spec fn spec_simplify(e: Expr) -> Expr
    decreases e,
{
    match e {
        Expr::Terminal(t) => Expr::Terminal(t),
        Expr::Const(c) => Expr::Const(c),
        Expr::Not(x) => spec_negate(spec_simplify(*x)),
        Expr::And(x, y) => spec_join_and(spec_simplify(*x), spec_simplify(*y)),
        Expr::Or(x, y) => spec_join_or(spec_simplify(*x), spec_simplify(*y)),
    }
}

/// The OR-joining step introduces no terminal of its own.
proof fn lemma_join_or_terminals(p: Expr, q: Expr)
    ensures
        forall|t: u64| #[trigger]
            terminals_of(spec_join_or(p, q)).contains(t) ==> terminals_of(p).contains(t)
                || terminals_of(q).contains(t),
{
}

/// The AND-joining step introduces no terminal of its own.
proof fn lemma_join_and_terminals(p: Expr, q: Expr)
    ensures
        forall|t: u64| #[trigger]
            terminals_of(spec_join_and(p, q)).contains(t) ==> terminals_of(p).contains(t)
                || terminals_of(q).contains(t),
    decreases p, q,
{
    match p {
        Expr::Const(_) => {},
        Expr::Or(x, y) => {
            lemma_join_and_terminals(*x, q);
            lemma_join_and_terminals(*y, q);
            lemma_join_or_terminals(spec_join_and(*x, q), spec_join_and(*y, q));
        },
        _ => {
            match q {
                Expr::Const(_) => {},
                Expr::Or(x, y) => {
                    lemma_join_and_terminals(p, *x);
                    lemma_join_and_terminals(p, *y);
                    lemma_join_or_terminals(spec_join_and(p, *x), spec_join_and(p, *y));
                },
                _ => {},
            }
        },
    }
}

/// The negation step introduces no terminal of its own.
proof fn lemma_negate_terminals(p: Expr)
    ensures
        forall|t: u64| #[trigger]
            terminals_of(spec_negate(p)).contains(t) ==> terminals_of(p).contains(t),
    decreases p,
{
    match p {
        Expr::And(x, y) => {
            lemma_negate_terminals(*x);
            lemma_negate_terminals(*y);
            lemma_join_or_terminals(spec_negate(*x), spec_negate(*y));
        },
        Expr::Or(x, y) => {
            lemma_negate_terminals(*x);
            lemma_negate_terminals(*y);
            lemma_join_and_terminals(spec_negate(*x), spec_negate(*y));
        },
        _ => {},
    }
}

/// Simplification introduces no terminal of its own: every terminal of the
/// result occurs in the input.
pub proof fn lemma_simplify_terminals(e: Expr)
    ensures
        terminals_of(spec_simplify(e)).subset_of(terminals_of(e)),
    decreases e,
{
    match e {
        Expr::Not(x) => {
            lemma_simplify_terminals(*x);
            lemma_negate_terminals(spec_simplify(*x));
        },
        Expr::And(x, y) => {
            lemma_simplify_terminals(*x);
            lemma_simplify_terminals(*y);
            lemma_join_and_terminals(spec_simplify(*x), spec_simplify(*y));
        },
        Expr::Or(x, y) => {
            lemma_simplify_terminals(*x);
            lemma_simplify_terminals(*y);
            lemma_join_or_terminals(spec_simplify(*x), spec_simplify(*y));
        },
        _ => {},
    }
}

/// In a simplified tree, the children of an AND node are constant-free
/// products, and products are themselves simplified trees.
proof fn lemma_and_children(x: Expr, y: Expr)
    ensures
        is_simple(Expr::And(Box::new(x), Box::new(y))) ==> is_product(x) && is_product(y)
            && is_sum(x) && is_sum(y) && is_simple(x) && is_simple(y),
{
    if is_simple(Expr::And(Box::new(x), Box::new(y))) {
        assert(is_product(Expr::And(Box::new(x), Box::new(y))));
    }
}

/// In a simplified tree, the children of an OR node are sums.
proof fn lemma_or_children(x: Expr, y: Expr)
    ensures
        is_simple(Expr::Or(Box::new(x), Box::new(y))) ==> is_sum(x) && is_sum(y)
            && is_simple(x) && is_simple(y),
{
    if is_simple(Expr::Or(Box::new(x), Box::new(y))) {
        assert(is_sum(Expr::Or(Box::new(x), Box::new(y))));
    }
}

/// In a simplified tree, the child of a NOT node is a terminal.
proof fn lemma_not_child(x: Expr)
    ensures
        is_simple(Expr::Not(Box::new(x))) ==> (x is Terminal) && is_simple(x),
{
    if is_simple(Expr::Not(Box::new(x))) {
        assert(is_literal(Expr::Not(Box::new(x))));
    }
}

/// Joins two simplified expressions with OR, absorbing constants.
fn join_or(p: Expr, q: Expr) -> (r: Expr)
    requires
        is_simple(p),
        is_simple(q),
    ensures
        r == spec_join_or(p, q),
        is_simple(r),
        forall|a: Map<u64, bool>|
            eval_expr(r, a) == (eval_expr(p, a) || eval_expr(q, a)),
        is_sum(p) && is_sum(q) ==> r == Expr::Or(Box::new(p), Box::new(q)),
{
    match p {
        Expr::Const(c) => if c {
            Expr::Const(true)
        } else {
            q
        },
        pp => match q {
            Expr::Const(c) => if c {
                Expr::Const(true)
            } else {
                pp
            },
            qq => Expr::Or(Box::new(pp), Box::new(qq)),
        },
    }
}

/// Joins two simplified expressions with AND, absorbing constants and
/// distributing the conjunction over any OR nodes so that the result stays
/// a sum of products.
fn join_and(p: Expr, q: Expr) -> (r: Expr)
    requires
        is_simple(p),
        is_simple(q),
    ensures
        r == spec_join_and(p, q),
        is_simple(r),
        forall|a: Map<u64, bool>|
            eval_expr(r, a) == (eval_expr(p, a) && eval_expr(q, a)),
        is_sum(p) && is_sum(q) ==> is_sum(r),
        is_product(p) && is_product(q) ==> r == Expr::And(Box::new(p), Box::new(q)),
    decreases p, q,
{
    match p {
        Expr::Const(c) => if c {
            q
        } else {
            Expr::Const(false)
        },
        Expr::Or(x, y) => {
            let qd = q.dup();
            let left = join_and(*x, qd);
            let right = join_and(*y, q);
            join_or(left, right)
        },
        pp => match q {
            Expr::Const(c) => if c {
                pp
            } else {
                Expr::Const(false)
            },
            Expr::Or(x, y) => {
                let pd = pp.dup();
                let left = join_and(pd, *x);
                let right = join_and(pp, *y);
                join_or(left, right)
            },
            qq => Expr::And(Box::new(pp), Box::new(qq)),
        },
    }
}

/// Negates a simplified expression, pushing the negation to the leaves by
/// De Morgan's laws and eliminating double negation, then redistributing so
/// that the result stays a sum of products.
fn negate_simple(p: Expr) -> (r: Expr)
    requires
        is_simple(p),
    ensures
        r == spec_negate(p),
        is_simple(r),
        forall|a: Map<u64, bool>| eval_expr(r, a) == !eval_expr(p, a),
        is_sum(p) ==> is_sum(r),
        p is Terminal ==> r == Expr::Not(Box::new(p)),
    decreases p,
{
    match p {
        Expr::Const(c) => Expr::Const(!c),
        Expr::Terminal(t) => Expr::Not(Box::new(Expr::Terminal(t))),
        Expr::Not(x) => {
            proof {
                lemma_not_child(*x);
            }
            *x
        },
        Expr::And(x, y) => {
            proof {
                lemma_and_children(*x, *y);
            }
            let left = negate_simple(*x);
            let right = negate_simple(*y);
            join_or(left, right)
        },
        Expr::Or(x, y) => {
            proof {
                lemma_or_children(*x, *y);
            }
            let left = negate_simple(*x);
            let right = negate_simple(*y);
            join_and(left, right)
        },
    }
}

impl Expr {
    /// Simplify an expression, consuming it.
    ///
    /// The strategy is a single bottom-up pass: children are simplified
    /// first, then each node is rebuilt by a joining step that absorbs
    /// constants, pushes negation inward by De Morgan's laws with double
    /// negation elimination, and distributes AND over OR. The result is in
    /// sum-of-products form: from root to leaves, nodes appear in the order
    /// OR, then AND, then NOT, so AND nodes never have OR children and NOT
    /// nodes wrap terminals directly; constants survive only as the whole
    /// expression. The result evaluates exactly as the input under every
    /// assignment, and a tree already in this shape is returned unchanged,
    /// so simplification is idempotent.
    ///
    /// The returned tree is exactly [`spec_simplify`] of the input: the
    /// strategy is stated as equations at the specification level, so the
    /// transform is deterministic — structurally equal inputs give
    /// structurally equal results — and every terminal of the result
    /// occurs in the input.
    ///
    /// No minterm reduction is performed: terms may be redundant (the same
    /// product may appear twice among the OR'd terms) and combinable terms
    /// are not combined.
    pub fn simplify(self) -> (r: Expr)
        ensures
            r == spec_simplify(self),
            is_simple(r),
            shape_ok(r),
            forall|a: Map<u64, bool>| eval_expr(r, a) == eval_expr(self, a),
            terminals_of(r).subset_of(terminals_of(self)),
            is_simple(self) ==> r == self,
        decreases self,
    {
        let ghost e0 = self;
        let r = match self {
            Expr::Terminal(t) => Expr::Terminal(t),
            Expr::Const(c) => Expr::Const(c),
            Expr::Not(x) => {
                proof {
                    lemma_not_child(*x);
                }
                negate_simple((*x).simplify())
            },
            Expr::And(x, y) => {
                proof {
                    lemma_and_children(*x, *y);
                }
                let left = (*x).simplify();
                let right = (*y).simplify();
                join_and(left, right)
            },
            Expr::Or(x, y) => {
                proof {
                    lemma_or_children(*x, *y);
                }
                let left = (*x).simplify();
                let right = (*y).simplify();
                join_or(left, right)
            },
        };
        proof {
            lemma_simple_shape(r);
            lemma_simplify_terminals(e0);
        }
        r
    }
}


} // verus!
