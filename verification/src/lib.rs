//! Boolean expressions and reduced ordered binary decision diagrams.
//!
//! The crate has two halves: an owned expression tree ([`Expr`]) with a
//! sum-of-products simplifier, and a BDD engine ([`Bdd`]) that turns
//! expressions into canonical, hash-consed decision diagrams.

mod bdd;
mod dot;
mod expr;

pub use expr::Expr;
pub use expr::assigned_true;
pub use expr::eval_expr;
pub use expr::is_literal;
pub use expr::is_product;
pub use expr::is_simple;
pub use expr::is_sum;
pub use expr::lemma_simple_shape;
pub use expr::lemma_simplify_terminals;
pub use expr::shape_ok;
pub use expr::spec_join_and;
pub use expr::spec_join_or;
pub use expr::spec_negate;
pub use expr::spec_simplify;
pub use expr::terminals_of;

pub use bdd::Bdd;
pub use bdd::BddNode;
pub use bdd::BoolOp;
pub use bdd::FuncId;
pub use bdd::BDD_ONE;
pub use bdd::BDD_ZERO;
pub use bdd::bdd_eval;
pub use bdd::count_models;
pub use bdd::graph_wf;
pub use bdd::lemma_canonicity;
pub use bdd::lemma_count_zero_iff_false;
pub use bdd::lemma_eval_extend;
pub use bdd::lemma_reach_order_exact;
pub use bdd::node_ok;
pub use bdd::op_eval;
pub use bdd::rank_min;
pub use bdd::rank_of;
pub use bdd::reach_order;
pub use bdd::reach_order_upto;
pub use bdd::reach_set;
pub use bdd::same_triple;
pub use bdd::terminal_rank;
pub use bdd::var_reads_true;

pub use dot::dec_digits;
pub use dot::digit_char;
pub use dot::dot_body;
pub use dot::dot_node_text;
pub use dot::dot_text;
pub use dot::push_decimal;
