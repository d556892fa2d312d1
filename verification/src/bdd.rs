//! A reduced ordered binary decision diagram (ROBDD) engine.
//!
//! The engine owns an append-only arena of decision nodes. A Boolean
//! function is named by a [`FuncId`]: an index into that arena, cheap to
//! copy and stable for the lifetime of the engine. Ids 0 and 1 are reserved
//! for the constant-false and constant-true functions. Every other node
//! `{var, low, high}` reads as "if variable `var` then `high` else `low`".
//!
//! Three invariants make the arena reduced and ordered: no node has equal
//! children, no two nodes share a `(var, low, high)` triple, and the
//! variable rank strictly increases from a node to its children. All node
//! creation funnels through [`Bdd::mk_node`], which enforces them.

use std::collections::HashMap;
use vstd::arithmetic::power2::lemma2_to64;
use vstd::arithmetic::power2::lemma_pow2_adds;
use vstd::arithmetic::power2::lemma_pow2_pos;
use vstd::arithmetic::power2::lemma_pow2_strictly_increases;
use vstd::arithmetic::power2::pow2;
use vstd::prelude::*;
use vstd::string::StringExecFns;

use crate::dot::dot_body;
use crate::dot::dot_text;
use crate::dot::push_decimal;

use crate::expr::Expr;
use crate::expr::assigned_true;
use crate::expr::eval_expr;

verus! {

/// A handle to a Boolean function inside one engine: an arena index.
pub type FuncId = usize;

/// The id of the constant-false function.
pub const BDD_ZERO: FuncId = 0;

/// The id of the constant-true function.
pub const BDD_ONE: FuncId = 1;

/// One decision node: "if the variable of rank `var` is true, continue at
/// `high`, else at `low`". The entries at ids 0 and 1 are placeholders for
/// the two constant functions and are never read.
#[derive(Debug, Clone, Copy, PartialEq, Eq, Structural)]
pub struct BddNode {
    /// The rank of the variable tested at this node.
    pub var: u64,
    /// Where to continue when the variable is false.
    pub low: FuncId,
    /// Where to continue when the variable is true.
    pub high: FuncId,
}

/// A binary Boolean operator for [`Bdd::apply`].
#[derive(Debug, Clone, Copy, PartialEq, Eq, Structural)]
pub enum BoolOp {
    /// Logical conjunction.
    And,
    /// Logical disjunction.
    Or,
}

/// The truth table of a [`BoolOp`].
pub open spec fn op_eval(op: BoolOp, x: bool, y: bool) -> bool {
    match op {
        BoolOp::And => x && y,
        BoolOp::Or => x || y,
    }
}

/// The rank used for terminal ids when comparing variable ranks: larger
/// than the rank of any variable, so terminals sort below all variables.
pub open spec fn terminal_rank() -> int {
    u64::MAX as int + 1
}

/// The variable rank of the node at `f`, or `terminal_rank()` if `f` is a
/// terminal id or out of range.
pub open spec fn rank_of(nodes: Seq<BddNode>, f: int) -> int {
    if 2 <= f < nodes.len() {
        nodes[f].var as int
    } else {
        terminal_rank()
    }
}

/// Whether the variable of rank `var` reads as true under the assignment
/// `a` of terminal identifiers, given the rank-to-terminal table `labels`.
/// Ranks without a terminal, like terminals missing from `a`, read false.
pub open spec fn var_reads_true(labels: Seq<u64>, var: u64, a: Map<u64, bool>) -> bool {
    var < labels.len() && assigned_true(a, labels[var as int])
}

/// The truth value of the function with id `f` under assignment `a`: the
/// walk from `f` to a terminal, following `high` where the visited node's
/// variable reads true and `low` where it reads false. Ill-formed inputs
/// (an id out of range, or children that do not precede their parent in
/// the arena) evaluate to false; a well-formed engine never produces them.
pub open spec fn bdd_eval(
    nodes: Seq<BddNode>,
    labels: Seq<u64>,
    f: int,
    a: Map<u64, bool>,
) -> bool
    decreases f,
{
    if f == 1 {
        true
    } else if 2 <= f < nodes.len() && nodes[f].low < f && nodes[f].high < f {
        if var_reads_true(labels, nodes[f].var, a) {
            bdd_eval(nodes, labels, nodes[f].high as int, a)
        } else {
            bdd_eval(nodes, labels, nodes[f].low as int, a)
        }
    } else {
        false
    }
}

/// Local well-formedness of the node at index `i`: children precede it in
/// the arena and are distinct (reducedness), their ranks strictly exceed
/// its own rank (ordering), and its variable has an entry in `labels`.
pub open spec fn node_ok(nodes: Seq<BddNode>, labels: Seq<u64>, i: int) -> bool {
    let n = nodes[i];
    &&& n.low < i
    &&& n.high < i
    &&& n.low != n.high
    &&& (n.var as int) < rank_of(nodes, n.low as int)
    &&& (n.var as int) < rank_of(nodes, n.high as int)
    &&& (n.var as int) < labels.len()
}

/// Whether two nodes carry the same `(var, low, high)` triple.
pub open spec fn same_triple(a: BddNode, b: BddNode) -> bool {
    a.var == b.var && a.low == b.low && a.high == b.high
}

/// Well-formedness of an arena and its rank-to-terminal table: the two
/// terminal entries exist, every decision node is locally well formed, no
/// triple occurs twice (hash-consing canonicality), and no terminal has two
/// ranks.
pub open spec fn graph_wf(nodes: Seq<BddNode>, labels: Seq<u64>) -> bool {
    &&& nodes.len() >= 2
    &&& forall|i: int| 2 <= i < nodes.len() ==> #[trigger] node_ok(nodes, labels, i)
    &&& forall|i: int, j: int|
        2 <= i < nodes.len() && 2 <= j < nodes.len() && i != j ==> !#[trigger] same_triple(
            nodes[i],
            nodes[j],
        )
    &&& forall|i: int, j: int|
        0 <= i < labels.len() && 0 <= j < labels.len() && i != j ==> labels[i] != labels[j]
}

/// A memoized result of `apply`: combining `f` and `g` by `op` gave `r`.
#[derive(Debug, Clone, Copy, PartialEq, Eq, Structural)]
struct ApplyMemoEntry {
    op: BoolOp,
    f: FuncId,
    g: FuncId,
    r: FuncId,
}

/// A memoized result of `not_func`: the complement of `f` is `r`.
#[derive(Debug, Clone, Copy, PartialEq, Eq, Structural)]
struct NotMemoEntry {
    f: FuncId,
    r: FuncId,
}

/// The smaller of the ranks of two ids: the rank at which two functions
/// are cofactored when they are combined.
pub open spec fn rank_min(nodes: Seq<BddNode>, f: int, g: int) -> int {
    if rank_of(nodes, f) <= rank_of(nodes, g) {
        rank_of(nodes, f)
    } else {
        rank_of(nodes, g)
    }
}

/// What every `apply` memo entry promises: ids in range, the result no
/// lower in rank than either operand, and the combination law itself.
spec fn apply_entry_ok(nodes: Seq<BddNode>, labels: Seq<u64>, e: ApplyMemoEntry) -> bool {
    &&& e.f < nodes.len()
    &&& e.g < nodes.len()
    &&& e.r < nodes.len()
    &&& rank_of(nodes, e.r as int) >= rank_min(nodes, e.f as int, e.g as int)
    &&& forall|a: Map<u64, bool>|
        bdd_eval(nodes, labels, e.r as int, a) == op_eval(
            e.op,
            bdd_eval(nodes, labels, e.f as int, a),
            bdd_eval(nodes, labels, e.g as int, a),
        )
}

/// What every negation memo entry promises.
spec fn not_entry_ok(nodes: Seq<BddNode>, labels: Seq<u64>, e: NotMemoEntry) -> bool {
    &&& e.f < nodes.len()
    &&& e.r < nodes.len()
    &&& rank_of(nodes, e.r as int) >= rank_of(nodes, e.f as int)
    &&& forall|a: Map<u64, bool>|
        bdd_eval(nodes, labels, e.r as int, a) == !bdd_eval(nodes, labels, e.f as int, a)
}

/// A BDD engine: an append-only arena of decision nodes, a rank-to-terminal
/// table assigning ranks in first-use order, and memo caches for `apply`
/// and negation, retained for the lifetime of the engine.
pub struct Bdd {
    nodes: Vec<BddNode>,
    labels: Vec<u64>,
    memo: Vec<ApplyMemoEntry>,
    not_memo: Vec<NotMemoEntry>,
}

impl Bdd {
    /// The arena contents, for specification purposes.
    pub closed spec fn nodes_view(&self) -> Seq<BddNode> {
        self.nodes@
    }

    /// The rank-to-terminal table, for specification purposes: the terminal
    /// at index `v` has rank `v`.
    pub closed spec fn labels_view(&self) -> Seq<u64> {
        self.labels@
    }

    /// Both memo caches hold only entries true of the current arena.
    pub closed spec fn memo_ok(&self) -> bool {
        &&& forall|k: int|
            0 <= k < self.memo@.len() ==> #[trigger] apply_entry_ok(
                self.nodes@,
                self.labels@,
                self.memo@[k],
            )
        &&& forall|k: int|
            0 <= k < self.not_memo@.len() ==> #[trigger] not_entry_ok(
                self.nodes@,
                self.labels@,
                self.not_memo@[k],
            )
    }

    /// The engine invariant: a well-formed arena and truthful memo caches.
    pub open spec fn wf(&self) -> bool {
        &&& graph_wf(self.nodes_view(), self.labels_view())
        &&& self.memo_ok()
    }

    /// The number of nodes in the arena, terminal entries included.
    pub fn node_count(&self) -> (r: usize)
        ensures
            r == self.nodes_view().len(),
    {
        self.nodes.len()
    }

    /// The number of distinct terminals this engine has assigned ranks to.
    pub fn var_count(&self) -> (r: usize)
        ensures
            r == self.labels_view().len(),
    {
        self.labels.len()
    }

    /// Creates an engine holding only the two terminal functions.
    pub fn new() -> (r: Bdd)
        ensures
            r.wf(),
            r.nodes_view().len() == 2,
            r.labels_view().len() == 0,
    {
        let sentinel = BddNode { var: 0, low: 0, high: 0 };
        let mut nodes: Vec<BddNode> = Vec::new();
        nodes.push(sentinel);
        nodes.push(sentinel);
        Bdd { nodes, labels: Vec::new(), memo: Vec::new(), not_memo: Vec::new() }
    }

    /// Returns the id of the constant function with the given value.
    pub fn terminal_func(&self, value: bool) -> (r: FuncId)
        requires
            self.wf(),
        ensures
            r < self.nodes_view().len(),
            r == (if value { BDD_ONE } else { BDD_ZERO }),
            forall|a: Map<u64, bool>|
                bdd_eval(self.nodes_view(), self.labels_view(), r as int, a) == value,
    {
        if value {
            BDD_ONE
        } else {
            BDD_ZERO
        }
    }
}

/// Entries of a prefix keep their place after the longer sequence grows.
proof fn lemma_prefix_index<T>(s1: Seq<T>, s2: Seq<T>, i: int)
    requires
        s1.is_prefix_of(s2),
        0 <= i < s1.len(),
    ensures
        s2[i] == s1[i],
{
    assert(s2.subrange(0, s1.len() as int) =~= s1);
    assert(s2.subrange(0, s1.len() as int)[i] == s2[i]);
}

/// Every sequence is a prefix of itself.
proof fn lemma_self_prefix<T>(s: Seq<T>)
    ensures
        s.is_prefix_of(s),
{
    assert(s.subrange(0, s.len() as int) =~= s);
}

/// Being a prefix is transitive.
proof fn lemma_prefix_trans<T>(s1: Seq<T>, s2: Seq<T>, s3: Seq<T>)
    requires
        s1.is_prefix_of(s2),
        s2.is_prefix_of(s3),
    ensures
        s1.is_prefix_of(s3),
{
    assert forall|i: int| 0 <= i < s1.len() implies s1[i] == s3[i] by {
        lemma_prefix_index(s1, s2, i);
        lemma_prefix_index(s2, s3, i);
    }
    assert(s3.subrange(0, s1.len() as int) =~= s1);
}

/// Growing the arena or the rank table never changes the rank of an
/// existing id.
proof fn lemma_rank_extend(nodes1: Seq<BddNode>, nodes2: Seq<BddNode>, f: int)
    requires
        nodes1.is_prefix_of(nodes2),
        f < nodes1.len() || f >= nodes2.len(),
    ensures
        rank_of(nodes2, f) == rank_of(nodes1, f),
{
    if 2 <= f < nodes1.len() {
        lemma_prefix_index(nodes1, nodes2, f);
    }
}

/// Growing the arena and the rank table (appending only) never changes the
/// value of a function that already existed: evaluation is stable under
/// engine growth.
pub proof fn lemma_eval_extend(
    nodes1: Seq<BddNode>,
    labels1: Seq<u64>,
    nodes2: Seq<BddNode>,
    labels2: Seq<u64>,
    f: int,
    a: Map<u64, bool>,
)
    requires
        nodes1.is_prefix_of(nodes2),
        labels1.is_prefix_of(labels2),
        forall|i: int| 2 <= i < nodes1.len() ==> #[trigger] node_ok(nodes1, labels1, i),
        0 <= f < nodes1.len(),
    ensures
        bdd_eval(nodes2, labels2, f, a) == bdd_eval(nodes1, labels1, f, a),
    decreases f,
{
    if f >= 2 {
        lemma_prefix_index(nodes1, nodes2, f);
        assert(node_ok(nodes1, labels1, f));
        let n = nodes1[f];
        if (n.var as int) < labels1.len() {
            lemma_prefix_index(labels1, labels2, n.var as int);
        }
        lemma_eval_extend(nodes1, labels1, nodes2, labels2, n.low as int, a);
        lemma_eval_extend(nodes1, labels1, nodes2, labels2, n.high as int, a);
    }
}

/// Both memo caches stay truthful when the arena and the rank table grow.
proof fn lemma_memos_extend(
    nodes1: Seq<BddNode>,
    labels1: Seq<u64>,
    nodes2: Seq<BddNode>,
    labels2: Seq<u64>,
    memo: Seq<ApplyMemoEntry>,
    not_memo: Seq<NotMemoEntry>,
)
    requires
        nodes1.is_prefix_of(nodes2),
        labels1.is_prefix_of(labels2),
        forall|i: int| 2 <= i < nodes1.len() ==> #[trigger] node_ok(nodes1, labels1, i),
        forall|k: int| 0 <= k < memo.len() ==> #[trigger] apply_entry_ok(nodes1, labels1, memo[k]),
        forall|k: int|
            0 <= k < not_memo.len() ==> #[trigger] not_entry_ok(nodes1, labels1, not_memo[k]),
    ensures
        forall|k: int| 0 <= k < memo.len() ==> #[trigger] apply_entry_ok(nodes2, labels2, memo[k]),
        forall|k: int|
            0 <= k < not_memo.len() ==> #[trigger] not_entry_ok(nodes2, labels2, not_memo[k]),
{
    assert forall|k: int| 0 <= k < memo.len() implies #[trigger] apply_entry_ok(
        nodes2,
        labels2,
        memo[k],
    ) by {
        let e = memo[k];
        assert(apply_entry_ok(nodes1, labels1, e));
        lemma_rank_extend(nodes1, nodes2, e.f as int);
        lemma_rank_extend(nodes1, nodes2, e.g as int);
        lemma_rank_extend(nodes1, nodes2, e.r as int);
        assert forall|a: Map<u64, bool>|
            bdd_eval(nodes2, labels2, e.r as int, a) == op_eval(
                e.op,
                bdd_eval(nodes2, labels2, e.f as int, a),
                bdd_eval(nodes2, labels2, e.g as int, a),
            ) by {
            lemma_eval_extend(nodes1, labels1, nodes2, labels2, e.f as int, a);
            lemma_eval_extend(nodes1, labels1, nodes2, labels2, e.g as int, a);
            lemma_eval_extend(nodes1, labels1, nodes2, labels2, e.r as int, a);
        }
    }
    assert forall|k: int| 0 <= k < not_memo.len() implies #[trigger] not_entry_ok(
        nodes2,
        labels2,
        not_memo[k],
    ) by {
        let e = not_memo[k];
        assert(not_entry_ok(nodes1, labels1, e));
        lemma_rank_extend(nodes1, nodes2, e.f as int);
        lemma_rank_extend(nodes1, nodes2, e.r as int);
        assert forall|a: Map<u64, bool>|
            bdd_eval(nodes2, labels2, e.r as int, a) == !bdd_eval(
                nodes2,
                labels2,
                e.f as int,
                a,
            ) by {
            lemma_eval_extend(nodes1, labels1, nodes2, labels2, e.f as int, a);
            lemma_eval_extend(nodes1, labels1, nodes2, labels2, e.r as int, a);
        }
    }
}

impl Bdd {
    /// Returns the id of the node `(var, low, high)`, creating it only if
    /// needed: the single canonicalization chokepoint. A request with equal
    /// children returns that child (the reduction rule), and a triple
    /// already in the arena returns the existing id (hash-consing), so the
    /// arena invariants are maintained.
    pub fn mk_node(&mut self, var: u64, low: FuncId, high: FuncId) -> (r: FuncId)
        requires
            old(self).wf(),
            low < old(self).nodes_view().len(),
            high < old(self).nodes_view().len(),
            (var as int) < rank_of(old(self).nodes_view(), low as int),
            (var as int) < rank_of(old(self).nodes_view(), high as int),
            (var as int) < old(self).labels_view().len(),
        ensures
            final(self).wf(),
            old(self).nodes_view().is_prefix_of(final(self).nodes_view()),
            final(self).nodes_view().len() <= old(self).nodes_view().len() + 1,
            final(self).labels_view() == old(self).labels_view(),
            r < final(self).nodes_view().len(),
            rank_of(final(self).nodes_view(), r as int) >= var as int,
            low == high ==> r == low,
            forall|a: Map<u64, bool>|
                bdd_eval(final(self).nodes_view(), final(self).labels_view(), r as int, a) == (
                if var_reads_true(final(self).labels_view(), var, a) {
                    bdd_eval(final(self).nodes_view(), final(self).labels_view(), high as int, a)
                } else {
                    bdd_eval(final(self).nodes_view(), final(self).labels_view(), low as int, a)
                }),
    {
        if low == high {
            proof {
                lemma_self_prefix(self.nodes@);
            }
            return low;
        }
        let node = BddNode { var, low, high };
        let n = self.nodes.len();
        let mut i: usize = 2;
        while i < n
            invariant
                2 <= i <= n,
                n == self.nodes_view().len(),
                self == old(self),
                old(self).wf(),
                forall|j: int| 2 <= j < i ==> !same_triple(old(self).nodes_view()[j], node),
                node == (BddNode { var, low, high }),
            decreases n - i,
        {
            let cand = self.nodes[i];
            if cand.var == var && cand.low == low && cand.high == high {
                proof {
                    assert(node_ok(self.nodes_view(), self.labels_view(), i as int));
                    assert(self.nodes_view().is_prefix_of(self.nodes_view()));
                }
                return i;
            }
            i += 1;
        }
        let ghost nodes0 = self.nodes@;
        let ghost labels0 = self.labels@;
        self.nodes.push(node);
        proof {
            assert(self.nodes@ == nodes0.push(node));
            assert(nodes0.is_prefix_of(self.nodes@)) by {
                assert(self.nodes@.subrange(0, nodes0.len() as int) =~= nodes0);
            }
            assert forall|idx: int| 2 <= idx < self.nodes@.len() implies #[trigger] node_ok(
                self.nodes@,
                labels0,
                idx,
            ) by {
                if idx < nodes0.len() {
                    assert(node_ok(nodes0, labels0, idx));
                    let m = nodes0[idx];
                    lemma_rank_extend(nodes0, self.nodes@, m.low as int);
                    lemma_rank_extend(nodes0, self.nodes@, m.high as int);
                } else {
                    lemma_rank_extend(nodes0, self.nodes@, low as int);
                    lemma_rank_extend(nodes0, self.nodes@, high as int);
                }
            }
            lemma_memos_extend(nodes0, labels0, self.nodes@, labels0, self.memo@, self.not_memo@);
            assert forall|a: Map<u64, bool>|
                bdd_eval(self.nodes@, labels0, n as int, a) == (if var_reads_true(
                    labels0,
                    var,
                    a,
                ) {
                    bdd_eval(self.nodes@, labels0, high as int, a)
                } else {
                    bdd_eval(self.nodes@, labels0, low as int, a)
                }) by {
                assert(self.nodes@[n as int] == node);
            }
        }
        n
    }

    /// Looks up the rank already assigned to terminal `t`, if any.
    fn find_rank(&self, t: u64) -> (r: Option<usize>)
        ensures
            match r {
                Some(i) => i < self.labels_view().len() && self.labels_view()[i as int] == t,
                None => forall|j: int|
                    0 <= j < self.labels_view().len() ==> self.labels_view()[j] != t,
            },
    {
        let n = self.labels.len();
        let mut i: usize = 0;
        while i < n
            invariant
                0 <= i <= n,
                n == self.labels_view().len(),
                forall|j: int| 0 <= j < i ==> self.labels_view()[j] != t,
            decreases n - i,
        {
            if self.labels[i] == t {
                return Some(i);
            }
            i += 1;
        }
        None
    }

    /// Returns the function of a single terminal: true exactly when `t` is
    /// assigned true. On first use, `t` is given the next free rank, so
    /// ranks follow first-use order.
    pub fn var_func(&mut self, t: u64) -> (r: FuncId)
        requires
            old(self).wf(),
        ensures
            final(self).wf(),
            old(self).nodes_view().is_prefix_of(final(self).nodes_view()),
            old(self).labels_view().is_prefix_of(final(self).labels_view()),
            r < final(self).nodes_view().len(),
            forall|a: Map<u64, bool>|
                bdd_eval(final(self).nodes_view(), final(self).labels_view(), r as int, a)
                    == assigned_true(a, t),
    {
        proof {
            // A usize is at most 64 bits wide, so every rank fits a u64.
            assert(usize::MAX as int <= u64::MAX as int);
        }
        let found = self.find_rank(t);
        let ghost nodes0 = self.nodes@;
        let ghost labels0 = self.labels@;
        let rank: usize;
        match found {
            Some(i) => {
                rank = i;
            },
            None => {
                rank = self.labels.len();
                self.labels.push(t);
                proof {
                    assert(labels0.is_prefix_of(self.labels@)) by {
                        assert(self.labels@.subrange(0, labels0.len() as int) =~= labels0);
                    }
                    assert(nodes0.is_prefix_of(self.nodes@)) by {
                        assert(self.nodes@.subrange(0, nodes0.len() as int) =~= nodes0);
                    }
                    assert forall|idx: int| 2 <= idx < self.nodes@.len() implies #[trigger] node_ok(
                        self.nodes@,
                        self.labels@,
                        idx,
                    ) by {
                        assert(node_ok(nodes0, labels0, idx));
                    }
                    assert forall|i: int, j: int|
                        0 <= i < self.labels@.len() && 0 <= j < self.labels@.len() && i != j
                        implies self.labels@[i] != self.labels@[j] by {
                        if i < labels0.len() && j < labels0.len() {
                            assert(labels0[i] != labels0[j]);
                        }
                    }
                    lemma_memos_extend(
                        nodes0,
                        labels0,
                        self.nodes@,
                        self.labels@,
                        self.memo@,
                        self.not_memo@,
                    );
                    assert(graph_wf(self.nodes@, self.labels@));
                }
            },
        }
        let ghost labels1 = self.labels@;
        let r = self.mk_node(rank as u64, BDD_ZERO, BDD_ONE);
        proof {
            assert(labels1[rank as int] == t);
            assert forall|a: Map<u64, bool>|
                bdd_eval(self.nodes_view(), self.labels_view(), r as int, a) == assigned_true(
                    a,
                    t,
                ) by {
                assert(bdd_eval(self.nodes_view(), self.labels_view(), 1int, a) == true);
                assert(bdd_eval(self.nodes_view(), self.labels_view(), 0int, a) == false);
            }
        }
        r
    }
}

impl Bdd {
    /// Looks up a memoized negation result.
    fn find_not_memo(&self, f: FuncId) -> (r: Option<FuncId>)
        requires
            self.wf(),
        ensures
            match r {
                Some(res) => res < self.nodes_view().len() && rank_of(
                    self.nodes_view(),
                    res as int,
                ) >= rank_of(self.nodes_view(), f as int) && forall|a: Map<u64, bool>|
                    bdd_eval(self.nodes_view(), self.labels_view(), res as int, a) == !bdd_eval(
                        self.nodes_view(),
                        self.labels_view(),
                        f as int,
                        a,
                    ),
                None => true,
            },
    {
        let n = self.not_memo.len();
        let mut i: usize = 0;
        while i < n
            invariant
                0 <= i <= n,
                n == self.not_memo@.len(),
                self.wf(),
            decreases n - i,
        {
            let e = self.not_memo[i];
            if e.f == f {
                proof {
                    assert(not_entry_ok(self.nodes@, self.labels@, self.not_memo@[i as int]));
                }
                return Some(e.r);
            }
            i += 1;
        }
        None
    }

    /// Looks up a memoized `apply` result for the key `(op, f, g)`.
    fn find_apply_memo(&self, op: BoolOp, f: FuncId, g: FuncId) -> (r: Option<FuncId>)
        requires
            self.wf(),
        ensures
            match r {
                Some(res) => res < self.nodes_view().len() && rank_of(
                    self.nodes_view(),
                    res as int,
                ) >= rank_min(self.nodes_view(), f as int, g as int) && forall|a: Map<u64, bool>|
                    bdd_eval(self.nodes_view(), self.labels_view(), res as int, a) == op_eval(
                        op,
                        bdd_eval(self.nodes_view(), self.labels_view(), f as int, a),
                        bdd_eval(self.nodes_view(), self.labels_view(), g as int, a),
                    ),
                None => true,
            },
    {
        let n = self.memo.len();
        let mut i: usize = 0;
        while i < n
            invariant
                0 <= i <= n,
                n == self.memo@.len(),
                self.wf(),
            decreases n - i,
        {
            let e = self.memo[i];
            if e.op == op && e.f == f && e.g == g {
                proof {
                    assert(apply_entry_ok(self.nodes@, self.labels@, self.memo@[i as int]));
                }
                return Some(e.r);
            }
            i += 1;
        }
        None
    }

    /// Returns the complement of the function `f`: the unary counterpart of
    /// [`Bdd::apply`], swapping the terminals 0 and 1 below `f`. The walk is
    /// a single ascending sweep over the ids reachable from `f`, building
    /// the complement of each one from the complements of its children —
    /// children precede their parent in the arena, so no call stack is
    /// needed. Results are memoized for the lifetime of the engine.
    pub fn not_func(&mut self, f: FuncId) -> (r: FuncId)
        requires
            old(self).wf(),
            f < old(self).nodes_view().len(),
        ensures
            final(self).wf(),
            old(self).nodes_view().is_prefix_of(final(self).nodes_view()),
            final(self).labels_view() == old(self).labels_view(),
            r < final(self).nodes_view().len(),
            rank_of(final(self).nodes_view(), r as int) >= rank_of(
                old(self).nodes_view(),
                f as int,
            ),
            forall|a: Map<u64, bool>|
                bdd_eval(final(self).nodes_view(), final(self).labels_view(), r as int, a)
                    == !bdd_eval(
                    final(self).nodes_view(),
                    final(self).labels_view(),
                    f as int,
                    a,
                ),
    {
        proof {
            lemma_self_prefix(self.nodes@);
            lemma_self_prefix(self.labels@);
        }
        if let Some(hit) = self.find_not_memo(f) {
            return hit;
        }
        let ghost nodes0 = self.nodes@;
        let ghost labels0 = self.labels@;
        let n0 = self.nodes.len();
        let mut marks: Vec<bool> = Vec::new();
        let mut k: usize = 0;
        while k < n0
            invariant
                0 <= k <= n0,
                marks@.len() == k,
                forall|j: int| 0 <= j < k ==> !marks@[j],
            decreases n0 - k,
        {
            marks.push(false);
            k += 1;
        }
        self.mark_reachable(f, &mut marks);
        let mut table: Vec<FuncId> = Vec::new();
        let mut k2: usize = 0;
        while k2 < n0
            invariant
                0 <= k2 <= n0,
                table@.len() == k2,
            decreases n0 - k2,
        {
            table.push(BDD_ZERO);
            k2 += 1;
        }
        let mut i: usize = 0;
        while i <= f
            invariant
                0 <= i <= f + 1,
                f < n0,
                n0 == nodes0.len(),
                nodes0 == old(self).nodes_view(),
                labels0 == old(self).labels_view(),
                graph_wf(nodes0, labels0),
                self.wf(),
                nodes0.is_prefix_of(self.nodes@),
                self.labels@ == labels0,
                marks@.len() == n0,
                marks_closed(nodes0, marks@),
                forall|j: int|
                    0 <= j < n0 ==> (marks@[j] <==> reach_set(nodes0, f as int).contains(j)),
                table@.len() == n0,
                forall|j: int|
                    0 <= j < i && marks@[j] ==> (#[trigger] table@[j]) < self.nodes@.len()
                        && rank_of(self.nodes@, table@[j] as int) >= rank_of(self.nodes@, j),
                forall|j: int, a: Map<u64, bool>|
                    #![trigger bdd_eval(self.nodes@, self.labels@, table@[j] as int, a)]
                    0 <= j < i && marks@[j] ==> bdd_eval(
                        self.nodes@,
                        self.labels@,
                        table@[j] as int,
                        a,
                    ) == !bdd_eval(self.nodes@, self.labels@, j, a),
            decreases f + 1 - i,
        {
            if marks[i] {
                if i == BDD_ZERO {
                    table.set(i, BDD_ONE);
                } else if i == BDD_ONE {
                    table.set(i, BDD_ZERO);
                } else {
                    proof {
                        assert(node_ok(self.nodes@, self.labels@, i as int));
                        lemma_prefix_index(nodes0, self.nodes@, i as int);
                        assert(node_ok(nodes0, labels0, i as int));
                        assert(marks@[nodes0[i as int].low as int]);
                        assert(marks@[nodes0[i as int].high as int]);
                    }
                    let nd = self.nodes[i];
                    let rl = table[nd.low];
                    let rh = table[nd.high];
                    let ghost nodes_b = self.nodes@;
                    let r_i = self.mk_node(nd.var, rl, rh);
                    table.set(i, r_i);
                    proof {
                        assert(nodes_b.is_prefix_of(self.nodes@));
                        lemma_prefix_trans(nodes0, nodes_b, self.nodes@);
                        lemma_prefix_index(nodes_b, self.nodes@, i as int);
                        assert forall|j: int|
                            0 <= j < i + 1 && marks@[j] implies (#[trigger] table@[j])
                            < self.nodes@.len() && rank_of(self.nodes@, table@[j] as int)
                            >= rank_of(self.nodes@, j) by {
                            if j < i {
                                lemma_rank_extend(nodes_b, self.nodes@, table@[j] as int);
                                lemma_rank_extend(nodes_b, self.nodes@, j);
                            } else {
                                lemma_rank_extend(nodes_b, self.nodes@, i as int);
                            }
                        }
                        assert forall|j: int, a: Map<u64, bool>|
                            #![trigger bdd_eval(self.nodes@, self.labels@, table@[j] as int, a)]
                            0 <= j < i + 1 && marks@[j] implies bdd_eval(
                            self.nodes@,
                            self.labels@,
                            table@[j] as int,
                            a,
                        ) == !bdd_eval(self.nodes@, self.labels@, j, a) by {
                            if j < i {
                                lemma_eval_extend(
                                    nodes_b,
                                    labels0,
                                    self.nodes@,
                                    self.labels@,
                                    table@[j] as int,
                                    a,
                                );
                                lemma_eval_extend(
                                    nodes_b,
                                    labels0,
                                    self.nodes@,
                                    self.labels@,
                                    j,
                                    a,
                                );
                            } else {
                                lemma_eval_extend(
                                    nodes_b,
                                    labels0,
                                    self.nodes@,
                                    self.labels@,
                                    rl as int,
                                    a,
                                );
                                lemma_eval_extend(
                                    nodes_b,
                                    labels0,
                                    self.nodes@,
                                    self.labels@,
                                    rh as int,
                                    a,
                                );
                                lemma_eval_extend(
                                    nodes_b,
                                    labels0,
                                    self.nodes@,
                                    self.labels@,
                                    nd.low as int,
                                    a,
                                );
                                lemma_eval_extend(
                                    nodes_b,
                                    labels0,
                                    self.nodes@,
                                    self.labels@,
                                    nd.high as int,
                                    a,
                                );
                                lemma_eval_extend(
                                    nodes_b,
                                    labels0,
                                    self.nodes@,
                                    self.labels@,
                                    i as int,
                                    a,
                                );
                                assert(bdd_eval(nodes_b, labels0, rl as int, a) == !bdd_eval(
                                    nodes_b,
                                    labels0,
                                    nd.low as int,
                                    a,
                                ));
                                assert(bdd_eval(nodes_b, labels0, rh as int, a) == !bdd_eval(
                                    nodes_b,
                                    labels0,
                                    nd.high as int,
                                    a,
                                ));
                                assert(bdd_eval(nodes_b, labels0, i as int, a) == (
                                if var_reads_true(labels0, nd.var, a) {
                                    bdd_eval(nodes_b, labels0, nd.high as int, a)
                                } else {
                                    bdd_eval(nodes_b, labels0, nd.low as int, a)
                                }));
                            }
                        }
                    }
                }
            }
            i += 1;
        }
        let r = table[f];
        proof {
            assert(marks@[f as int]) by {
                assert(reach_set(nodes0, f as int).contains(f as int));
            }
            lemma_rank_extend(nodes0, self.nodes@, f as int);
        }
        let entry = NotMemoEntry { f, r };
        self.not_memo.push(entry);
        proof {
            assert(not_entry_ok(self.nodes@, self.labels@, entry));
            assert forall|k: int| 0 <= k < self.not_memo@.len() implies #[trigger] not_entry_ok(
                self.nodes@,
                self.labels@,
                self.not_memo@[k],
            ) by {
                if k < self.not_memo@.len() - 1 {
                    assert(not_entry_ok(self.nodes@, self.labels@, self.not_memo@[k]));
                }
            }
        }
        r
    }
}

impl Bdd {
    /// Combines two functions with a binary Boolean operator: the generic
    /// ROBDD combinator. Terminal operands are absorbed by the operator's
    /// short-circuit rules; otherwise both operands are cofactored on the
    /// smaller of their top ranks, the cofactors are combined recursively,
    /// and the result is rebuilt through [`Bdd::mk_node`]. Recursive calls
    /// are memoized by `(op, f, g)` (with commutative operands ordered) for
    /// the lifetime of the engine.
    pub fn apply(&mut self, op: BoolOp, f: FuncId, g: FuncId) -> (r: FuncId)
        requires
            old(self).wf(),
            f < old(self).nodes_view().len(),
            g < old(self).nodes_view().len(),
        ensures
            final(self).wf(),
            old(self).nodes_view().is_prefix_of(final(self).nodes_view()),
            final(self).labels_view() == old(self).labels_view(),
            r < final(self).nodes_view().len(),
            rank_of(final(self).nodes_view(), r as int) >= rank_min(
                old(self).nodes_view(),
                f as int,
                g as int,
            ),
            forall|a: Map<u64, bool>|
                bdd_eval(final(self).nodes_view(), final(self).labels_view(), r as int, a)
                    == op_eval(
                    op,
                    bdd_eval(final(self).nodes_view(), final(self).labels_view(), f as int, a),
                    bdd_eval(final(self).nodes_view(), final(self).labels_view(), g as int, a),
                ),
        decreases f + g,
    {
        proof {
            lemma_self_prefix(self.nodes@);
        }
        match op {
            BoolOp::And => {
                if f == BDD_ZERO || g == BDD_ZERO {
                    return BDD_ZERO;
                }
                if f == BDD_ONE {
                    return g;
                }
                if g == BDD_ONE {
                    return f;
                }
            },
            BoolOp::Or => {
                if f == BDD_ONE || g == BDD_ONE {
                    return BDD_ONE;
                }
                if f == BDD_ZERO {
                    return g;
                }
                if g == BDD_ZERO {
                    return f;
                }
            },
        }
        let (fc, gc) = if g < f {
            (g, f)
        } else {
            (f, g)
        };
        if let Some(res) = self.find_apply_memo(op, fc, gc) {
            return res;
        }
        let ghost nodes0 = self.nodes@;
        let ghost labels0 = self.labels@;
        let nf = self.nodes[fc];
        let ng = self.nodes[gc];
        proof {
            assert(node_ok(nodes0, labels0, fc as int));
            assert(node_ok(nodes0, labels0, gc as int));
        }
        let v = if nf.var <= ng.var {
            nf.var
        } else {
            ng.var
        };
        let (fl, fh) = if nf.var == v {
            (nf.low, nf.high)
        } else {
            (fc, fc)
        };
        let (gl, gh) = if ng.var == v {
            (ng.low, ng.high)
        } else {
            (gc, gc)
        };
        let low = self.apply(op, fl, gl);
        let ghost nodes1 = self.nodes@;
        let high = self.apply(op, fh, gh);
        let ghost nodes2 = self.nodes@;
        proof {
            lemma_prefix_trans(nodes0, nodes1, nodes2);
            lemma_rank_extend(nodes1, nodes2, low as int);
            lemma_rank_extend(nodes0, nodes1, fl as int);
            lemma_rank_extend(nodes0, nodes1, gl as int);
            lemma_rank_extend(nodes0, nodes2, fh as int);
            lemma_rank_extend(nodes0, nodes2, gh as int);
        }
        let r = self.mk_node(v, low, high);
        let ghost nodes3 = self.nodes@;
        proof {
            lemma_prefix_trans(nodes0, nodes2, nodes3);
            lemma_prefix_trans(nodes1, nodes2, nodes3);
            lemma_rank_extend(nodes0, nodes3, fc as int);
            lemma_rank_extend(nodes0, nodes3, gc as int);
            assert forall|a: Map<u64, bool>|
                bdd_eval(nodes3, labels0, r as int, a) == op_eval(
                    op,
                    bdd_eval(nodes3, labels0, fc as int, a),
                    bdd_eval(nodes3, labels0, gc as int, a),
                ) by {
                lemma_eval_extend(nodes0, labels0, nodes3, labels0, fc as int, a);
                lemma_eval_extend(nodes0, labels0, nodes3, labels0, gc as int, a);
                lemma_eval_extend(nodes0, labels0, nodes1, labels0, fl as int, a);
                lemma_eval_extend(nodes0, labels0, nodes1, labels0, gl as int, a);
                lemma_eval_extend(nodes0, labels0, nodes2, labels0, fh as int, a);
                lemma_eval_extend(nodes0, labels0, nodes2, labels0, gh as int, a);
                lemma_eval_extend(nodes1, labels0, nodes3, labels0, low as int, a);
                lemma_eval_extend(nodes2, labels0, nodes3, labels0, high as int, a);
                assert(bdd_eval(nodes0, labels0, fc as int, a) == (if var_reads_true(
                    labels0,
                    v,
                    a,
                ) {
                    bdd_eval(nodes0, labels0, fh as int, a)
                } else {
                    bdd_eval(nodes0, labels0, fl as int, a)
                }));
                assert(bdd_eval(nodes0, labels0, gc as int, a) == (if var_reads_true(
                    labels0,
                    v,
                    a,
                ) {
                    bdd_eval(nodes0, labels0, gh as int, a)
                } else {
                    bdd_eval(nodes0, labels0, gl as int, a)
                }));
            }
        }
        let entry = ApplyMemoEntry { op, f: fc, g: gc, r };
        self.memo.push(entry);
        proof {
            assert(apply_entry_ok(nodes3, self.labels@, entry));
            assert forall|k: int| 0 <= k < self.memo@.len() implies #[trigger] apply_entry_ok(
                self.nodes@,
                self.labels@,
                self.memo@[k],
            ) by {
                if k < self.memo@.len() - 1 {
                    assert(apply_entry_ok(self.nodes@, self.labels@, self.memo@[k]));
                }
            }
        }
        r
    }
}

/// Evaluation depends only on the variables at or below a given rank: two
/// assignments that agree on every rank reachable from `f` give `f` the
/// same value.
proof fn lemma_eval_indep(
    nodes: Seq<BddNode>,
    labels: Seq<u64>,
    f: int,
    a1: Map<u64, bool>,
    a2: Map<u64, bool>,
    bound: int,
)
    requires
        forall|i: int| 2 <= i < nodes.len() ==> #[trigger] node_ok(nodes, labels, i),
        0 <= f < nodes.len(),
        rank_of(nodes, f) >= bound,
        forall|w: int|
            bound <= w < labels.len() ==> assigned_true(a1, labels[w]) == assigned_true(
                a2,
                #[trigger] labels[w],
            ),
    ensures
        bdd_eval(nodes, labels, f, a1) == bdd_eval(nodes, labels, f, a2),
    decreases f,
{
    if f >= 2 {
        assert(node_ok(nodes, labels, f));
        let n = nodes[f];
        assert(assigned_true(a1, labels[n.var as int]) == assigned_true(a2, labels[n.var as int]));
        lemma_eval_indep(nodes, labels, n.low as int, a1, a2, bound);
        lemma_eval_indep(nodes, labels, n.high as int, a1, a2, bound);
    }
}

impl Bdd {
    /// Builds the function of an expression by structural recursion,
    /// composing [`Bdd::var_func`], [`Bdd::terminal_func`], [`Bdd::not_func`]
    /// and [`Bdd::apply`]. The expression need not be simplified first: the
    /// returned function evaluates exactly as the expression under every
    /// assignment.
    pub fn from_expr(&mut self, e: &Expr) -> (r: FuncId)
        requires
            old(self).wf(),
        ensures
            final(self).wf(),
            old(self).nodes_view().is_prefix_of(final(self).nodes_view()),
            old(self).labels_view().is_prefix_of(final(self).labels_view()),
            r < final(self).nodes_view().len(),
            forall|a: Map<u64, bool>|
                bdd_eval(final(self).nodes_view(), final(self).labels_view(), r as int, a)
                    == eval_expr(*e, a),
        decreases e,
    {
        proof {
            lemma_self_prefix(self.nodes@);
            lemma_self_prefix(self.labels@);
        }
        match e {
            Expr::Const(c) => self.terminal_func(*c),
            Expr::Terminal(t) => self.var_func(*t),
            Expr::Not(x) => {
                let s1 = self.from_expr(&**x);
                let ghost nodes1 = self.nodes@;
                let ghost labels1 = self.labels@;
                let r = self.not_func(s1);
                proof {
                    lemma_prefix_trans(old(self).nodes_view(), nodes1, self.nodes@);
                    lemma_self_prefix(labels1);
                    assert forall|a: Map<u64, bool>|
                        bdd_eval(self.nodes@, self.labels@, r as int, a) == eval_expr(*e, a) by {
                        lemma_eval_extend(nodes1, labels1, self.nodes@, self.labels@, s1 as int, a);
                        assert(bdd_eval(nodes1, labels1, s1 as int, a) == eval_expr(**x, a));
                        assert(bdd_eval(self.nodes@, self.labels@, s1 as int, a) == bdd_eval(nodes1, labels1, s1 as int, a));
                        assert(bdd_eval(self.nodes@, self.labels@, r as int, a) == !bdd_eval(self.nodes@, self.labels@, s1 as int, a));
                        assert(eval_expr(*e, a) == !eval_expr(**x, a));
                    }
                }
                r
            },
            Expr::And(x, y) => {
                let s1 = self.from_expr(&**x);
                let ghost nodes1 = self.nodes@;
                let ghost labels1 = self.labels@;
                let s2 = self.from_expr(&**y);
                let ghost nodes2 = self.nodes@;
                let ghost labels2 = self.labels@;
                let r = self.apply(BoolOp::And, s1, s2);
                proof {
                    lemma_prefix_trans(old(self).nodes_view(), nodes1, nodes2);
                    lemma_prefix_trans(old(self).nodes_view(), nodes2, self.nodes@);
                    lemma_prefix_trans(old(self).labels_view(), labels1, labels2);
                    lemma_self_prefix(labels2);
                    assert(labels2.is_prefix_of(self.labels@));
                    lemma_prefix_trans(old(self).labels_view(), labels2, self.labels@);
                    assert forall|a: Map<u64, bool>|
                        bdd_eval(self.nodes@, self.labels@, r as int, a) == eval_expr(*e, a) by {
                        lemma_eval_extend(nodes1, labels1, nodes2, labels2, s1 as int, a);
                        lemma_eval_extend(nodes2, labels2, self.nodes@, self.labels@, s1 as int, a);
                        lemma_eval_extend(nodes2, labels2, self.nodes@, self.labels@, s2 as int, a);
                        assert(bdd_eval(nodes1, labels1, s1 as int, a) == eval_expr(**x, a));
                        assert(bdd_eval(nodes2, labels2, s2 as int, a) == eval_expr(**y, a));
                        assert(eval_expr(*e, a) == (eval_expr(**x, a) && eval_expr(**y, a)));
                    }
                }
                r
            },
            Expr::Or(x, y) => {
                let s1 = self.from_expr(&**x);
                let ghost nodes1 = self.nodes@;
                let ghost labels1 = self.labels@;
                let s2 = self.from_expr(&**y);
                let ghost nodes2 = self.nodes@;
                let ghost labels2 = self.labels@;
                let r = self.apply(BoolOp::Or, s1, s2);
                proof {
                    lemma_prefix_trans(old(self).nodes_view(), nodes1, nodes2);
                    lemma_prefix_trans(old(self).nodes_view(), nodes2, self.nodes@);
                    lemma_prefix_trans(old(self).labels_view(), labels1, labels2);
                    lemma_self_prefix(labels2);
                    assert(labels2.is_prefix_of(self.labels@));
                    lemma_prefix_trans(old(self).labels_view(), labels2, self.labels@);
                    assert forall|a: Map<u64, bool>|
                        bdd_eval(self.nodes@, self.labels@, r as int, a) == eval_expr(*e, a) by {
                        lemma_eval_extend(nodes1, labels1, nodes2, labels2, s1 as int, a);
                        lemma_eval_extend(nodes2, labels2, self.nodes@, self.labels@, s1 as int, a);
                        lemma_eval_extend(nodes2, labels2, self.nodes@, self.labels@, s2 as int, a);
                        assert(bdd_eval(nodes1, labels1, s1 as int, a) == eval_expr(**x, a));
                        assert(bdd_eval(nodes2, labels2, s2 as int, a) == eval_expr(**y, a));
                        assert(eval_expr(*e, a) == (eval_expr(**x, a) || eval_expr(**y, a)));
                    }
                }
                r
            },
        }
    }

    /// Evaluates the function `f` under a set of terminal assignments,
    /// walking from `f` to a terminal; unassigned terminals default to
    /// `false`. The ordering invariant bounds the walk by the number of
    /// variables.
    pub fn evaluate(&self, f: FuncId, vals: &HashMap<u64, bool>) -> (r: bool)
        requires
            self.wf(),
            f < self.nodes_view().len(),
        ensures
            r == bdd_eval(self.nodes_view(), self.labels_view(), f as int, vals@),
    {
        let mut cur = f;
        while cur > BDD_ONE
            invariant
                self.wf(),
                cur < self.nodes_view().len(),
                f < self.nodes_view().len(),
                bdd_eval(self.nodes_view(), self.labels_view(), cur as int, vals@) == bdd_eval(
                    self.nodes_view(),
                    self.labels_view(),
                    f as int,
                    vals@,
                ),
            decreases cur,
        {
            proof {
                assert(node_ok(self.nodes_view(), self.labels_view(), cur as int));
            }
            let n = self.nodes[cur];
            let llen = self.labels.len();
            proof {
                assert((n.var as int) < llen as int);
            }
            let label = self.labels[n.var as usize];
            let val = match vals.get(&label) {
                Some(b) => *b,
                None => false,
            };
            proof {
                assert(label == self.labels_view()[n.var as int]);
                assert(val == assigned_true(vals@, label));
                assert(var_reads_true(self.labels_view(), n.var, vals@) == val);
            }
            cur = if val {
                n.high
            } else {
                n.low
            };
        }
        cur == BDD_ONE
    }

    /// Fixes one terminal to a constant inside the function `f`: nodes
    /// testing `t`'s rank are replaced by the chosen child, and the rest of
    /// the graph is rebuilt through [`Bdd::mk_node`]. Like [`Bdd::not_func`],
    /// the walk is a single ascending sweep over the ids reachable from
    /// `f`, so it needs no call stack.
    fn restrict_rank(&mut self, f: FuncId, v: u64, val: bool) -> (r: FuncId)
        requires
            old(self).wf(),
            f < old(self).nodes_view().len(),
            (v as int) < old(self).labels_view().len(),
        ensures
            final(self).wf(),
            old(self).nodes_view().is_prefix_of(final(self).nodes_view()),
            final(self).labels_view() == old(self).labels_view(),
            r < final(self).nodes_view().len(),
            rank_of(final(self).nodes_view(), r as int) >= rank_of(
                old(self).nodes_view(),
                f as int,
            ),
            forall|a: Map<u64, bool>|
                bdd_eval(final(self).nodes_view(), final(self).labels_view(), r as int, a)
                    == bdd_eval(
                    old(self).nodes_view(),
                    old(self).labels_view(),
                    f as int,
                    a.insert(old(self).labels_view()[v as int], val),
                ),
    {
        proof {
            lemma_self_prefix(self.nodes@);
            lemma_self_prefix(self.labels@);
        }
        let ghost nodes0 = self.nodes@;
        let ghost labels0 = self.labels@;
        let ghost t = self.labels@[v as int];
        let n0 = self.nodes.len();
        let mut marks: Vec<bool> = Vec::new();
        let mut k: usize = 0;
        while k < n0
            invariant
                0 <= k <= n0,
                marks@.len() == k,
                forall|j: int| 0 <= j < k ==> !marks@[j],
            decreases n0 - k,
        {
            marks.push(false);
            k += 1;
        }
        self.mark_reachable(f, &mut marks);
        let mut table: Vec<FuncId> = Vec::new();
        let mut k2: usize = 0;
        while k2 < n0
            invariant
                0 <= k2 <= n0,
                table@.len() == k2,
            decreases n0 - k2,
        {
            table.push(BDD_ZERO);
            k2 += 1;
        }
        let mut i: usize = 0;
        while i <= f
            invariant
                0 <= i <= f + 1,
                f < n0,
                n0 == nodes0.len(),
                nodes0 == old(self).nodes_view(),
                labels0 == old(self).labels_view(),
                (v as int) < labels0.len(),
                t == labels0[v as int],
                graph_wf(nodes0, labels0),
                self.wf(),
                nodes0.is_prefix_of(self.nodes@),
                self.labels@ == labels0,
                marks@.len() == n0,
                marks_closed(nodes0, marks@),
                forall|j: int|
                    0 <= j < n0 ==> (marks@[j] <==> reach_set(nodes0, f as int).contains(j)),
                table@.len() == n0,
                forall|j: int|
                    0 <= j < i && marks@[j] ==> (#[trigger] table@[j]) < self.nodes@.len()
                        && rank_of(self.nodes@, table@[j] as int) >= rank_of(self.nodes@, j),
                forall|j: int, a: Map<u64, bool>|
                    #![trigger bdd_eval(self.nodes@, self.labels@, table@[j] as int, a)]
                    0 <= j < i && marks@[j] ==> bdd_eval(
                        self.nodes@,
                        self.labels@,
                        table@[j] as int,
                        a,
                    ) == bdd_eval(self.nodes@, self.labels@, j, a.insert(t, val)),
            decreases f + 1 - i,
        {
            if marks[i] {
                if i <= BDD_ONE {
                    table.set(i, i);
                } else {
                    proof {
                        assert(node_ok(self.nodes@, self.labels@, i as int));
                        lemma_prefix_index(nodes0, self.nodes@, i as int);
                        assert(node_ok(nodes0, labels0, i as int));
                        assert(marks@[nodes0[i as int].low as int]);
                        assert(marks@[nodes0[i as int].high as int]);
                    }
                    let nd = self.nodes[i];
                    if nd.var > v {
                        table.set(i, i);
                        proof {
                            assert forall|a: Map<u64, bool>|
                                bdd_eval(self.nodes@, self.labels@, i as int, a) == bdd_eval(
                                self.nodes@,
                                self.labels@,
                                i as int,
                                a.insert(t, val),
                            ) by {
                                assert forall|w: int|
                                    v + 1 <= w < labels0.len() implies assigned_true(a, labels0[w])
                                    == assigned_true(a.insert(t, val), #[trigger] labels0[w]) by {
                                    assert(labels0[w] != t);
                                }
                                lemma_eval_indep(
                                    self.nodes@,
                                    self.labels@,
                                    i as int,
                                    a,
                                    a.insert(t, val),
                                    v as int + 1,
                                );
                            }
                        }
                    } else if nd.var == v {
                        let child = if val {
                            nd.high
                        } else {
                            nd.low
                        };
                        table.set(i, child);
                        proof {
                            assert forall|a: Map<u64, bool>|
                                bdd_eval(self.nodes@, self.labels@, child as int, a) == bdd_eval(
                                self.nodes@,
                                self.labels@,
                                i as int,
                                a.insert(t, val),
                            ) by {
                                assert forall|w: int|
                                    v + 1 <= w < labels0.len() implies assigned_true(a, labels0[w])
                                    == assigned_true(a.insert(t, val), #[trigger] labels0[w]) by {
                                    assert(labels0[w] != t);
                                }
                                lemma_eval_indep(
                                    self.nodes@,
                                    self.labels@,
                                    child as int,
                                    a,
                                    a.insert(t, val),
                                    v as int + 1,
                                );
                                assert(var_reads_true(labels0, v, a.insert(t, val)) == val);
                            }
                        }
                    } else {
                        let rl = table[nd.low];
                        let rh = table[nd.high];
                        let ghost nodes_b = self.nodes@;
                        let r_i = self.mk_node(nd.var, rl, rh);
                        table.set(i, r_i);
                        proof {
                            assert(nodes_b.is_prefix_of(self.nodes@));
                            lemma_prefix_trans(nodes0, nodes_b, self.nodes@);
                            lemma_prefix_index(nodes_b, self.nodes@, i as int);
                            assert forall|j: int|
                                0 <= j < i + 1 && marks@[j] implies (#[trigger] table@[j])
                                < self.nodes@.len() && rank_of(self.nodes@, table@[j] as int)
                                >= rank_of(self.nodes@, j) by {
                                if j < i {
                                    lemma_rank_extend(nodes_b, self.nodes@, table@[j] as int);
                                    lemma_rank_extend(nodes_b, self.nodes@, j);
                                } else {
                                    lemma_rank_extend(nodes_b, self.nodes@, i as int);
                                }
                            }
                            assert forall|j: int, a: Map<u64, bool>|
                                #![trigger bdd_eval(self.nodes@, self.labels@, table@[j] as int, a)]
                                0 <= j < i + 1 && marks@[j] implies bdd_eval(
                                self.nodes@,
                                self.labels@,
                                table@[j] as int,
                                a,
                            ) == bdd_eval(self.nodes@, self.labels@, j, a.insert(t, val)) by {
                                if j < i {
                                    lemma_eval_extend(
                                        nodes_b,
                                        labels0,
                                        self.nodes@,
                                        self.labels@,
                                        table@[j] as int,
                                        a,
                                    );
                                    lemma_eval_extend(
                                        nodes_b,
                                        labels0,
                                        self.nodes@,
                                        self.labels@,
                                        j,
                                        a.insert(t, val),
                                    );
                                } else {
                                    lemma_eval_extend(
                                        nodes_b,
                                        labels0,
                                        self.nodes@,
                                        self.labels@,
                                        rl as int,
                                        a,
                                    );
                                    lemma_eval_extend(
                                        nodes_b,
                                        labels0,
                                        self.nodes@,
                                        self.labels@,
                                        rh as int,
                                        a,
                                    );
                                    lemma_eval_extend(
                                        nodes_b,
                                        labels0,
                                        self.nodes@,
                                        self.labels@,
                                        nd.low as int,
                                        a.insert(t, val),
                                    );
                                    lemma_eval_extend(
                                        nodes_b,
                                        labels0,
                                        self.nodes@,
                                        self.labels@,
                                        nd.high as int,
                                        a.insert(t, val),
                                    );
                                    assert(bdd_eval(nodes_b, labels0, rl as int, a) == bdd_eval(
                                        nodes_b,
                                        labels0,
                                        nd.low as int,
                                        a.insert(t, val),
                                    ));
                                    assert(bdd_eval(nodes_b, labels0, rh as int, a) == bdd_eval(
                                        nodes_b,
                                        labels0,
                                        nd.high as int,
                                        a.insert(t, val),
                                    ));
                                    assert(labels0[nd.var as int] != t);
                                    assert(var_reads_true(labels0, nd.var, a.insert(t, val))
                                        == var_reads_true(labels0, nd.var, a));
                                    assert(bdd_eval(self.nodes@, self.labels@, i as int, a.insert(
                                        t,
                                        val,
                                    )) == (if var_reads_true(labels0, nd.var, a.insert(t, val)) {
                                        bdd_eval(
                                            self.nodes@,
                                            self.labels@,
                                            nd.high as int,
                                            a.insert(t, val),
                                        )
                                    } else {
                                        bdd_eval(
                                            self.nodes@,
                                            self.labels@,
                                            nd.low as int,
                                            a.insert(t, val),
                                        )
                                    }));
                                }
                            }
                        }
                    }
                }
            }
            i += 1;
        }
        let r = table[f];
        proof {
            assert(marks@[f as int]) by {
                assert(reach_set(nodes0, f as int).contains(f as int));
            }
            lemma_rank_extend(nodes0, self.nodes@, f as int);
            assert forall|a: Map<u64, bool>|
                bdd_eval(self.nodes@, self.labels@, r as int, a) == bdd_eval(
                    nodes0,
                    labels0,
                    f as int,
                    a.insert(t, val),
                ) by {
                lemma_eval_extend(
                    nodes0,
                    labels0,
                    self.nodes@,
                    self.labels@,
                    f as int,
                    a.insert(t, val),
                );
            }
        }
        r
    }

    /// Returns the function obtained from `f` by fixing the terminal `t`
    /// to the constant `value`: the standalone cofactor operation.
    pub fn restrict(&mut self, f: FuncId, t: u64, value: bool) -> (r: FuncId)
        requires
            old(self).wf(),
            f < old(self).nodes_view().len(),
        ensures
            final(self).wf(),
            old(self).nodes_view().is_prefix_of(final(self).nodes_view()),
            final(self).labels_view() == old(self).labels_view(),
            r < final(self).nodes_view().len(),
            forall|a: Map<u64, bool>|
                bdd_eval(final(self).nodes_view(), final(self).labels_view(), r as int, a)
                    == bdd_eval(
                    old(self).nodes_view(),
                    old(self).labels_view(),
                    f as int,
                    a.insert(t, value),
                ),
    {
        proof {
            lemma_self_prefix(self.nodes@);
        }
        match self.find_rank(t) {
            Some(v) => {
                proof {
                    assert(usize::MAX as int <= u64::MAX as int);
                }
                self.restrict_rank(f, v as u64, value)
            },
            None => {
                proof {
                    let nodes0 = self.nodes@;
                    let labels0 = self.labels@;
                    assert forall|a: Map<u64, bool>|
                        bdd_eval(nodes0, labels0, f as int, a) == bdd_eval(
                            nodes0,
                            labels0,
                            f as int,
                            a.insert(t, value),
                        ) by {
                        assert forall|w: int|
                            0 <= w < labels0.len() implies assigned_true(a, labels0[w])
                            == assigned_true(a.insert(t, value), #[trigger] labels0[w]) by {
                            assert(labels0[w] != t);
                        }
                        lemma_eval_indep(nodes0, labels0, f as int, a, a.insert(t, value), 0);
                    }
                }
                f
            },
        }
    }
}

/// Cofactoring at a node: the children of the node at `g` are the two
/// restrictions of `g` on its own variable.
proof fn lemma_cofactor(nodes: Seq<BddNode>, labels: Seq<u64>, g: int, a: Map<u64, bool>)
    requires
        graph_wf(nodes, labels),
        2 <= g < nodes.len(),
    ensures
        bdd_eval(nodes, labels, nodes[g].low as int, a) == bdd_eval(
            nodes,
            labels,
            g,
            a.insert(labels[nodes[g].var as int], false),
        ),
        bdd_eval(nodes, labels, nodes[g].high as int, a) == bdd_eval(
            nodes,
            labels,
            g,
            a.insert(labels[nodes[g].var as int], true),
        ),
{
    let n = nodes[g];
    let v = n.var;
    assert(node_ok(nodes, labels, g));
    let t = labels[v as int];
    let a0 = a.insert(t, false);
    let a1 = a.insert(t, true);
    assert(!assigned_true(a0, t));
    assert(assigned_true(a1, t));
    assert(bdd_eval(nodes, labels, g, a0) == bdd_eval(nodes, labels, n.low as int, a0));
    assert(bdd_eval(nodes, labels, g, a1) == bdd_eval(nodes, labels, n.high as int, a1));
    assert forall|w: int|
        v + 1 <= w < labels.len() implies assigned_true(a0, labels[w]) == assigned_true(
        a,
        #[trigger] labels[w],
    ) by {
        assert(labels[w] != t);
    }
    assert forall|w: int|
        v + 1 <= w < labels.len() implies assigned_true(a1, labels[w]) == assigned_true(
        a,
        #[trigger] labels[w],
    ) by {
        assert(labels[w] != t);
    }
    lemma_eval_indep(nodes, labels, n.low as int, a0, a, v as int + 1);
    lemma_eval_indep(nodes, labels, n.high as int, a1, a, v as int + 1);
}

/// Canonicity of the reduced ordered arena: within one well-formed engine,
/// two ids that evaluate alike under every assignment are the same id.
/// Together with the contracts of `mk_node` and `apply`, this is the sense
/// in which every Boolean function has exactly one node in the engine, and
/// Boolean-equivalent construction paths collapse to one `FuncId`.
pub proof fn lemma_canonicity(nodes: Seq<BddNode>, labels: Seq<u64>, f: int, g: int)
    requires
        graph_wf(nodes, labels),
        0 <= f < nodes.len(),
        0 <= g < nodes.len(),
        forall|a: Map<u64, bool>|
            bdd_eval(nodes, labels, f, a) == bdd_eval(nodes, labels, g, a),
    ensures
        f == g,
    decreases f + g,
{
    if f < 2 && g < 2 {
        let witness = Map::<u64, bool>::empty();
        assert(bdd_eval(nodes, labels, f, witness) == bdd_eval(nodes, labels, g, witness));
    } else if f < 2 {
        let n = nodes[g];
        assert(node_ok(nodes, labels, g));
        let t = labels[n.var as int];
        assert forall|a: Map<u64, bool>|
            bdd_eval(nodes, labels, n.low as int, a) == bdd_eval(nodes, labels, f, a) by {
            lemma_cofactor(nodes, labels, g, a);
            assert(bdd_eval(nodes, labels, f, a.insert(t, false)) == bdd_eval(
                nodes,
                labels,
                g,
                a.insert(t, false),
            ));
        }
        assert forall|a: Map<u64, bool>|
            bdd_eval(nodes, labels, n.high as int, a) == bdd_eval(nodes, labels, f, a) by {
            lemma_cofactor(nodes, labels, g, a);
            assert(bdd_eval(nodes, labels, f, a.insert(t, true)) == bdd_eval(
                nodes,
                labels,
                g,
                a.insert(t, true),
            ));
        }
        lemma_canonicity(nodes, labels, f, n.low as int);
        lemma_canonicity(nodes, labels, f, n.high as int);
        assert(false);
    } else if g < 2 {
        let n = nodes[f];
        assert(node_ok(nodes, labels, f));
        let t = labels[n.var as int];
        assert forall|a: Map<u64, bool>|
            bdd_eval(nodes, labels, n.low as int, a) == bdd_eval(nodes, labels, g, a) by {
            lemma_cofactor(nodes, labels, f, a);
            assert(bdd_eval(nodes, labels, f, a.insert(t, false)) == bdd_eval(
                nodes,
                labels,
                g,
                a.insert(t, false),
            ));
        }
        assert forall|a: Map<u64, bool>|
            bdd_eval(nodes, labels, n.high as int, a) == bdd_eval(nodes, labels, g, a) by {
            lemma_cofactor(nodes, labels, f, a);
            assert(bdd_eval(nodes, labels, f, a.insert(t, true)) == bdd_eval(
                nodes,
                labels,
                g,
                a.insert(t, true),
            ));
        }
        lemma_canonicity(nodes, labels, n.low as int, g);
        lemma_canonicity(nodes, labels, n.high as int, g);
        assert(false);
    } else {
        let nf = nodes[f];
        let ng = nodes[g];
        assert(node_ok(nodes, labels, f));
        assert(node_ok(nodes, labels, g));
        if nf.var == ng.var {
            let t = labels[nf.var as int];
            assert forall|a: Map<u64, bool>|
                bdd_eval(nodes, labels, nf.low as int, a) == bdd_eval(
                    nodes,
                    labels,
                    ng.low as int,
                    a,
                ) by {
                lemma_cofactor(nodes, labels, f, a);
                lemma_cofactor(nodes, labels, g, a);
                assert(bdd_eval(nodes, labels, f, a.insert(t, false)) == bdd_eval(
                    nodes,
                    labels,
                    g,
                    a.insert(t, false),
                ));
            }
            assert forall|a: Map<u64, bool>|
                bdd_eval(nodes, labels, nf.high as int, a) == bdd_eval(
                    nodes,
                    labels,
                    ng.high as int,
                    a,
                ) by {
                lemma_cofactor(nodes, labels, f, a);
                lemma_cofactor(nodes, labels, g, a);
                assert(bdd_eval(nodes, labels, f, a.insert(t, true)) == bdd_eval(
                    nodes,
                    labels,
                    g,
                    a.insert(t, true),
                ));
            }
            lemma_canonicity(nodes, labels, nf.low as int, ng.low as int);
            lemma_canonicity(nodes, labels, nf.high as int, ng.high as int);
            if f != g {
                assert(same_triple(nodes[f], nodes[g]));
                assert(false);
            }
        } else if nf.var < ng.var {
            let t = labels[nf.var as int];
            assert forall|a: Map<u64, bool>|
                bdd_eval(nodes, labels, nf.low as int, a) == bdd_eval(nodes, labels, g, a) by {
                lemma_cofactor(nodes, labels, f, a);
                assert forall|w: int|
                    nf.var + 1 <= w < labels.len() implies assigned_true(
                    a.insert(t, false),
                    labels[w],
                ) == assigned_true(a, #[trigger] labels[w]) by {
                    assert(labels[w] != t);
                }
                lemma_eval_indep(nodes, labels, g, a.insert(t, false), a, nf.var as int + 1);
                assert(bdd_eval(nodes, labels, f, a.insert(t, false)) == bdd_eval(
                    nodes,
                    labels,
                    g,
                    a.insert(t, false),
                ));
            }
            assert forall|a: Map<u64, bool>|
                bdd_eval(nodes, labels, nf.high as int, a) == bdd_eval(nodes, labels, g, a) by {
                lemma_cofactor(nodes, labels, f, a);
                assert forall|w: int|
                    nf.var + 1 <= w < labels.len() implies assigned_true(
                    a.insert(t, true),
                    labels[w],
                ) == assigned_true(a, #[trigger] labels[w]) by {
                    assert(labels[w] != t);
                }
                lemma_eval_indep(nodes, labels, g, a.insert(t, true), a, nf.var as int + 1);
                assert(bdd_eval(nodes, labels, f, a.insert(t, true)) == bdd_eval(
                    nodes,
                    labels,
                    g,
                    a.insert(t, true),
                ));
            }
            lemma_canonicity(nodes, labels, nf.low as int, g);
            lemma_canonicity(nodes, labels, nf.high as int, g);
            assert(false);
        } else {
            let t = labels[ng.var as int];
            assert forall|a: Map<u64, bool>|
                bdd_eval(nodes, labels, ng.low as int, a) == bdd_eval(nodes, labels, f, a) by {
                lemma_cofactor(nodes, labels, g, a);
                assert forall|w: int|
                    ng.var + 1 <= w < labels.len() implies assigned_true(
                    a.insert(t, false),
                    labels[w],
                ) == assigned_true(a, #[trigger] labels[w]) by {
                    assert(labels[w] != t);
                }
                lemma_eval_indep(nodes, labels, f, a.insert(t, false), a, ng.var as int + 1);
                assert(bdd_eval(nodes, labels, f, a.insert(t, false)) == bdd_eval(
                    nodes,
                    labels,
                    g,
                    a.insert(t, false),
                ));
            }
            assert forall|a: Map<u64, bool>|
                bdd_eval(nodes, labels, ng.high as int, a) == bdd_eval(nodes, labels, f, a) by {
                lemma_cofactor(nodes, labels, g, a);
                assert forall|w: int|
                    ng.var + 1 <= w < labels.len() implies assigned_true(
                    a.insert(t, true),
                    labels[w],
                ) == assigned_true(a, #[trigger] labels[w]) by {
                    assert(labels[w] != t);
                }
                lemma_eval_indep(nodes, labels, f, a.insert(t, true), a, ng.var as int + 1);
                assert(bdd_eval(nodes, labels, f, a.insert(t, true)) == bdd_eval(
                    nodes,
                    labels,
                    g,
                    a.insert(t, true),
                ));
            }
            lemma_canonicity(nodes, labels, f, ng.low as int);
            lemma_canonicity(nodes, labels, f, ng.high as int);
            assert(false);
        }
    }
}

/// The number of assignments to the variable ranks in `[v, n)` that
/// satisfy the function at `f`, assuming every variable tested inside `f`
/// has rank at least `v`: the standard ROBDD model count, weighting each
/// child by one factor of two per variable rank skipped on the way to it.
pub open spec fn count_models(nodes: Seq<BddNode>, f: int, v: int, n: int) -> nat
    decreases f,
{
    if f == 1 {
        pow2((n - v) as nat)
    } else if 2 <= f < nodes.len() && nodes[f].low < f && nodes[f].high < f && 0 <= f {
        let nd = nodes[f];
        pow2((nd.var - v) as nat) * (count_models(nodes, nd.low as int, nd.var as int + 1, n)
            + count_models(nodes, nd.high as int, nd.var as int + 1, n))
    } else {
        0
    }
}

/// At most `2^(n - v)` assignments of the ranks in `[v, n)` satisfy any
/// function whose top rank is at least `v`.
proof fn lemma_count_bound(nodes: Seq<BddNode>, labels: Seq<u64>, f: int, v: int, n: int)
    requires
        forall|i: int| 2 <= i < nodes.len() ==> #[trigger] node_ok(nodes, labels, i),
        0 <= f < nodes.len(),
        rank_of(nodes, f) >= v,
        0 <= v <= n,
        labels.len() <= n,
    ensures
        count_models(nodes, f, v, n) <= pow2((n - v) as nat),
    decreases f,
{
    if f >= 2 {
        assert(node_ok(nodes, labels, f));
        let nd = nodes[f];
        lemma_count_bound(nodes, labels, nd.low as int, nd.var as int + 1, n);
        lemma_count_bound(nodes, labels, nd.high as int, nd.var as int + 1, n);
        let cl = count_models(nodes, nd.low as int, nd.var as int + 1, n);
        let ch = count_models(nodes, nd.high as int, nd.var as int + 1, n);
        assert(cl + ch <= 2 * pow2((n - nd.var - 1) as nat));
        assert(2 * pow2((n - nd.var - 1) as nat) == pow2((n - nd.var) as nat)) by {
            lemma_pow2_adds(1, (n - nd.var - 1) as nat);
            lemma2_to64();
        }
        vstd::arithmetic::mul::lemma_mul_inequality(
            (cl + ch) as int,
            pow2((n - nd.var) as nat) as int,
            pow2((nd.var - v) as nat) as int,
        );
        lemma_pow2_adds((nd.var - v) as nat, (n - nd.var) as nat);
        assert(pow2((nd.var - v) as nat) * (cl + ch) <= pow2((nd.var - v) as nat) * pow2(
            (n - nd.var) as nat,
        )) by {
            assert((cl + ch) * pow2((nd.var - v) as nat) <= pow2((n - nd.var) as nat) * pow2(
                (nd.var - v) as nat,
            ));
            vstd::arithmetic::mul::lemma_mul_is_commutative(
                (cl + ch) as int,
                pow2((nd.var - v) as nat) as int,
            );
            vstd::arithmetic::mul::lemma_mul_is_commutative(
                pow2((n - nd.var) as nat) as int,
                pow2((nd.var - v) as nat) as int,
            );
        }
    }
}

/// Two to the power `k`, computed for the model counter.
fn pow2_u128(k: u32) -> (r: u128)
    requires
        k <= 127,
    ensures
        r == pow2(k as nat),
{
    let mut i: u32 = 0;
    let mut acc: u128 = 1;
    proof {
        lemma2_to64();
    }
    while i < k
        invariant
            0 <= i <= k <= 127,
            acc == pow2(i as nat),
        decreases k - i,
    {
        proof {
            lemma_pow2_adds(1, i as nat);
            lemma2_to64();
            if (i + 1) < 128 {
                lemma_pow2_strictly_increases((i + 1) as nat, 128);
            }
            assert(pow2(128) == 0x100000000000000000000000000000000) by {
                lemma_pow2_adds(64, 64);
                lemma2_to64();
            }
        }
        acc = acc * 2;
        i = i + 1;
    }
    acc
}

impl Bdd {
    /// The model count of `f` over the ranks in `[v, n)`, where `n` is the
    /// number of tracked variables.
    fn sat_count_from(&self, f: FuncId, v: u64) -> (r: u128)
        requires
            self.wf(),
            f < self.nodes_view().len(),
            self.labels_view().len() <= 127,
            v <= self.labels_view().len(),
            rank_of(self.nodes_view(), f as int) >= v,
        ensures
            r as nat == count_models(
                self.nodes_view(),
                f as int,
                v as int,
                self.labels_view().len() as int,
            ),
        decreases f,
    {
        let ghost nodes = self.nodes_view();
        let ghost labels = self.labels_view();
        let n = self.labels.len() as u64;
        if f == BDD_ZERO {
            return 0;
        }
        if f == BDD_ONE {
            return pow2_u128((n - v) as u32);
        }
        proof {
            assert(node_ok(nodes, labels, f as int));
        }
        let nd = self.nodes[f];
        let cl = self.sat_count_from(nd.low, nd.var + 1);
        let ch = self.sat_count_from(nd.high, nd.var + 1);
        proof {
            lemma_count_bound(nodes, labels, nd.low as int, nd.var as int + 1, n as int);
            lemma_count_bound(nodes, labels, nd.high as int, nd.var as int + 1, n as int);
            assert(cl as nat + ch as nat <= 2 * pow2((n - nd.var - 1) as nat));
            assert(2 * pow2((n - nd.var - 1) as nat) == pow2((n - nd.var) as nat)) by {
                lemma_pow2_adds(1, (n - nd.var - 1) as nat);
                lemma2_to64();
            }
            lemma_count_bound(nodes, labels, f as int, v as int, n as int);
            if (n - v) < 128 {
                lemma_pow2_strictly_increases((n - v) as nat, 128);
            }
            lemma_pow2_strictly_increases((n - nd.var) as nat, 128);
            assert(pow2(128) == 0x100000000000000000000000000000000) by {
                lemma_pow2_adds(64, 64);
                lemma2_to64();
            }
        }
        let w = pow2_u128((nd.var - v) as u32);
        let sum = cl + ch;
        proof {
            assert((w * sum) as nat == count_models(nodes, f as int, v as int, n as int));
        }
        w * sum
    }

    /// Counts the assignments of this engine's tracked variables that
    /// satisfy `f`: one per combination of terminal values making the
    /// function true. Counts reach `2^v` for `v` tracked variables, so the
    /// result is returned as a 128-bit integer and the engine must track at
    /// most 127 variables.
    pub fn sat_count(&self, f: FuncId) -> (r: u128)
        requires
            self.wf(),
            f < self.nodes_view().len(),
            self.labels_view().len() <= 127,
        ensures
            r as nat == count_models(
                self.nodes_view(),
                f as int,
                0,
                self.labels_view().len() as int,
            ),
    {
        self.sat_count_from(f, 0)
    }
}

/// In a reduced arena, only the zero terminal is unsatisfiable: the model
/// count of a function is zero exactly when it is the constant-false id.
/// With canonicity, this is what makes satisfiability and equivalence
/// checks a comparison of ids.
pub proof fn lemma_count_zero_iff_false(
    nodes: Seq<BddNode>,
    labels: Seq<u64>,
    f: int,
    v: int,
    n: int,
)
    requires
        forall|i: int| 2 <= i < nodes.len() ==> #[trigger] node_ok(nodes, labels, i),
        0 <= f < nodes.len(),
        rank_of(nodes, f) >= v,
        0 <= v <= n,
        labels.len() <= n,
    ensures
        count_models(nodes, f, v, n) == 0 <==> f == 0,
    decreases f,
{
    if f == 1 {
        lemma_pow2_pos((n - v) as nat);
    } else if f >= 2 {
        assert(node_ok(nodes, labels, f));
        let nd = nodes[f];
        lemma_count_zero_iff_false(nodes, labels, nd.low as int, nd.var as int + 1, n);
        lemma_count_zero_iff_false(nodes, labels, nd.high as int, nd.var as int + 1, n);
        let cl = count_models(nodes, nd.low as int, nd.var as int + 1, n);
        let ch = count_models(nodes, nd.high as int, nd.var as int + 1, n);
        assert(cl + ch > 0);
        lemma_pow2_pos((nd.var - v) as nat);
        vstd::arithmetic::mul::lemma_mul_strictly_positive(
            pow2((nd.var - v) as nat) as int,
            (cl + ch) as int,
        );
    }
}

/// The ids reachable from `f` by following child pointers, `f` included.
pub open spec fn reach_set(nodes: Seq<BddNode>, f: int) -> Set<int>
    decreases f,
{
    if 2 <= f < nodes.len() && nodes[f].low < f && nodes[f].high < f {
        set![f].union(reach_set(nodes, nodes[f].low as int)).union(
            reach_set(nodes, nodes[f].high as int),
        )
    } else {
        set![f]
    }
}

/// The ids below `m` reachable from `f`, in ascending order.
pub open spec fn reach_order_upto(nodes: Seq<BddNode>, f: int, m: int) -> Seq<int> {
    Seq::new(m as nat, |k: int| k).filter(|k: int| reach_set(nodes, f).contains(k))
}

/// The reachable ids in ascending order: the emission order of the DOT
/// export.
pub open spec fn reach_order(nodes: Seq<BddNode>, f: int) -> Seq<int> {
    reach_order_upto(nodes, f, nodes.len() as int)
}

/// A mark vector is closed when the children of every marked decision node
/// are marked too.
spec fn marks_closed(nodes: Seq<BddNode>, marks: Seq<bool>) -> bool {
    &&& marks.len() == nodes.len()
    &&& forall|j: int| #![trigger marks[j]]
        2 <= j < marks.len() && marks[j] && nodes[j].low < j && nodes[j].high < j
            ==> marks[nodes[j].low as int] && marks[nodes[j].high as int]
}

/// The reachable set is closed under taking children: the children of any
/// decision node reachable from `f` are reachable from `f` too.
proof fn lemma_reach_children(nodes: Seq<BddNode>, f: int, i: int)
    requires
        reach_set(nodes, f).contains(i),
        2 <= i < nodes.len(),
        nodes[i].low < i,
        nodes[i].high < i,
    ensures
        reach_set(nodes, f).contains(nodes[i].low as int),
        reach_set(nodes, f).contains(nodes[i].high as int),
    decreases f,
{
    if f == i {
        assert(reach_set(nodes, nodes[i].low as int).contains(nodes[i].low as int));
        assert(reach_set(nodes, nodes[i].high as int).contains(nodes[i].high as int));
    } else {
        assert(2 <= f < nodes.len() && nodes[f].low < f && nodes[f].high < f);
        if reach_set(nodes, nodes[f].low as int).contains(i) {
            lemma_reach_children(nodes, nodes[f].low as int, i);
        } else {
            assert(reach_set(nodes, nodes[f].high as int).contains(i));
            lemma_reach_children(nodes, nodes[f].high as int, i);
        }
    }
}

/// In a closed mark vector, a marked id has its whole reachable set marked.
proof fn lemma_closed_reach(nodes: Seq<BddNode>, labels: Seq<u64>, marks: Seq<bool>, f: int)
    requires
        forall|i: int| 2 <= i < nodes.len() ==> #[trigger] node_ok(nodes, labels, i),
        marks_closed(nodes, marks),
        0 <= f < nodes.len(),
        marks[f],
    ensures
        forall|j: int|
            #[trigger] reach_set(nodes, f).contains(j) ==> 0 <= j < nodes.len() && marks[j],
    decreases f,
{
    if f >= 2 {
        assert(node_ok(nodes, labels, f));
        assert(marks[nodes[f].low as int] && marks[nodes[f].high as int]);
        lemma_closed_reach(nodes, labels, marks, nodes[f].low as int);
        lemma_closed_reach(nodes, labels, marks, nodes[f].high as int);
        let rl = reach_set(nodes, nodes[f].low as int);
        let rh = reach_set(nodes, nodes[f].high as int);
        assert(reach_set(nodes, f) == set![f].union(rl).union(rh));
        assert forall|j: int| reach_set(nodes, f).contains(j) implies 0 <= j < nodes.len()
            && marks[j] by {
            assert(set![f].union(rl).union(rh).contains(j));
            if j != f {
                assert(reach_set(nodes, nodes[f].low as int).contains(j) || reach_set(
                    nodes,
                    nodes[f].high as int,
                ).contains(j));
                if reach_set(nodes, nodes[f].low as int).contains(j) {
                    assert(0 <= j < nodes.len() && marks[j]);
                } else {
                    assert(0 <= j < nodes.len() && marks[j]);
                }
            }
        }
    }
}

impl Bdd {
    /// Marks every id reachable from `f`, leaving older marks in place.
    /// The walk is a single descending sweep over the arena rather than a
    /// recursion, so it needs no call stack: children precede their parent,
    /// so marking the children of every marked id from the top down marks
    /// the whole reachable set.
    fn mark_reachable(&self, f: FuncId, marks: &mut Vec<bool>)
        requires
            self.wf(),
            f < self.nodes_view().len(),
            marks_closed(self.nodes_view(), old(marks)@),
        ensures
            marks_closed(self.nodes_view(), final(marks)@),
            forall|j: int|
                0 <= j < final(marks)@.len() ==> (final(marks)@[j] <==> (old(marks)@[j]
                    || reach_set(self.nodes_view(), f as int).contains(j))),
    {
        let ghost nodes = self.nodes_view();
        let ghost labels = self.labels_view();
        let ghost m0 = marks@;
        marks.set(f, true);
        proof {
            assert(reach_set(nodes, f as int).contains(f as int));
        }
        let n = self.nodes.len();
        let mut i: usize = n;
        while i > 2
            invariant
                2 <= i <= n,
                n == nodes.len(),
                nodes == self.nodes_view(),
                labels == self.labels_view(),
                self.wf(),
                f < n,
                marks@.len() == n,
                m0.len() == n,
                marks_closed(nodes, m0),
                marks@[f as int],
                forall|j: int| 0 <= j < n && m0[j] ==> marks@[j],
                forall|j: int|
                    0 <= j < n && marks@[j] ==> m0[j] || reach_set(nodes, f as int).contains(j),
                forall|j: int| #![trigger marks@[j]]
                    i <= j < n && marks@[j] && nodes[j].low < j && nodes[j].high < j
                        ==> marks@[nodes[j].low as int] && marks@[nodes[j].high as int],
            decreases i,
        {
            i -= 1;
            if marks[i] {
                proof {
                    assert(node_ok(nodes, labels, i as int));
                    if !m0[i as int] {
                        assert(reach_set(nodes, f as int).contains(i as int));
                        lemma_reach_children(nodes, f as int, i as int);
                    }
                }
                let nd = self.nodes[i];
                marks.set(nd.low, true);
                marks.set(nd.high, true);
            }
        }
        proof {
            assert(marks_closed(nodes, marks@));
            lemma_closed_reach(nodes, labels, marks@, f as int);
        }
    }

    /// Exports the subgraph reachable from `f` as DOT text: a `digraph`
    /// block with exactly one node statement per reachable node, in
    /// ascending id order, and one edge statement per child pointer of the
    /// reachable decision nodes. Terminals are drawn as boxes labeled "0"
    /// and "1"; decision nodes are labeled by the terminal of their
    /// variable; low edges are dashed and high edges solid.
    #[verifier::rlimit(100)]
    pub fn to_dot(&self, f: FuncId) -> (r: String)
        requires
            self.wf(),
            f < self.nodes_view().len(),
        ensures
            r@ == dot_text(
                self.nodes_view(),
                self.labels_view(),
                reach_order(self.nodes_view(), f as int),
            ),
    {
        let ghost nodes = self.nodes_view();
        let ghost labels = self.labels_view();
        let n = self.nodes.len();
        let mut marks: Vec<bool> = Vec::new();
        let mut k: usize = 0;
        while k < n
            invariant
                0 <= k <= n,
                marks@.len() == k,
                forall|j: int| 0 <= j < k ==> !marks@[j],
            decreases n - k,
        {
            marks.push(false);
            k += 1;
        }
        self.mark_reachable(f, &mut marks);
        let mut out = String::new();
        out.append("digraph bdd {\n");
        let mut i: usize = 0;
        while i < n
            invariant
                0 <= i <= n,
                n == nodes.len(),
                nodes == self.nodes_view(),
                labels == self.labels_view(),
                self.wf(),
                f < nodes.len(),
                marks@.len() == n,
                forall|j: int|
                    0 <= j < n ==> (marks@[j] <==> reach_set(nodes, f as int).contains(j)),
                out@ == "digraph bdd {\n"@ + dot_body(
                    nodes,
                    labels,
                    reach_order_upto(nodes, f as int, i as int),
                ),
            decreases n - i,
        {
            let ghost ord = reach_order_upto(nodes, f as int, i as int);
            proof {
                assert(usize::MAX as int <= u64::MAX as int);
                reveal_with_fuel(Seq::<_>::filter, 2);
                assert(Seq::new((i + 1) as nat, |k: int| k).drop_last() =~= Seq::new(
                    i as nat,
                    |k: int| k,
                ));
                assert(Seq::new((i + 1) as nat, |k: int| k).last() == i as int);
                assert(reach_order_upto(nodes, f as int, i as int + 1) == (
                if reach_set(nodes, f as int).contains(i as int) {
                    ord.push(i as int)
                } else {
                    ord
                }));
            }
            if marks[i] {
                proof {
                    assert(ord.push(i as int).drop_last() =~= ord);
                    if i >= 2 {
                        assert(node_ok(nodes, labels, i as int));
                    }
                }
                if i < 2 {
                    out.append("n");
                    push_decimal(&mut out, i as u64);
                    out.append(" [shape=box,label=\"");
                    push_decimal(&mut out, i as u64);
                    out.append("\"];\n");
                    proof {
                        assert(out@ =~= "digraph bdd {\n"@ + dot_body(
                            nodes,
                            labels,
                            reach_order_upto(nodes, f as int, i as int + 1),
                        ));
                    }
                } else {
                    let nd = self.nodes[i];
                    let llen = self.labels.len();
                    proof {
                        assert((nd.var as int) < llen as int);
                    }
                    let lab = self.labels[nd.var as usize];
                    out.append("n");
                    push_decimal(&mut out, i as u64);
                    out.append(" [label=\"");
                    push_decimal(&mut out, lab);
                    out.append("\"];\n");
                    out.append("n");
                    push_decimal(&mut out, i as u64);
                    out.append(" -> n");
                    push_decimal(&mut out, nd.low as u64);
                    out.append(" [style=dashed];\n");
                    out.append("n");
                    push_decimal(&mut out, i as u64);
                    out.append(" -> n");
                    push_decimal(&mut out, nd.high as u64);
                    out.append(" [style=solid];\n");
                    proof {
                        assert(out@ =~= "digraph bdd {\n"@ + dot_body(
                            nodes,
                            labels,
                            reach_order_upto(nodes, f as int, i as int + 1),
                        ));
                    }
                }
            }
            i += 1;
        }
        out.append("}\n");
        proof {
            assert(out@ =~= dot_text(nodes, labels, reach_order(nodes, f as int)));
        }
        out
    }
}

/// The emission order of the DOT export lists ids strictly ascending — so
/// no id, and hence no node statement, appears twice — and holds exactly
/// the ids reachable from the exported root.
pub proof fn lemma_reach_order_exact(nodes: Seq<BddNode>, f: int, m: int)
    requires
        m >= 0,
    ensures
        forall|k: int|
            0 <= k < reach_order_upto(nodes, f, m).len() ==> 0 <= #[trigger] reach_order_upto(
                nodes,
                f,
                m,
            )[k] < m,
        forall|k1: int, k2: int|
            0 <= k1 < k2 < reach_order_upto(nodes, f, m).len() ==> #[trigger] reach_order_upto(
                nodes,
                f,
                m,
            )[k1] < #[trigger] reach_order_upto(nodes, f, m)[k2],
        forall|j: int|
            0 <= j < m ==> (reach_order_upto(nodes, f, m).contains(j) <==> reach_set(
                nodes,
                f,
            ).contains(j)),
    decreases m,
{
    reveal_with_fuel(Seq::<_>::filter, 2);
    if m == 0 {
        assert(Seq::new(0nat, |k: int| k) =~= Seq::<int>::empty());
        assert(reach_order_upto(nodes, f, 0) =~= Seq::<int>::empty());
        assert forall|j: int| 0 <= j < 0 implies (reach_order_upto(nodes, f, 0).contains(j)
            <==> reach_set(nodes, f).contains(j)) by {}
    } else {
        lemma_reach_order_exact(nodes, f, m - 1);
        let prev = reach_order_upto(nodes, f, m - 1);
        let cur = reach_order_upto(nodes, f, m);
        assert(Seq::new(m as nat, |k: int| k).drop_last() =~= Seq::new((m - 1) as nat, |k: int| k));
        assert(Seq::new(m as nat, |k: int| k).last() == m - 1);
        assert(cur == if reach_set(nodes, f).contains(m - 1) {
            prev.push(m - 1)
        } else {
            prev
        });
        if reach_set(nodes, f).contains(m - 1) {
            assert forall|j: int| 0 <= j < m implies (cur.contains(j) <==> reach_set(
                nodes,
                f,
            ).contains(j)) by {
                if j < m - 1 {
                    assert(cur.contains(j) <==> prev.contains(j)) by {
                        if prev.contains(j) {
                            let k = choose|k: int| 0 <= k < prev.len() && prev[k] == j;
                            assert(cur[k] == j);
                        } else if cur.contains(j) {
                            let k = choose|k: int| 0 <= k < cur.len() && cur[k] == j;
                            assert(k < cur.len() - 1 ==> prev[k] == j);
                        }
                    }
                } else {
                    assert(cur[cur.len() - 1] == m - 1);
                }
            }
        } else {
            assert forall|j: int| 0 <= j < m implies (cur.contains(j) <==> reach_set(
                nodes,
                f,
            ).contains(j)) by {
                if j == m - 1 {
                    if cur.contains(j) {
                        let k = choose|k: int| 0 <= k < cur.len() && cur[k] == j;
                        assert(0 <= cur[k] < m - 1);
                    }
                }
            }
        }
    }
}

} // verus!
