//! Text building blocks for the DOT export of a BDD.
//!
//! The exported text is pinned down exactly at the specification level:
//! [`dot_text`] is the text for a given emission order of node ids, and the
//! engine's export promises to return `dot_text` of its arena over the
//! ascending order of the reachable ids. One node statement is emitted per
//! listed node and one edge statement per child pointer, inside a single
//! `digraph` block.

use vstd::prelude::*;
use vstd::string::StringExecFns;

use crate::bdd::BddNode;

verus! {

/// The decimal digit character for `d`.
pub open spec fn digit_char(d: nat) -> char {
    if d == 0 {
        '0'
    } else if d == 1 {
        '1'
    } else if d == 2 {
        '2'
    } else if d == 3 {
        '3'
    } else if d == 4 {
        '4'
    } else if d == 5 {
        '5'
    } else if d == 6 {
        '6'
    } else if d == 7 {
        '7'
    } else if d == 8 {
        '8'
    } else {
        '9'
    }
}

/// The decimal representation of `n`, most significant digit first.
pub open spec fn dec_digits(n: nat) -> Seq<char>
    decreases n,
{
    if n < 10 {
        seq![digit_char(n)]
    } else {
        dec_digits(n / 10).push(digit_char(n % 10))
    }
}

/// The one-character string for a decimal digit.
fn digit_str(d: u64) -> (r: &'static str)
    requires
        d < 10,
    ensures
        r@ == seq![digit_char(d as nat)],
{
    if d == 0 {
        proof {
            reveal_strlit("0");
        }
        let r = "0";
        proof {
            assert(r@ =~= seq![digit_char(d as nat)]);
        }
        r
    } else if d == 1 {
        proof {
            reveal_strlit("1");
        }
        let r = "1";
        proof {
            assert(r@ =~= seq![digit_char(d as nat)]);
        }
        r
    } else if d == 2 {
        proof {
            reveal_strlit("2");
        }
        let r = "2";
        proof {
            assert(r@ =~= seq![digit_char(d as nat)]);
        }
        r
    } else if d == 3 {
        proof {
            reveal_strlit("3");
        }
        let r = "3";
        proof {
            assert(r@ =~= seq![digit_char(d as nat)]);
        }
        r
    } else if d == 4 {
        proof {
            reveal_strlit("4");
        }
        let r = "4";
        proof {
            assert(r@ =~= seq![digit_char(d as nat)]);
        }
        r
    } else if d == 5 {
        proof {
            reveal_strlit("5");
        }
        let r = "5";
        proof {
            assert(r@ =~= seq![digit_char(d as nat)]);
        }
        r
    } else if d == 6 {
        proof {
            reveal_strlit("6");
        }
        let r = "6";
        proof {
            assert(r@ =~= seq![digit_char(d as nat)]);
        }
        r
    } else if d == 7 {
        proof {
            reveal_strlit("7");
        }
        let r = "7";
        proof {
            assert(r@ =~= seq![digit_char(d as nat)]);
        }
        r
    } else if d == 8 {
        proof {
            reveal_strlit("8");
        }
        let r = "8";
        proof {
            assert(r@ =~= seq![digit_char(d as nat)]);
        }
        r
    } else {
        proof {
            reveal_strlit("9");
        }
        let r = "9";
        proof {
            assert(r@ =~= seq![digit_char(d as nat)]);
        }
        r
    }
}

/// The digit characters of a stack of digits, last pushed first: the
/// order in which a digit stack built least-significant-digit-first must
/// be emitted.
spec fn digit_chars_rev(ds: Seq<u64>) -> Seq<char>
    decreases ds.len(),
{
    if ds.len() == 0 {
        Seq::empty()
    } else {
        seq![digit_char(ds.last() as nat)] + digit_chars_rev(ds.drop_last())
    }
}

proof fn lemma_digit_chars_rev_len(ds: Seq<u64>)
    ensures
        digit_chars_rev(ds).len() == ds.len(),
    decreases ds.len(),
{
    if ds.len() > 0 {
        lemma_digit_chars_rev_len(ds.drop_last());
    }
}

proof fn lemma_digit_chars_rev_index(ds: Seq<u64>, k: int)
    requires
        0 <= k < ds.len(),
    ensures
        digit_chars_rev(ds)[k] == digit_char(ds[ds.len() - 1 - k] as nat),
    decreases ds.len(),
{
    lemma_digit_chars_rev_len(ds.drop_last());
    if k > 0 {
        lemma_digit_chars_rev_index(ds.drop_last(), k - 1);
    }
}

/// Appends the decimal representation of `x` to `s`. The digits are
/// collected least significant first into a stack and emitted in reverse:
/// two plain loops, no recursion.
pub fn push_decimal(s: &mut String, x: u64)
    ensures
        final(s)@ == old(s)@ + dec_digits(x as nat),
{
    let mut digits: Vec<u64> = Vec::new();
    let mut v = x;
    while v >= 10
        invariant
            s@ == old(s)@,
            dec_digits(x as nat) == dec_digits(v as nat) + digit_chars_rev(digits@),
            forall|k: int| 0 <= k < digits@.len() ==> digits@[k] < 10,
        decreases v,
    {
        let ghost ds0 = digits@;
        let ghost v0 = v;
        digits.push(v % 10);
        v = v / 10;
        proof {
            assert(digits@.drop_last() =~= ds0);
            assert(digit_chars_rev(digits@) == seq![digit_char((v0 % 10) as nat)]
                + digit_chars_rev(ds0));
            assert(dec_digits(x as nat) =~= dec_digits(v as nat) + digit_chars_rev(digits@));
        }
    }
    let ghost full = dec_digits(x as nat);
    proof {
        lemma_digit_chars_rev_len(digits@);
        assert(full.len() == digits@.len() + 1);
    }
    let d0 = digit_str(v);
    s.append(d0);
    proof {
        assert(s@ =~= old(s)@ + full.take(full.len() - digits@.len()));
    }
    let mut i = digits.len();
    while i > 0
        invariant
            0 <= i <= digits@.len(),
            forall|k: int| 0 <= k < digits@.len() ==> digits@[k] < 10,
            v < 10,
            full == dec_digits(x as nat),
            full == dec_digits(v as nat) + digit_chars_rev(digits@),
            full.len() == digits@.len() + 1,
            s@ == old(s)@ + full.take(full.len() - i),
        decreases i,
    {
        i -= 1;
        let d = digit_str(digits[i]);
        s.append(d);
        proof {
            lemma_digit_chars_rev_index(digits@, digits@.len() - 1 - i);
            assert(full[full.len() - 1 - i] == digit_char(digits@[i as int] as nat));
            assert(s@ =~= old(s)@ + full.take(full.len() - i));
        }
    }
    proof {
        assert(s@ =~= old(s)@ + full);
    }
}

/// The statements emitted for the node with id `i`: its node statement,
/// and, for a decision node, one edge statement per child (the low edge
/// dashed, the high edge solid). Terminals are boxes labeled by their
/// constant; decision nodes are labeled by the terminal of their variable.
pub open spec fn dot_node_text(nodes: Seq<BddNode>, labels: Seq<u64>, i: int) -> Seq<char> {
    if i < 2 {
        "n"@ + dec_digits(i as nat) + " [shape=box,label=\""@ + dec_digits(i as nat) + "\"];\n"@
    } else {
        let nd = nodes[i];
        "n"@ + dec_digits(i as nat) + " [label=\""@ + dec_digits(labels[nd.var as int] as nat)
            + "\"];\n"@ + "n"@ + dec_digits(i as nat) + " -> n"@ + dec_digits(nd.low as nat)
            + " [style=dashed];\n"@ + "n"@ + dec_digits(i as nat) + " -> n"@ + dec_digits(
            nd.high as nat,
        ) + " [style=solid];\n"@
    }
}

/// The concatenation of the statements of the listed nodes, in order.
pub open spec fn dot_body(nodes: Seq<BddNode>, labels: Seq<u64>, order: Seq<int>) -> Seq<char>
    decreases order.len(),
{
    if order.len() == 0 {
        Seq::empty()
    } else {
        dot_body(nodes, labels, order.drop_last()) + dot_node_text(nodes, labels, order.last())
    }
}

/// The whole exported text for the given emission order: a single
/// `digraph` block holding the statements of the listed nodes.
pub open spec fn dot_text(nodes: Seq<BddNode>, labels: Seq<u64>, order: Seq<int>) -> Seq<char> {
    "digraph bdd {\n"@ + dot_body(nodes, labels, order) + "}\n"@
}

} // verus!
