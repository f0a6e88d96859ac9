use vstd::prelude::*;
use crate::egraph::EGraph;
use crate::term::Node;

verus! {

/// Target node `t[k]` against graph node `m`: same operator with every child pair matching,
/// the same constant, or the same symbol, where the wildcard accepts any symbol.
pub open spec fn node_matches(g: EGraph, m: Node, t: Seq<Node>, k: int) -> bool
    decreases k, 0int, 0int,
{
    if 0 <= k < t.len() {
        match (t[k], m) {
            (Node::Bin(o1, a1, b1), Node::Bin(o2, a2, b2)) => o1 == o2 && 0 <= a1 < k && 0 <= b1 < k
                && class_matches(g, a2 as int, t, a1 as int) && class_matches(g, b2 as int, t, b1 as int),
            (Node::Constant(c1), Node::Constant(c2)) => c1 == c2,
            (Node::Symbol(s1), Node::Symbol(s2)) => s1.spec_is_wildcard() || s1 == s2,
            _ => false,
        }
    } else {
        false
    }
}

/// Some node of the class of `c` matches the target pattern rooted at `t[k]`.
pub open spec fn class_matches(g: EGraph, c: int, t: Seq<Node>, k: int) -> bool
    decreases k, 2int, 0int,
{
    class_matches_below(g, c, t, k, g.n())
}

/// Some node among the first `m` of the class of `c` matches the pattern rooted at `t[k]`.
pub open spec fn class_matches_below(g: EGraph, c: int, t: Seq<Node>, k: int, m: int) -> bool
    decreases k, 1int, m,
{
    if m <= 0 {
        false
    } else {
        class_matches_below(g, c, t, k, m - 1) || (g.parent@[m - 1] == g.parent@[c]
            && node_matches(g, g.nodes@[m - 1], t, k))
    }
}

/// A match among the first `m1` nodes is a match among the first `m2 >= m1`.
proof fn lemma_below_grows(g: EGraph, c: int, t: Seq<Node>, k: int, m1: int, m2: int)
    requires
        m1 <= m2,
        class_matches_below(g, c, t, k, m1),
    ensures
        class_matches_below(g, c, t, k, m2),
    decreases m2 - m1,
{
    if m1 < m2 {
        lemma_below_grows(g, c, t, k, m1, m2 - 1);
    }
}

/// Whether the class of `c` contains the target pattern rooted at position `k`.
/// Alternative nodes of a class are tried in turn; each wildcard occurrence accepts any symbol
/// on its own.
pub fn check_match(g: &EGraph, c: usize, t: &Vec<Node>, k: usize) -> (r: bool)
    requires
        g.wf(),
        c < g.n(),
        k < t@.len(),
    ensures
        r == class_matches(*g, c as int, t@, k as int),
    decreases k, 1int,
{
    let n = g.len();
    let root = g.find(c);
    let mut j: usize = 0;
    while j < n
        invariant
            g.wf(),
            n == g.n(),
            root == g.parent@[c as int],
            c < n,
            k < t@.len(),
            0 <= j <= n,
            !class_matches_below(*g, c as int, t@, k as int, j as int),
        decreases n - j,
    {
        if g.find(j) == root && check_node(g, &g.nodes[j], t, k) {
            proof {
                lemma_below_grows(*g, c as int, t@, k as int, j + 1, n as int);
            }
            return true;
        }
        j = j + 1;
    }
    false
}

/// Whether graph node `m` matches the target node at `k`.
fn check_node(g: &EGraph, m: &Node, t: &Vec<Node>, k: usize) -> (r: bool)
    requires
        g.wf(),
        m.children_below(g.n()),
        k < t@.len(),
    ensures
        r == node_matches(*g, *m, t@, k as int),
    decreases k, 0int,
{
    match (&t[k], m) {
        (Node::Bin(o1, a1, b1), Node::Bin(o2, a2, b2)) => {
            *o1 == *o2 && *a1 < k && *b1 < k && check_match(g, *a2, t, *a1) && check_match(g, *b2, t, *b1)
        },
        (Node::Constant(c1), Node::Constant(c2)) => *c1 == *c2,
        (Node::Symbol(s1), Node::Symbol(s2)) => s1.is_wildcard() || *s1 == *s2,
        _ => false,
    }
}

} // verus!
