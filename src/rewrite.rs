use vstd::prelude::*;
use crate::egraph::EGraph;
use crate::runner::grows;
use crate::term::{Constant, Node, Op};

verus! {

/// A node of a rule pattern: an operator over earlier pattern positions, a constant, or a
/// named pattern variable (an index into the substitution).
#[derive(Clone, Copy, Debug, PartialEq, Eq, Structural)]
pub enum PatNode {
    Bin(Op, usize, usize),
    Constant(Constant),
    Var(usize),
}

/// A pattern over `nvars` variables: children refer to earlier positions, the root is last.
pub open spec fn pat_wf(p: Seq<PatNode>, nvars: int) -> bool {
    &&& p.len() > 0
    &&& forall|k: int|
        0 <= k < p.len() ==> match #[trigger] p[k] {
            PatNode::Bin(_, a, b) => a < k && b < k,
            PatNode::Var(v) => v < nvars,
            PatNode::Constant(_) => true,
        }
}

/// A substitution: one optional class identifier per pattern variable, each below `n`.
pub open spec fn subst_ok(s: Seq<Option<usize>>, nvars: int, n: int) -> bool {
    &&& s.len() == nvars
    &&& forall|v: int| 0 <= v < s.len() && (#[trigger] s[v]) is Some ==> s[v]->Some_0 < n
}

/// `s2` keeps every binding of `s1`.
pub open spec fn extends(s1: Seq<Option<usize>>, s2: Seq<Option<usize>>) -> bool {
    s1.len() == s2.len() && forall|v: int| 0 <= v < s1.len() && (#[trigger] s1[v]) is Some ==> s2[v] == s1[v]
}

/// Pattern position `k` holds at class `c` under `s`: a variable is bound to an identifier
/// of the class, a constant is present in the class, and an operator node has a node
/// in the class with the same operator whose children's classes satisfy the sub-patterns.
pub open spec fn pat_holds(g: EGraph, pat: Seq<PatNode>, k: int, c: int, s: Seq<Option<usize>>) -> bool
    decreases k,
{
    if 0 <= k < pat.len() {
        match pat[k] {
            PatNode::Var(v) => 0 <= v < s.len() && s[v as int] is Some && g.parent@[s[v as int]->Some_0 as int]
                == g.parent@[c],
            PatNode::Constant(x) => g.class_has(c, Node::Constant(x)),
            PatNode::Bin(o, a, b) => a < k && b < k && exists|j: int|
                0 <= j < g.n() && g.parent@[j] == g.parent@[c] && match #[trigger] g.nodes@[j] {
                    Node::Bin(o2, l, r) => o2 == o && pat_holds(g, pat, a as int, l as int, s) && pat_holds(
                        g,
                        pat,
                        b as int,
                        r as int,
                        s,
                    ),
                    _ => false,
                },
        }
    } else {
        false
    }
}

/// Adding bindings keeps a pattern holding.
proof fn lemma_pat_holds_extends(g: EGraph, pat: Seq<PatNode>, k: int, c: int, s1: Seq<Option<usize>>, s2: Seq<Option<usize>>)
    requires
        pat_holds(g, pat, k, c, s1),
        extends(s1, s2),
    ensures
        pat_holds(g, pat, k, c, s2),
    decreases k,
{
    match pat[k] {
        PatNode::Var(v) => {
            assert(s1[v as int] is Some);
        },
        PatNode::Constant(_) => {},
        PatNode::Bin(o, a, b) => {
            let j = choose|j: int|
                0 <= j < g.n() && g.parent@[j] == g.parent@[c] && match #[trigger] g.nodes@[j] {
                    Node::Bin(o2, l, r) => o2 == o && pat_holds(g, pat, a as int, l as int, s1) && pat_holds(
                        g,
                        pat,
                        b as int,
                        r as int,
                        s1,
                    ),
                    _ => false,
                };
            match g.nodes@[j] {
                Node::Bin(o2, l, r) => {
                    lemma_pat_holds_extends(g, pat, a as int, l as int, s1, s2);
                    lemma_pat_holds_extends(g, pat, b as int, r as int, s1, s2);
                },
                _ => {},
            }
        },
    }
}

/// What holds in a graph still holds after it grows (nodes added, classes merged).
pub proof fn lemma_pat_holds_grows(g1: EGraph, g2: EGraph, pat: Seq<PatNode>, k: int, c: int, s: Seq<Option<usize>>, nvars: int)
    requires
        g1.wf(),
        g2.wf(),
        grows(g1, g2),
        0 <= c < g1.n(),
        subst_ok(s, nvars, g1.n()),
        pat_holds(g1, pat, k, c, s),
    ensures
        pat_holds(g2, pat, k, c, s),
    decreases k,
{
    match pat[k] {
        PatNode::Var(v) => {
            let x = s[v as int]->Some_0 as int;
            assert(g1.equiv(x, c));
            assert(g2.equiv(x, c));
        },
        PatNode::Constant(cst) => {
            let j = choose|j: int|
                0 <= j < g1.n() && g1.parent@[j] == g1.parent@[c] && #[trigger] g1.canon(g1.nodes@[j]) == g1.canon(
                    Node::Constant(cst),
                );
            assert(g1.equiv(j, c));
            assert(g2.equiv(j, c));
            assert(g2.nodes@[j] == g2.nodes@.subrange(0, g1.n())[j]);
            assert(g2.canon(g2.nodes@[j]) == g2.canon(Node::Constant(cst)));
        },
        PatNode::Bin(o, a, b) => {
            let j = choose|j: int|
                0 <= j < g1.n() && g1.parent@[j] == g1.parent@[c] && match #[trigger] g1.nodes@[j] {
                    Node::Bin(o2, l, r) => o2 == o && pat_holds(g1, pat, a as int, l as int, s) && pat_holds(
                        g1,
                        pat,
                        b as int,
                        r as int,
                        s,
                    ),
                    _ => false,
                };
            assert(g1.equiv(j, c));
            assert(g2.equiv(j, c));
            assert(g2.nodes@[j] == g2.nodes@.subrange(0, g1.n())[j]);
            assert(g1.nodes@[j].children_below(j));
            match g1.nodes@[j] {
                Node::Bin(o2, l, r) => {
                    lemma_pat_holds_grows(g1, g2, pat, a as int, l as int, s, nvars);
                    lemma_pat_holds_grows(g1, g2, pat, b as int, r as int, s, nvars);
                    assert(g2.parent@[j] == g2.parent@[c]);
                    assert(g2.nodes@[j] == Node::Bin(o2, l, r));
                    assert(0 <= j < g2.n());
                },
                _ => {},
            }
        },
    }
}

/// Whether a pattern holds depends on the class only, not on which of its identifiers is named.
pub proof fn lemma_pat_holds_same_class(g: EGraph, pat: Seq<PatNode>, k: int, c1: int, c2: int, s: Seq<Option<usize>>)
    requires
        g.parent@[c1] == g.parent@[c2],
        pat_holds(g, pat, k, c1, s),
    ensures
        pat_holds(g, pat, k, c2, s),
{
    match pat[k] {
        PatNode::Constant(cst) => {
            let j = choose|j: int|
                0 <= j < g.n() && g.parent@[j] == g.parent@[c1] && #[trigger] g.canon(g.nodes@[j]) == g.canon(
                    Node::Constant(cst),
                );
            assert(g.canon(g.nodes@[j]) == g.canon(Node::Constant(cst)));
        },
        _ => {},
    }
}

/// Every variable that the pattern names is bound in `s`.
pub open spec fn binds_all(pat: Seq<PatNode>, s: Seq<Option<usize>>) -> bool {
    forall|k: int| 0 <= k < pat.len() ==> match #[trigger] pat[k] {
        PatNode::Var(v) => s[v as int] is Some,
        _ => true,
    }
}

/// The variables that occur under pattern position `k`.
pub open spec fn vars_under(pat: Seq<PatNode>, k: int) -> Set<int>
    decreases k,
{
    if 0 <= k < pat.len() {
        match pat[k] {
            PatNode::Var(v) => set![v as int],
            PatNode::Constant(_) => Set::empty(),
            PatNode::Bin(_, a, b) => if a < k && b < k {
                vars_under(pat, a as int).union(vars_under(pat, b as int))
            } else {
                Set::empty()
            },
        }
    } else {
        Set::empty()
    }
}

/// Where a pattern holds, every variable under it is bound.
proof fn lemma_pat_holds_binds(g: EGraph, pat: Seq<PatNode>, k: int, c: int, s: Seq<Option<usize>>, v: int)
    requires
        pat_holds(g, pat, k, c, s),
        vars_under(pat, k).contains(v),
    ensures
        0 <= v < s.len() && s[v] is Some,
    decreases k,
{
    match pat[k] {
        PatNode::Bin(o, a, b) => {
            let j = choose|j: int|
                0 <= j < g.n() && g.parent@[j] == g.parent@[c] && match #[trigger] g.nodes@[j] {
                    Node::Bin(o2, l, r) => o2 == o && pat_holds(g, pat, a as int, l as int, s) && pat_holds(
                        g,
                        pat,
                        b as int,
                        r as int,
                        s,
                    ),
                    _ => false,
                };
            match g.nodes@[j] {
                Node::Bin(o2, l, r) => {
                    if vars_under(pat, a as int).contains(v) {
                        lemma_pat_holds_binds(g, pat, a as int, l as int, s, v);
                    } else {
                        lemma_pat_holds_binds(g, pat, b as int, r as int, s, v);
                    }
                },
                _ => {},
            }
        },
        _ => {},
    }
}

/// Where `s2` covers `s1`, what holds under `s1` holds under `s2`.
pub proof fn lemma_pat_holds_covers(g: EGraph, pat: Seq<PatNode>, k: int, c: int, s1: Seq<Option<usize>>, s2: Seq<Option<usize>>)
    requires
        g.wf(),
        pat_holds(g, pat, k, c, s1),
        covers(g, s1, s2),
    ensures
        pat_holds(g, pat, k, c, s2),
    decreases k,
{
    match pat[k] {
        PatNode::Var(v) => {
            assert(s1[v as int] is Some);
        },
        PatNode::Constant(_) => {},
        PatNode::Bin(o, a, b) => {
            let j = choose|j: int|
                0 <= j < g.n() && g.parent@[j] == g.parent@[c] && match #[trigger] g.nodes@[j] {
                    Node::Bin(o2, l, r) => o2 == o && pat_holds(g, pat, a as int, l as int, s1) && pat_holds(
                        g,
                        pat,
                        b as int,
                        r as int,
                        s1,
                    ),
                    _ => false,
                };
            match g.nodes@[j] {
                Node::Bin(o2, l, r) => {
                    lemma_pat_holds_covers(g, pat, a as int, l as int, s1, s2);
                    lemma_pat_holds_covers(g, pat, b as int, r as int, s1, s2);
                },
                _ => {},
            }
        },
    }
}

/// Where a well-formed rule's left side holds, its right side's variables are all bound.
pub proof fn lemma_match_binds_rhs(g: EGraph, rule: Rewrite, c: int, s: Seq<Option<usize>>)
    requires
        rule.wf(),
        pat_holds(g, rule.lhs@, rule.lhs@.len() - 1, c, s),
    ensures
        binds_all(rule.rhs@, s),
{
    assert forall|k: int| 0 <= k < rule.rhs@.len() implies match #[trigger] rule.rhs@[k] {
        PatNode::Var(v) => s[v as int] is Some,
        _ => true,
    } by {
        match rule.rhs@[k] {
            PatNode::Var(v) => {
                lemma_pat_holds_binds(g, rule.lhs@, rule.lhs@.len() - 1, c, s, v as int);
            },
            _ => {},
        }
    }
}

/// `covers` carries over to a graph whose partition is coarser on the old identifiers.
pub proof fn lemma_covers_grows(g1: EGraph, g2: EGraph, s1: Seq<Option<usize>>, s2: Seq<Option<usize>>, nvars: int)
    requires
        g1.wf(),
        grows(g1, g2),
        covers(g1, s1, s2),
        subst_ok(s1, nvars, g1.n()),
        subst_ok(s2, nvars, g1.n()),
    ensures
        covers(g2, s1, s2),
{
    assert forall|v: int| 0 <= v < s1.len() && (#[trigger] s1[v]) is Some implies s2[v] is Some && g2.parent@[s1[v]->Some_0 as int]
        == g2.parent@[s2[v]->Some_0 as int] by {
        assert(g1.equiv(s1[v]->Some_0 as int, s2[v]->Some_0 as int));
        assert(g2.equiv(s1[v]->Some_0 as int, s2[v]->Some_0 as int));
    }
}

/// A named rewrite rule: the left pattern, where a variable may occur more than once, and the
/// right pattern over the same variables.
pub struct Rewrite {
    pub name: &'static str,
    pub lhs: Vec<PatNode>,
    pub rhs: Vec<PatNode>,
    pub nvars: usize,
}

impl Rewrite {
    /// Both sides are well formed, and every variable of the right side occurs in the left.
    pub open spec fn wf(&self) -> bool {
        &&& pat_wf(self.lhs@, self.nvars as int)
        &&& pat_wf(self.rhs@, self.nvars as int)
        &&& forall|k: int| 0 <= k < self.rhs@.len() ==> match #[trigger] self.rhs@[k] {
            PatNode::Var(v) => vars_under(self.lhs@, self.lhs@.len() - 1).contains(v as int),
            _ => true,
        }
    }
}

/// One place where a rule's left side matched: the class and the bindings of its variables.
pub struct Match {
    pub class: usize,
    pub subst: Vec<Option<usize>>,
}

/// Every stored identifier of the match is below `n`.
pub open spec fn match_ok(m: Match, nvars: int, n: int) -> bool {
    m.class < n && subst_ok(m.subst@, nvars, n)
}

/// `members[r]` lists the nodes of the class with canonical identifier `r`, each of them.
pub open spec fn members_ok(g: EGraph, members: Seq<Vec<usize>>) -> bool {
    &&& members.len() == g.n()
    &&& forall|r: int, x: int|
        0 <= r < members.len() && 0 <= x < members[r]@.len() ==> (#[trigger] members[r]@[x]) < g.n()
            && g.parent@[members[r]@[x] as int] == r
    &&& forall|i: int| 0 <= i < g.n() ==> #[trigger] listed(members, g.parent@[i] as int, i)
}

/// `i` appears in row `r`.
pub open spec fn listed(members: Seq<Vec<usize>>, r: int, i: int) -> bool {
    exists|x: int| 0 <= x < members[r]@.len() && members[r]@[x] == i
}

/// Lists the nodes of each class, indexed by canonical identifier.
pub fn class_members(g: &EGraph) -> (members: Vec<Vec<usize>>)
    requires
        g.wf(),
    ensures
        members_ok(*g, members@),
{
    let n = g.len();
    let mut members: Vec<Vec<usize>> = Vec::new();
    let mut i: usize = 0;
    while i < n
        invariant
            n == g.n(),
            0 <= i <= n,
            members@.len() == i,
            forall|r: int| 0 <= r < i ==> (#[trigger] members@[r])@.len() == 0,
        decreases n - i,
    {
        members.push(Vec::new());
        i = i + 1;
    }
    let mut i: usize = 0;
    while i < n
        invariant
            g.wf(),
            n == g.n(),
            0 <= i <= n,
            members@.len() == n,
            forall|r: int, x: int|
                0 <= r < members@.len() && 0 <= x < members@[r]@.len() ==> (#[trigger] members@[r]@[x]) < g.n()
                    && g.parent@[members@[r]@[x] as int] == r,
            forall|i2: int| 0 <= i2 < i ==> #[trigger] listed(members@, g.parent@[i2] as int, i2),
        decreases n - i,
    {
        let r = g.find(i);
        let ghost m0 = members@;
        members[r].push(i);
        proof {
            assert(members@[r as int]@ == m0[r as int]@.push(i));
            assert forall|i2: int| 0 <= i2 < i + 1 implies #[trigger] listed(members@, g.parent@[i2] as int, i2) by {
                if i2 < i {
                    assert(listed(m0, g.parent@[i2] as int, i2));
                    let x = choose|x: int| 0 <= x < m0[g.parent@[i2] as int]@.len() && m0[g.parent@[i2] as int]@[x] == i2;
                    assert(members@[g.parent@[i2] as int]@[x] == i2);
                } else {
                    assert(members@[r as int]@[m0[r as int]@.len() as int] == i);
                }
            }
            assert forall|r2: int, x: int|
                0 <= r2 < members@.len() && 0 <= x < members@[r2]@.len() implies (#[trigger] members@[r2]@[x]) < g.n()
                    && g.parent@[members@[r2]@[x] as int] == r2 by {
                if r2 == r && x == m0[r as int]@.len() {
                } else {
                    assert(members@[r2]@[x] == m0[r2]@[x]);
                }
            }
        }
        i = i + 1;
    }
    members
}

/// A copy of a substitution.
fn copy_subst(s: &Vec<Option<usize>>) -> (r: Vec<Option<usize>>)
    ensures
        r@ == s@,
{
    let mut r: Vec<Option<usize>> = Vec::new();
    let mut i: usize = 0;
    while i < s.len()
        invariant
            0 <= i <= s@.len(),
            r@ == s@.subrange(0, i as int),
        decreases s@.len() - i,
    {
        r.push(s[i]);
        i = i + 1;
    }
    assert(r@ == s@);
    r
}

/// `s2` binds every variable that `s1` binds, to an identifier of the same class.
pub open spec fn covers(g: EGraph, s1: Seq<Option<usize>>, s2: Seq<Option<usize>>) -> bool {
    &&& s1.len() == s2.len()
    &&& forall|v: int|
        0 <= v < s1.len() && (#[trigger] s1[v]) is Some ==> s2[v] is Some && g.parent@[s1[v]->Some_0 as int]
            == g.parent@[s2[v]->Some_0 as int]
}

/// Some entry of `out` from `from` on is covered by `s2`.
pub open spec fn found_cover(g: EGraph, out: Seq<Vec<Option<usize>>>, from: int, s2: Seq<Option<usize>>) -> bool {
    exists|y: int| from <= y < out.len() && covers(g, #[trigger] out[y]@, s2)
}

/// Position `x` of `list` is a node `o(l, r)` whose children's classes satisfy positions `a`
/// and `b` under `s2`.
pub open spec fn bin_witness(g: EGraph, pat: Seq<PatNode>, o: Op, a: int, b: int, list: Seq<usize>, x: int, s2: Seq<Option<usize>>) -> bool {
    0 <= x < list.len() && match g.nodes@[list[x] as int] {
        Node::Bin(o2, l, r) => o2 == o && pat_holds(g, pat, a, l as int, s2) && pat_holds(g, pat, b, r as int, s2),
        _ => false,
    }
}

/// A covering entry stays found while `out` only grows.
proof fn lemma_found_cover_kept(g: EGraph, o1: Seq<Vec<Option<usize>>>, o2: Seq<Vec<Option<usize>>>, from: int, s2: Seq<Option<usize>>)
    requires
        0 <= from,
        found_cover(g, o1, from, s2),
        o2.len() >= o1.len(),
        forall|y: int| 0 <= y < o1.len() ==> #[trigger] o2[y] == o1[y],
    ensures
        found_cover(g, o2, from, s2),
{
    let y = choose|y: int| from <= y < o1.len() && covers(g, #[trigger] o1[y]@, s2);
    assert(o2[y] == o1[y]);
}

/// The entries of `out` from `from` on extend `s` and satisfy pattern position `k` at `c`;
/// every entry is a bounded substitution.
pub open spec fn found_ok(
    g: EGraph,
    pat: Seq<PatNode>,
    nvars: int,
    k: int,
    c: int,
    s: Seq<Option<usize>>,
    out: Seq<Vec<Option<usize>>>,
    from: int,
) -> bool {
    &&& forall|x: int| 0 <= x < out.len() ==> subst_ok(#[trigger] out[x]@, nvars, g.n())
    &&& forall|x: int| from <= x < out.len() ==> extends(s, #[trigger] out[x]@) && pat_holds(g, pat, k, c, out[x]@)
}

/// Matches pattern position `k` against class `c` under the bindings `s`, pushing each
/// extended substitution under which the pattern holds onto `out`.
fn match_pattern(
    g: &EGraph,
    members: &Vec<Vec<usize>>,
    pat: &Vec<PatNode>,
    nvars: usize,
    k: usize,
    c: usize,
    s: Vec<Option<usize>>,
    out: &mut Vec<Vec<Option<usize>>>,
)
    requires
        g.wf(),
        members_ok(*g, members@),
        pat_wf(pat@, nvars as int),
        k < pat@.len(),
        c < g.n(),
        subst_ok(s@, nvars as int, g.n()),
        forall|x: int| 0 <= x < old(out)@.len() ==> subst_ok(#[trigger] old(out)@[x]@, nvars as int, g.n()),
    ensures
        final(out)@.len() >= old(out)@.len(),
        forall|x: int| 0 <= x < old(out)@.len() ==> #[trigger] final(out)@[x] == old(out)@[x],
        found_ok(*g, pat@, nvars as int, k as int, c as int, s@, final(out)@, old(out)@.len() as int),
        forall|s2: Seq<Option<usize>>|
            covers(*g, s@, s2) && subst_ok(s2, nvars as int, g.n()) && #[trigger] pat_holds(*g, pat@, k as int, c as int, s2)
                ==> found_cover(*g, final(out)@, old(out)@.len() as int, s2),
    decreases k,
{
    let root = g.find(c);
    let ghost o0 = out@;
    let ghost s0 = s@;
    match pat[k] {
        PatNode::Var(v) => {
            match s[v] {
                None => {
                    let mut s = s;
                    s.set(v, Some(root));
                    out.push(s);
                    proof {
                        assert(pat@[k as int] == PatNode::Var(v));
                        assert(g.parent@[root as int] == root);
                        assert(pat_holds(*g, pat@, k as int, c as int, s@));
                        assert forall|s2: Seq<Option<usize>>|
                            covers(*g, s0, s2) && subst_ok(s2, nvars as int, g.n()) && #[trigger] pat_holds(
                                *g,
                                pat@,
                                k as int,
                                c as int,
                                s2,
                            ) implies found_cover(*g, out@, o0.len() as int, s2) by {
                            assert(covers(*g, out@[o0.len() as int]@, s2));
                        }
                        assert(out@[o0.len() as int]@ == s@);
                        assert(extends(s0, s@));
                        assert(subst_ok(s@, nvars as int, g.n()));
                        assert forall|x: int| 0 <= x < out@.len() implies subst_ok(#[trigger] out@[x]@, nvars as int, g.n()) by {
                            if x < o0.len() {
                                assert(out@[x] == o0[x]);
                            }
                        }
                    }
                },
                Some(x) => {
                    proof {
                        assert(pat@[k as int] == PatNode::Var(v));
                        assert(s0[v as int] == Some(x));
                    }
                    if g.find(x) == root {
                        out.push(s);
                        proof {
                            assert(pat@[k as int] == PatNode::Var(v));
                            assert(pat_holds(*g, pat@, k as int, c as int, s0));
                            assert(out@[o0.len() as int]@ == s0);
                            assert forall|s2: Seq<Option<usize>>|
                                covers(*g, s0, s2) && subst_ok(s2, nvars as int, g.n()) && #[trigger] pat_holds(
                                    *g,
                                    pat@,
                                    k as int,
                                    c as int,
                                    s2,
                                ) implies found_cover(*g, out@, o0.len() as int, s2) by {
                                assert(covers(*g, out@[o0.len() as int]@, s2));
                            }
                            assert(extends(s0, s0));
                            assert forall|y: int| 0 <= y < out@.len() implies subst_ok(#[trigger] out@[y]@, nvars as int, g.n()) by {
                                if y < o0.len() {
                                    assert(out@[y] == o0[y]);
                                }
                            }
                        }
                    } else {
                        proof {
                            assert forall|s2: Seq<Option<usize>>|
                                covers(*g, s0, s2) && subst_ok(s2, nvars as int, g.n()) && #[trigger] pat_holds(
                                    *g,
                                    pat@,
                                    k as int,
                                    c as int,
                                    s2,
                                ) implies found_cover(*g, out@, o0.len() as int, s2) by {
                                assert(s0[v as int] is Some);
                            }
                        }
                    }
                },
            }
        },
        PatNode::Constant(cst) => {
            let list = &members[root];
            let mut x: usize = 0;
            while x < list.len()
                invariant
                    g.wf(),
                    members_ok(*g, members@),
                    root < g.n(),
                    root == g.parent@[c as int],
                    *list == members@[root as int],
                    0 <= x <= list@.len(),
                    s@ == s0,
                    subst_ok(s@, nvars as int, g.n()),
                    out@ == o0,
                    o0 == old(out)@,
                    k < pat@.len(),
                    c < g.n(),
                    pat@[k as int] == PatNode::Constant(cst),
                    forall|x2: int| 0 <= x2 < x ==> g.nodes@[#[trigger] list@[x2] as int] != Node::Constant(cst),
                    forall|y: int| 0 <= y < o0.len() ==> subst_ok(#[trigger] o0[y]@, nvars as int, g.n()),
                decreases list@.len() - x,
            {
                let j = list[x];
                if g.node(j) == Node::Constant(cst) {
                    out.push(s);
                    proof {
                        assert(g.canon(g.nodes@[j as int]) == g.canon(Node::Constant(cst)));
                        assert(g.class_has(c as int, Node::Constant(cst)));
                        assert(out@[o0.len() as int]@ == s0);
                        assert(extends(s0, s0));
                        assert forall|y: int| 0 <= y < out@.len() implies subst_ok(#[trigger] out@[y]@, nvars as int, g.n()) by {
                            if y < o0.len() {
                                assert(out@[y] == o0[y]);
                            }
                        }
                        assert forall|s2: Seq<Option<usize>>|
                            covers(*g, s0, s2) && subst_ok(s2, nvars as int, g.n()) && #[trigger] pat_holds(
                                *g,
                                pat@,
                                k as int,
                                c as int,
                                s2,
                            ) implies found_cover(*g, out@, o0.len() as int, s2) by {
                            assert(covers(*g, out@[o0.len() as int]@, s2));
                        }
                    }
                    return;
                }
                x = x + 1;
            }
            proof {
                assert forall|s2: Seq<Option<usize>>|
                    covers(*g, s0, s2) && subst_ok(s2, nvars as int, g.n()) && #[trigger] pat_holds(
                        *g,
                        pat@,
                        k as int,
                        c as int,
                        s2,
                    ) implies found_cover(*g, out@, o0.len() as int, s2) by {
                    let j = choose|j: int|
                        0 <= j < g.n() && g.parent@[j] == g.parent@[c as int] && #[trigger] g.canon(g.nodes@[j]) == g.canon(
                            Node::Constant(cst),
                        );
                    assert(g.nodes@[j] == Node::Constant(cst));
                    assert(listed(members@, g.parent@[j] as int, j));
                    let xj = choose|xj: int| 0 <= xj < members@[root as int]@.len() && members@[root as int]@[xj] == j;
                    assert(g.nodes@[list@[xj] as int] != Node::Constant(cst));
                }
            }
        },
        PatNode::Bin(o, a, b) => {
            let list = &members[root];
            let mut x: usize = 0;
            while x < list.len()
                invariant
                    g.wf(),
                    members_ok(*g, members@),
                    pat_wf(pat@, nvars as int),
                    pat@[k as int] == PatNode::Bin(o, a, b),
                    a < k && b < k && k < pat@.len(),
                    c < g.n(),
                    root < g.n(),
                    root == g.parent@[c as int],
                    *list == members@[root as int],
                    0 <= x <= list@.len(),
                    s@ == s0,
                    subst_ok(s@, nvars as int, g.n()),
                    out@.len() >= o0.len(),
                    o0 == old(out)@,
                    forall|y: int| 0 <= y < o0.len() ==> #[trigger] out@[y] == o0[y],
                    found_ok(*g, pat@, nvars as int, k as int, c as int, s0, out@, o0.len() as int),
                    forall|s2: Seq<Option<usize>>, x2: int|
                        0 <= x2 < x && covers(*g, s0, s2) && subst_ok(s2, nvars as int, g.n()) && #[trigger] bin_witness(
                            *g,
                            pat@,
                            o,
                            a as int,
                            b as int,
                            list@,
                            x2,
                            s2,
                        ) ==> found_cover(*g, out@, o0.len() as int, s2),
                decreases list@.len() - x,
            {
                let j = list[x];
                match g.node(j) {
                    Node::Bin(o2, l, r) => {
                        if o2 == o {
                            assert(g.nodes@[j as int].children_below(j as int));
                            let mut left: Vec<Vec<Option<usize>>> = Vec::new();
                            match_pattern(g, members, pat, nvars, a, l, copy_subst(&s), &mut left);
                            let mut y: usize = 0;
                            while y < left.len()
                                invariant
                                    g.wf(),
                                    members_ok(*g, members@),
                                    pat_wf(pat@, nvars as int),
                                    pat@[k as int] == PatNode::Bin(o, a, b),
                                    a < k && b < k && k < pat@.len(),
                                    c < g.n(),
                                    l < g.n(),
                                    r < g.n(),
                                    root == g.parent@[c as int],
                                    0 <= j < g.n(),
                                    g.parent@[j as int] == root,
                                    g.nodes@[j as int] == Node::Bin(o, l, r),
                                    0 <= y <= left@.len(),
                                    found_ok(*g, pat@, nvars as int, a as int, l as int, s0, left@, 0),
                                    out@.len() >= o0.len(),
                                    forall|z: int| 0 <= z < o0.len() ==> #[trigger] out@[z] == o0[z],
                                    found_ok(*g, pat@, nvars as int, k as int, c as int, s0, out@, o0.len() as int),
                                    *list == members@[root as int],
                                    0 <= x < list@.len(),
                                    list@[x as int] == j,
                                    forall|s2: Seq<Option<usize>>, x2: int|
                                        0 <= x2 < x && covers(*g, s0, s2) && subst_ok(s2, nvars as int, g.n()) && #[trigger] bin_witness(
                                            *g,
                                            pat@,
                                            o,
                                            a as int,
                                            b as int,
                                            list@,
                                            x2,
                                            s2,
                                        ) ==> found_cover(*g, out@, o0.len() as int, s2),
                                    forall|s2: Seq<Option<usize>>|
                                        covers(*g, s0, s2) && subst_ok(s2, nvars as int, g.n()) && #[trigger] pat_holds(
                                            *g,
                                            pat@,
                                            a as int,
                                            l as int,
                                            s2,
                                        ) ==> found_cover(*g, left@, 0, s2),
                                    forall|s2: Seq<Option<usize>>, y2: int|
                                        0 <= y2 < y && subst_ok(s2, nvars as int, g.n()) && #[trigger] covers(*g, left@[y2]@, s2)
                                            && pat_holds(*g, pat@, b as int, r as int, s2) ==> found_cover(
                                            *g,
                                            out@,
                                            o0.len() as int,
                                            s2,
                                        ),
                                decreases left@.len() - y,
                            {
                                let ghost o1 = out@;
                                let s1 = copy_subst(&left[y]);
                                proof {
                                    assert(extends(s0, left@[y as int]@));
                                    assert(pat_holds(*g, pat@, a as int, l as int, left@[y as int]@));
                                    assert(subst_ok(left@[y as int]@, nvars as int, g.n()));
                                }
                                match_pattern(g, members, pat, nvars, b, r, s1, out);
                                proof {
                                    assert forall|z: int| o1.len() <= z < out@.len() implies extends(s0, #[trigger] out@[z]@)
                                        && pat_holds(*g, pat@, k as int, c as int, out@[z]@) by {
                                        let s2 = out@[z]@;
                                        assert(extends(s1@, s2));
                                        assert(extends(s0, s2)) by {
                                            assert forall|v: int| 0 <= v < s0.len() && (#[trigger] s0[v]) is Some implies s2[v] == s0[v] by {
                                                assert(s1@[v] == s0[v]);
                                            }
                                        }
                                        lemma_pat_holds_extends(*g, pat@, a as int, l as int, s1@, s2);
                                        assert(pat_holds(*g, pat@, b as int, r as int, s2));
                                        assert(g.parent@[j as int] == g.parent@[c as int]);
                                    }
                                    assert forall|z: int| o0.len() <= z < out@.len() implies extends(s0, #[trigger] out@[z]@)
                                        && pat_holds(*g, pat@, k as int, c as int, out@[z]@) by {
                                        if z < o1.len() {
                                            assert(out@[z] == o1[z]);
                                        }
                                    }
                                    assert forall|z: int| 0 <= z < o0.len() implies #[trigger] out@[z] == o0[z] by {
                                        assert(out@[z] == o1[z]);
                                    }
                                    assert forall|s2: Seq<Option<usize>>, x2: int|
                                        0 <= x2 < x && covers(*g, s0, s2) && subst_ok(s2, nvars as int, g.n()) && #[trigger] bin_witness(
                                            *g,
                                            pat@,
                                            o,
                                            a as int,
                                            b as int,
                                            list@,
                                            x2,
                                            s2,
                                        ) implies found_cover(*g, out@, o0.len() as int, s2) by {
                                        lemma_found_cover_kept(*g, o1, out@, o0.len() as int, s2);
                                    }
                                    assert forall|s3: Seq<Option<usize>>, y2: int|
                                        0 <= y2 < y + 1 && subst_ok(s3, nvars as int, g.n()) && #[trigger] covers(*g, left@[y2]@, s3)
                                            && pat_holds(*g, pat@, b as int, r as int, s3) implies found_cover(
                                            *g,
                                            out@,
                                            o0.len() as int,
                                            s3,
                                        ) by {
                                        if y2 < y {
                                            lemma_found_cover_kept(*g, o1, out@, o0.len() as int, s3);
                                        } else {
                                            assert(covers(*g, s1@, s3));
                                            assert(found_cover(*g, out@, o1.len() as int, s3));
                                            let w = choose|w: int| o1.len() <= w < out@.len() && covers(*g, #[trigger] out@[w]@, s3);
                                            assert(o0.len() <= w);
                                        }
                                    }
                                }
                                y = y + 1;
                            }
                            proof {
                                assert forall|s2: Seq<Option<usize>>, x2: int|
                                    0 <= x2 < x + 1 && covers(*g, s0, s2) && subst_ok(s2, nvars as int, g.n()) && #[trigger] bin_witness(
                                        *g,
                                        pat@,
                                        o,
                                        a as int,
                                        b as int,
                                        list@,
                                        x2,
                                        s2,
                                    ) implies found_cover(*g, out@, o0.len() as int, s2) by {
                                    if x2 == x {
                                        assert(pat_holds(*g, pat@, a as int, l as int, s2));
                                        assert(found_cover(*g, left@, 0, s2));
                                        let y2 = choose|y2: int| 0 <= y2 < left@.len() && covers(*g, #[trigger] left@[y2]@, s2);
                                        assert(pat_holds(*g, pat@, b as int, r as int, s2));
                                    }
                                }
                            }
                        }
                    },
                    _ => {},
                }
                x = x + 1;
            }
            proof {
                assert forall|s2: Seq<Option<usize>>|
                    covers(*g, s0, s2) && subst_ok(s2, nvars as int, g.n()) && #[trigger] pat_holds(
                        *g,
                        pat@,
                        k as int,
                        c as int,
                        s2,
                    ) implies found_cover(*g, out@, o0.len() as int, s2) by {
                    let j = choose|j: int|
                        0 <= j < g.n() && g.parent@[j] == g.parent@[c as int] && match #[trigger] g.nodes@[j] {
                            Node::Bin(o2, l, r) => o2 == o && pat_holds(*g, pat@, a as int, l as int, s2) && pat_holds(
                                *g,
                                pat@,
                                b as int,
                                r as int,
                                s2,
                            ),
                            _ => false,
                        };
                    assert(listed(members@, g.parent@[j] as int, j));
                    let xj = choose|xj: int| 0 <= xj < members@[root as int]@.len() && members@[root as int]@[xj] == j;
                    assert(bin_witness(*g, pat@, o, a as int, b as int, list@, xj, s2));
                }
            }
        },
    }
}

/// The left side of `rule` holds at the match's class under its substitution.
pub open spec fn is_match(g: EGraph, rule: Rewrite, m: Match) -> bool {
    pat_holds(g, rule.lhs@, rule.lhs@.len() - 1, m.class as int, m.subst@)
}

/// Some match names the class of `c` with bindings that `s2` covers.
pub open spec fn match_cover(g: EGraph, ms: Seq<Match>, c: int, s2: Seq<Option<usize>>) -> bool {
    exists|x: int| 0 <= x < ms.len() && (#[trigger] ms[x]).class == g.parent@[c] && covers(g, ms[x].subst@, s2)
}

/// Searches every class of the graph for the rule's left side. Each match found holds, and
/// every way in which the left side holds at a class is covered by a match on that class.
pub fn search(g: &EGraph, rule: &Rewrite) -> (ms: Vec<Match>)
    requires
        g.wf(),
        rule.wf(),
    ensures
        forall|x: int| 0 <= x < ms@.len() ==> match_ok(#[trigger] ms@[x], rule.nvars as int, g.n()),
        forall|x: int| 0 <= x < ms@.len() ==> is_match(*g, *rule, #[trigger] ms@[x]),
        forall|c: int, s2: Seq<Option<usize>>|
            0 <= c < g.n() && subst_ok(s2, rule.nvars as int, g.n()) && #[trigger] pat_holds(
                *g,
                rule.lhs@,
                rule.lhs@.len() - 1,
                c,
                s2,
            ) ==> match_cover(*g, ms@, c, s2),
{
    let members = class_members(g);
    let n = g.len();
    let mut ms: Vec<Match> = Vec::new();
    let mut r: usize = 0;
    while r < n
        invariant
            g.wf(),
            rule.wf(),
            n == g.n(),
            members_ok(*g, members@),
            0 <= r <= n,
            forall|x: int| 0 <= x < ms@.len() ==> match_ok(#[trigger] ms@[x], rule.nvars as int, g.n()),
            forall|x: int| 0 <= x < ms@.len() ==> is_match(*g, *rule, #[trigger] ms@[x]),
            forall|c: int, s2: Seq<Option<usize>>|
                0 <= c < g.n() && g.parent@[c] < r && subst_ok(s2, rule.nvars as int, g.n()) && #[trigger] pat_holds(
                    *g,
                    rule.lhs@,
                    rule.lhs@.len() - 1,
                    c,
                    s2,
                ) ==> match_cover(*g, ms@, c, s2),
        decreases n - r,
    {
        if g.find(r) == r {
            let mut found: Vec<Vec<Option<usize>>> = Vec::new();
            let empty: Vec<Option<usize>> = vec![None; rule.nvars];
            match_pattern(g, &members, &rule.lhs, rule.nvars, rule.lhs.len() - 1, r, copy_subst(&empty), &mut found);
            let mut y: usize = 0;
            while y < found.len()
                invariant
                    0 <= y <= found@.len(),
                    r < g.n(),
                    g.wf(),
                    rule.wf(),
                    found_ok(*g, rule.lhs@, rule.nvars as int, rule.lhs@.len() - 1, r as int, empty@, found@, 0),
                    forall|x: int| 0 <= x < ms@.len() ==> match_ok(#[trigger] ms@[x], rule.nvars as int, g.n()),
                    forall|x: int| 0 <= x < ms@.len() ==> is_match(*g, *rule, #[trigger] ms@[x]),
                    g.parent@[r as int] == r,
                    empty@.len() == rule.nvars,
                    forall|v: int| 0 <= v < empty@.len() ==> #[trigger] empty@[v] is None,
                    forall|s2: Seq<Option<usize>>|
                        covers(*g, empty@, s2) && subst_ok(s2, rule.nvars as int, g.n()) && #[trigger] pat_holds(
                            *g,
                            rule.lhs@,
                            rule.lhs@.len() - 1,
                            r as int,
                            s2,
                        ) ==> found_cover(*g, found@, 0, s2),
                    forall|c: int, s2: Seq<Option<usize>>|
                        0 <= c < g.n() && g.parent@[c] < r && subst_ok(s2, rule.nvars as int, g.n()) && #[trigger] pat_holds(
                            *g,
                            rule.lhs@,
                            rule.lhs@.len() - 1,
                            c,
                            s2,
                        ) ==> match_cover(*g, ms@, c, s2),
                    forall|s2: Seq<Option<usize>>, y2: int|
                        0 <= y2 < y && #[trigger] covers(*g, found@[y2]@, s2) ==> match_cover(*g, ms@, r as int, s2),
                decreases found@.len() - y,
            {
                let ghost m0 = ms@;
                ms.push(Match { class: r, subst: copy_subst(&found[y]) });
                proof {
                    assert forall|x: int| 0 <= x < ms@.len() implies match_ok(#[trigger] ms@[x], rule.nvars as int, g.n())
                        && is_match(*g, *rule, ms@[x]) by {
                        if x < m0.len() {
                            assert(ms@[x] == m0[x]);
                        } else {
                            assert(subst_ok(found@[y as int]@, rule.nvars as int, g.n()));
                            assert(pat_holds(*g, rule.lhs@, rule.lhs@.len() - 1, r as int, found@[y as int]@));
                        }
                    }
                    assert forall|c: int, s2: Seq<Option<usize>>|
                        0 <= c < g.n() && g.parent@[c] < r && subst_ok(s2, rule.nvars as int, g.n()) && #[trigger] pat_holds(
                            *g,
                            rule.lhs@,
                            rule.lhs@.len() - 1,
                            c,
                            s2,
                        ) implies match_cover(*g, ms@, c, s2) by {
                        let w = choose|w: int| 0 <= w < m0.len() && (#[trigger] m0[w]).class == g.parent@[c] && covers(*g, m0[w].subst@, s2);
                        assert(ms@[w] == m0[w]);
                    }
                    assert forall|s2: Seq<Option<usize>>, y2: int|
                        0 <= y2 < y + 1 && #[trigger] covers(*g, found@[y2]@, s2) implies match_cover(*g, ms@, r as int, s2) by {
                        if y2 < y {
                            let w = choose|w: int| 0 <= w < m0.len() && (#[trigger] m0[w]).class == g.parent@[r as int] && covers(*g, m0[w].subst@, s2);
                            assert(ms@[w] == m0[w]);
                        } else {
                            assert(ms@[m0.len() as int].subst@ == found@[y as int]@);
                            assert(ms@[m0.len() as int].class == g.parent@[r as int]);
                        }
                    }
                }
                y = y + 1;
            }
            proof {
                assert forall|c: int, s2: Seq<Option<usize>>|
                    0 <= c < g.n() && g.parent@[c] < r + 1 && subst_ok(s2, rule.nvars as int, g.n()) && #[trigger] pat_holds(
                        *g,
                        rule.lhs@,
                        rule.lhs@.len() - 1,
                        c,
                        s2,
                    ) implies match_cover(*g, ms@, c, s2) by {
                    if g.parent@[c] == r {
                        lemma_pat_holds_same_class(*g, rule.lhs@, rule.lhs@.len() - 1, c, r as int, s2);
                        assert(covers(*g, empty@, s2));
                        assert(found_cover(*g, found@, 0, s2));
                        let y2 = choose|y2: int| 0 <= y2 < found@.len() && covers(*g, #[trigger] found@[y2]@, s2);
                    }
                }
            }
        }
        r = r + 1;
    }
    ms
}

/// Adds the right pattern, with its variables bound by `s`, to the graph; returns the class of
/// its root, or `None` when the pattern names a variable that `s` leaves unbound.
pub fn instantiate(g: &mut EGraph, pat: &Vec<PatNode>, nvars: usize, s: &Vec<Option<usize>>) -> (r: Option<usize>)
    requires
        old(g).wf(),
        pat_wf(pat@, nvars as int),
        subst_ok(s@, nvars as int, old(g).n()),
    ensures
        final(g).wf(),
        final(g).n() >= old(g).n(),
        final(g).nodes@.subrange(0, old(g).n()) == old(g).nodes@,
        forall|i: int| 0 <= i < old(g).n() ==> #[trigger] final(g).parent@[i] == old(g).parent@[i],
        old(g).clean() ==> final(g).clean(),
        final(g).n() == old(g).n() ==> *final(g) == *old(g),
        grows(*old(g), *final(g)),
        r is Some <==> binds_all(pat@, s@),
        r is Some ==> r->Some_0 < final(g).n() && pat_holds(*final(g), pat@, pat@.len() - 1, r->Some_0 as int, s@),
{
    let ghost g0 = *g;
    let mut ids: Vec<usize> = Vec::new();
    let mut k: usize = 0;
    proof {
        crate::runner::lemma_grows_refl(*g);
    }
    while k < pat.len()
        invariant
            g0 == *old(g),
            g.wf(),
            pat_wf(pat@, nvars as int),
            subst_ok(s@, nvars as int, g0.n()),
            g.n() >= g0.n(),
            g.nodes@.subrange(0, g0.n()) == g0.nodes@,
            forall|i: int| 0 <= i < g0.n() ==> #[trigger] g.parent@[i] == g0.parent@[i],
            g0.clean() ==> g.clean(),
            g.n() == g0.n() ==> *g == g0,
            0 <= k <= pat@.len(),
            ids@.len() == k,
            forall|x: int| 0 <= x < k ==> #[trigger] ids@[x] < g.n(),
            forall|x: int| 0 <= x < k ==> pat_holds(*g, pat@, x, #[trigger] ids@[x] as int, s@),
            forall|x: int| 0 <= x < k ==> match #[trigger] pat@[x] {
                PatNode::Var(v) => s@[v as int] is Some,
                _ => true,
            },
            grows(g0, *g),
        decreases pat@.len() - k,
    {
        let ghost g1 = *g;
        let id = match pat[k] {
            PatNode::Var(v) => {
                match s[v] {
                    Some(x) => x,
                    None => {
                        assert(!binds_all(pat@, s@)) by {
                            assert(pat@[k as int] == PatNode::Var(v));
                        }
                        return None;
                    },
                }
            },
            PatNode::Constant(c) => g.add(Node::Constant(c)),
            PatNode::Bin(o, a, b) => {
                let l = ids[a];
                let r = ids[b];
                g.add(Node::Bin(o, l, r))
            },
        };
        proof {
            assert(g.nodes@.subrange(0, g0.n()) =~= g0.nodes@) by {
                assert(g.nodes@.subrange(0, g1.n()) =~= g1.nodes@);
                assert forall|i: int| 0 <= i < g0.n() implies g.nodes@[i] == g0.nodes@[i] by {
                    assert(g.nodes@.subrange(0, g1.n())[i] == g1.nodes@[i]);
                    assert(g1.nodes@.subrange(0, g0.n())[i] == g0.nodes@[i]);
                }
            }
            assert forall|i: int| 0 <= i < g0.n() implies #[trigger] g.parent@[i] == g0.parent@[i] by {
                assert(g.parent@[i] == g1.parent@[i]);
            }
            assert forall|x: int| 0 <= x < k implies #[trigger] ids@[x] < g.n() by {
                assert(ids@[x] < g1.n());
            }
            assert(grows(g1, *g)) by {
                assert(g.nodes@.subrange(0, g1.n()) =~= g1.nodes@);
                assert forall|i: int, j: int|
                    0 <= i < g1.n() && 0 <= j < g1.n() && g1.equiv(i, j) implies #[trigger] g.equiv(i, j) by {
                    assert(g.parent@[i] == g1.parent@[i]);
                    assert(g.parent@[j] == g1.parent@[j]);
                }
            }
            crate::runner::lemma_grows_trans(g0, g1, *g);
            assert forall|x: int| 0 <= x < k implies pat_holds(*g, pat@, x, #[trigger] ids@[x] as int, s@) by {
                lemma_pat_holds_grows(g1, *g, pat@, x, ids@[x] as int, s@, nvars as int);
            }
            assert(pat_holds(*g, pat@, k as int, id as int, s@)) by {
                match pat@[k as int] {
                    PatNode::Var(v) => {},
                    PatNode::Constant(cst) => {},
                    PatNode::Bin(o, a, b) => {
                        let l = ids@[a as int];
                        let r = ids@[b as int];
                        let nd = Node::Bin(o, l, r);
                        let j = choose|j: int|
                            0 <= j < g.n() && g.parent@[j] == g.parent@[id as int] && #[trigger] g.canon(g.nodes@[j]) == g.canon(nd);
                        assert(g.canon(g.nodes@[j]) == g.canon(nd));
                        match g.nodes@[j] {
                            Node::Bin(o2, l2, r2) => {
                                lemma_pat_holds_same_class(*g, pat@, a as int, l as int, l2 as int, s@);
                                lemma_pat_holds_same_class(*g, pat@, b as int, r as int, r2 as int, s@);
                            },
                            _ => {},
                        }
                    },
                }
            }
        }
        ids.push(id);
        k = k + 1;
    }
    Some(ids[pat.len() - 1])
}

/// Applies the rule at one match: adds its right side and merges it with the matched class,
/// which then holds the right side under the match's bindings. Returns whether the graph
/// changed.
pub fn apply_match(g: &mut EGraph, rule: &Rewrite, m: &Match) -> (changed: bool)
    requires
        old(g).wf(),
        rule.wf(),
        match_ok(*m, rule.nvars as int, old(g).n()),
    ensures
        final(g).wf(),
        final(g).n() >= old(g).n(),
        final(g).nodes@.subrange(0, old(g).n()) == old(g).nodes@,
        forall|i: int, j: int|
            0 <= i < old(g).n() && 0 <= j < old(g).n() && old(g).equiv(i, j) ==> #[trigger] final(g).equiv(i, j),
        !changed ==> *final(g) == *old(g),
        changed ==> final(g).n() > old(g).n() || exists|i: int, j: int|
            0 <= i < old(g).n() && 0 <= j < old(g).n() && !old(g).equiv(i, j) && #[trigger] final(g).equiv(i, j),
        binds_all(rule.rhs@, m.subst@) ==> pat_holds(*final(g), rule.rhs@, rule.rhs@.len() - 1, m.class as int, m.subst@),
{
    let n0 = g.len();
    match instantiate(g, &rule.rhs, rule.nvars, &m.subst) {
        Some(id) => {
            let ghost g1 = *g;
            let merged = g.union(id, m.class);
            proof {
                crate::egraph::lemma_union_joins(g1, id as int, m.class as int, *g);
                assert(grows(g1, *g)) by {
                    assert(g.nodes@.subrange(0, g1.n()) =~= g1.nodes@);
                }
                lemma_pat_holds_grows(g1, *g, rule.rhs@, rule.rhs@.len() - 1, id as int, m.subst@, rule.nvars as int);
                lemma_pat_holds_same_class(*g, rule.rhs@, rule.rhs@.len() - 1, id as int, m.class as int, m.subst@);
                if merged && id < n0 {
                    assert(g1.parent@[id as int] == old(g).parent@[id as int]);
                    assert(g1.parent@[m.class as int] == old(g).parent@[m.class as int]);
                    assert(!old(g).equiv(id as int, m.class as int));
                    assert(g.equiv(id as int, m.class as int));
                }
                assert forall|i: int, j: int|
                    0 <= i < old(g).n() && 0 <= j < old(g).n() && old(g).equiv(i, j) implies #[trigger] g.equiv(i, j) by {
                    assert(g1.equiv(i, j));
                }
            }
            merged || g.len() > n0
        },
        None => g.len() > n0,
    }
}

} // verus!
