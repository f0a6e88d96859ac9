use vstd::prelude::*;
use crate::egraph::EGraph;
use crate::rewrite::{
    apply_match, covers, is_match, lemma_covers_grows, lemma_match_binds_rhs, lemma_pat_holds_covers,
    lemma_pat_holds_grows, lemma_pat_holds_same_class, match_cover, match_ok, pat_holds, search, subst_ok, Match,
    Rewrite,
};

verus! {

/// Why saturation stopped.
#[derive(Clone, Copy, Debug, PartialEq, Eq, Structural)]
pub enum StopReason {
    /// An iteration left the graph unchanged: a fixpoint.
    Saturated,
    /// The iteration bound was used up first.
    IterationLimit,
    /// The graph outgrew the node bound.
    NodeLimit,
}

/// The node bound used when the caller has no other in mind.
pub const DEFAULT_NODE_LIMIT: usize = 10000;

/// The outcome of a saturation run.
#[derive(Clone, Copy, Debug, PartialEq, Eq, Structural)]
pub struct Report {
    pub stop: StopReason,
    pub iterations: usize,
}

pub open spec fn rules_wf(rules: Seq<Rewrite>) -> bool {
    forall|i: int| 0 <= i < rules.len() ==> (#[trigger] rules[i]).wf()
}

/// The graph `g1` grew from `g0`: old nodes kept and old equivalences kept.
pub open spec fn grows(g0: EGraph, g1: EGraph) -> bool {
    &&& g1.n() >= g0.n()
    &&& g1.nodes@.subrange(0, g0.n()) == g0.nodes@
    &&& forall|i: int, j: int|
        0 <= i < g0.n() && 0 <= j < g0.n() && g0.equiv(i, j) ==> #[trigger] g1.equiv(i, j)
}

/// Growth is transitive.
pub proof fn lemma_grows_trans(g0: EGraph, g1: EGraph, g2: EGraph)
    requires
        grows(g0, g1),
        grows(g1, g2),
    ensures
        grows(g0, g2),
{
    assert(g2.nodes@.subrange(0, g0.n()) =~= g0.nodes@) by {
        assert forall|i: int| 0 <= i < g0.n() implies g2.nodes@[i] == g0.nodes@[i] by {
            assert(g2.nodes@.subrange(0, g1.n())[i] == g1.nodes@[i]);
            assert(g1.nodes@.subrange(0, g0.n())[i] == g0.nodes@[i]);
        }
    }
    assert forall|i: int, j: int|
        0 <= i < g0.n() && 0 <= j < g0.n() && g0.equiv(i, j) implies #[trigger] g2.equiv(i, j) by {
        assert(g1.equiv(i, j));
    }
}

/// A graph grows from itself.
pub proof fn lemma_grows_refl(g: EGraph)
    ensures
        grows(g, g),
{
    assert(g.nodes@.subrange(0, g.n()) =~= g.nodes@);
}

/// Every place where a rule's left side holds in `g0` holds the rule's right side, under the
/// same bindings, in `g1`.
pub open spec fn rules_applied(g0: EGraph, g1: EGraph, rules: Seq<Rewrite>) -> bool {
    forall|i: int, c: int, s: Seq<Option<usize>>|
        0 <= i < rules.len() && 0 <= c < g0.n() && subst_ok(s, rules[i].nvars as int, g0.n()) && #[trigger] pat_holds(
            g0,
            rules[i].lhs@,
            rules[i].lhs@.len() - 1,
            c,
            s,
        ) ==> pat_holds(g1, rules[i].rhs@, rules[i].rhs@.len() - 1, c, s)
}

/// The right side of each of the first `upto` rules' matches (and of the first `x` matches of
/// the next rule) holds at the match's class in `g`.
pub open spec fn applied_upto(
    g: EGraph,
    rules: Seq<Rewrite>,
    found: Seq<Vec<Match>>,
    upto: int,
    x: int,
) -> bool {
    forall|r: int, y: int|
        0 <= r < rules.len() && 0 <= y < found[r]@.len() && (r < upto || (r == upto && y < x)) ==> pat_holds(
            g,
            rules[r].rhs@,
            rules[r].rhs@.len() - 1,
            (#[trigger] found[r]@[y]).class as int,
            found[r]@[y].subst@,
        )
}

/// Applied right sides stay in place while the graph grows.
proof fn lemma_applied_grows(g1: EGraph, g2: EGraph, rules: Seq<Rewrite>, found: Seq<Vec<Match>>, upto: int, x: int, n0: int)
    requires
        g1.wf(),
        g2.wf(),
        grows(g1, g2),
        n0 <= g1.n(),
        found.len() == rules.len(),
        forall|r: int, y: int|
            0 <= r < rules.len() && 0 <= y < found[r]@.len() ==> match_ok(#[trigger] found[r]@[y], rules[r].nvars as int, n0),
        applied_upto(g1, rules, found, upto, x),
    ensures
        applied_upto(g2, rules, found, upto, x),
{
    assert forall|r: int, y: int|
        0 <= r < rules.len() && 0 <= y < found[r]@.len() && (r < upto || (r == upto && y < x)) implies pat_holds(
            g2,
            rules[r].rhs@,
            rules[r].rhs@.len() - 1,
            (#[trigger] found[r]@[y]).class as int,
            found[r]@[y].subst@,
        ) by {
        let m = found[r]@[y];
        assert(match_ok(m, rules[r].nvars as int, n0));
        lemma_pat_holds_grows(g1, g2, rules[r].rhs@, rules[r].rhs@.len() - 1, m.class as int, m.subst@, rules[r].nvars as int);
    }
}

/// When an iteration that applied every rule left the graph as it was, the graph is a
/// fixpoint of the rules.
proof fn lemma_saturated_fixpoint(g1: EGraph, g2: EGraph, rules: Seq<Rewrite>)
    requires
        g1.wf(),
        g2.wf(),
        grows(g2, g1),
        g1.n() == g2.n(),
        rules_applied(g1, g2, rules),
    ensures
        rules_applied(g2, g2, rules),
{
    assert forall|i: int, c: int, s: Seq<Option<usize>>|
        0 <= i < rules.len() && 0 <= c < g2.n() && subst_ok(s, rules[i].nvars as int, g2.n()) && #[trigger] pat_holds(
            g2,
            rules[i].lhs@,
            rules[i].lhs@.len() - 1,
            c,
            s,
        ) implies pat_holds(g2, rules[i].rhs@, rules[i].rhs@.len() - 1, c, s) by {
        lemma_pat_holds_grows(g2, g1, rules[i].lhs@, rules[i].lhs@.len() - 1, c, s, rules[i].nvars as int);
    }
}

/// What a growing graph held, it keeps holding.
proof fn lemma_applied_carries(g0: EGraph, g1: EGraph, g2: EGraph, rules: Seq<Rewrite>)
    requires
        g0.wf(),
        g1.wf(),
        g2.wf(),
        grows(g0, g1),
        grows(g1, g2),
        rules_applied(g0, g1, rules),
    ensures
        rules_applied(g0, g2, rules),
{
    assert forall|i: int, c: int, s: Seq<Option<usize>>|
        0 <= i < rules.len() && 0 <= c < g0.n() && subst_ok(s, rules[i].nvars as int, g0.n()) && #[trigger] pat_holds(
            g0,
            rules[i].lhs@,
            rules[i].lhs@.len() - 1,
            c,
            s,
        ) implies pat_holds(g2, rules[i].rhs@, rules[i].rhs@.len() - 1, c, s) by {
        assert(pat_holds(g1, rules[i].rhs@, rules[i].rhs@.len() - 1, c, s));
        lemma_pat_holds_grows(g1, g2, rules[i].rhs@, rules[i].rhs@.len() - 1, c, s, rules[i].nvars as int);
    }
}

/// One iteration: finds the matches of every rule, then applies them rule by rule in the
/// declared order;
/// then restores congruence. Returns whether anything changed. Unless it stopped early, every
/// place where a rule's left side held before now holds the rule's right side.
pub fn iterate(g: &mut EGraph, rules: &Vec<Rewrite>) -> (changed: bool)
    requires
        old(g).wf(),
        old(g).clean(),
        rules_wf(rules@),
    ensures
        final(g).wf(),
        final(g).clean(),
        grows(*old(g), *final(g)),
        !changed ==> final(g).same(*old(g)),
        changed ==> !final(g).same(*old(g)),
        rules_applied(*old(g), *final(g), rules@),
{
    let mut found: Vec<Vec<Match>> = Vec::new();
    let mut i: usize = 0;
    while i < rules.len()
        invariant
            g.wf(),
            *g == *old(g),
            rules_wf(rules@),
            0 <= i <= rules@.len(),
            found@.len() == i,
            forall|r: int, y: int|
                0 <= r < i && 0 <= y < found@[r]@.len() ==> match_ok(#[trigger] found@[r]@[y], rules@[r].nvars as int, g.n())
                    && is_match(*g, rules@[r], found@[r]@[y]),
            forall|r: int, c: int, s2: Seq<Option<usize>>|
                0 <= r < i && 0 <= c < g.n() && subst_ok(s2, rules@[r].nvars as int, g.n()) && #[trigger] pat_holds(
                    *g,
                    rules@[r].lhs@,
                    rules@[r].lhs@.len() - 1,
                    c,
                    s2,
                ) ==> match_cover(*g, found@[r]@, c, s2),
        decreases rules@.len() - i,
    {
        let ms = search(g, &rules[i]);
        let ghost f0 = found@;
        found.push(ms);
        proof {
            assert(found@[i as int] == ms);
            assert forall|r: int, y: int|
                0 <= r < i + 1 && 0 <= y < found@[r]@.len() implies match_ok(#[trigger] found@[r]@[y], rules@[r].nvars as int, g.n())
                    && is_match(*g, rules@[r], found@[r]@[y]) by {
                if r < i {
                    assert(found@[r] == f0[r]);
                }
            }
            assert forall|r: int, c: int, s2: Seq<Option<usize>>|
                0 <= r < i + 1 && 0 <= c < g.n() && subst_ok(s2, rules@[r].nvars as int, g.n()) && #[trigger] pat_holds(
                    *g,
                    rules@[r].lhs@,
                    rules@[r].lhs@.len() - 1,
                    c,
                    s2,
                ) implies match_cover(*g, found@[r]@, c, s2) by {
                if r < i {
                    assert(found@[r] == f0[r]);
                }
            }
        }
        i = i + 1;
    }
    let ghost n0 = g.n();
    let mut changed = false;
    let mut i: usize = 0;
    proof {
        lemma_grows_refl(*g);
    }
    while i < rules.len()
        invariant
            g.wf(),
            old(g).wf(),
            old(g).clean(),
            rules_wf(rules@),
            found@.len() == rules@.len(),
            n0 == old(g).n(),
            forall|r: int, y: int|
                0 <= r < rules@.len() && 0 <= y < found@[r]@.len() ==> match_ok(#[trigger] found@[r]@[y], rules@[r].nvars as int, n0)
                    && is_match(*old(g), rules@[r], found@[r]@[y]),
            0 <= i <= rules@.len(),
            grows(*old(g), *g),
            !changed ==> *g == *old(g),
            changed ==> g.n() > old(g).n() || exists|i1: int, j1: int|
                0 <= i1 < old(g).n() && 0 <= j1 < old(g).n() && !old(g).equiv(i1, j1) && #[trigger] g.equiv(i1, j1),
            applied_upto(*g, rules@, found@, i as int, 0),
            forall|r: int, c: int, s2: Seq<Option<usize>>|
                0 <= r < rules@.len() && 0 <= c < old(g).n() && subst_ok(s2, rules@[r].nvars as int, old(g).n()) && #[trigger] pat_holds(
                    *old(g),
                    rules@[r].lhs@,
                    rules@[r].lhs@.len() - 1,
                    c,
                    s2,
                ) ==> match_cover(*old(g), found@[r]@, c, s2),
        decreases rules@.len() - i,
    {
        let rule = &rules[i];
        let ms = &found[i];
        let mut x: usize = 0;
        while x < ms.len()
            invariant
                g.wf(),
                old(g).wf(),
                old(g).clean(),
                rule.wf(),
                rules_wf(rules@),
                g.n() >= n0,
                n0 == old(g).n(),
                *ms == found@[i as int],
                *rule == rules@[i as int],
                i < rules@.len(),
                found@.len() == rules@.len(),
                forall|r: int, y: int|
                    0 <= r < rules@.len() && 0 <= y < found@[r]@.len() ==> match_ok(#[trigger] found@[r]@[y], rules@[r].nvars as int, n0)
                        && is_match(*old(g), rules@[r], found@[r]@[y]),
                0 <= x <= ms@.len(),
                grows(*old(g), *g),
                !changed ==> *g == *old(g),
                changed ==> g.n() > old(g).n() || exists|i1: int, j1: int|
                    0 <= i1 < old(g).n() && 0 <= j1 < old(g).n() && !old(g).equiv(i1, j1) && #[trigger] g.equiv(i1, j1),
                applied_upto(*g, rules@, found@, i as int, x as int),
            decreases ms@.len() - x,
        {
            let ghost g1 = *g;
            let m = &ms[x];
            proof {
                assert(match_ok(found@[i as int]@[x as int], rules@[i as int].nvars as int, n0));
                assert(is_match(*old(g), rules@[i as int], found@[i as int]@[x as int]));
                lemma_match_binds_rhs(*old(g), *rule, m.class as int, m.subst@);
                assert forall|v: int| 0 <= v < m.subst@.len() && (#[trigger] m.subst@[v]) is Some implies m.subst@[v]->Some_0
                    < g.n() by {}
            }
            let ghost c0 = changed;
            let did = apply_match(g, rule, m);
            if did {
                changed = true;
            }
            proof {
                assert(grows(g1, *g));
                if c0 {
                    if g1.n() <= old(g).n() {
                        let (i1, j1) = choose|i1: int, j1: int|
                            0 <= i1 < old(g).n() && 0 <= j1 < old(g).n() && !old(g).equiv(i1, j1) && #[trigger] g1.equiv(i1, j1);
                        assert(g.equiv(i1, j1));
                    }
                } else if did {
                    assert(g1 == *old(g));
                }
                lemma_grows_trans(*old(g), g1, *g);
                lemma_applied_grows(g1, *g, rules@, found@, i as int, x as int, n0 as int);
                assert forall|r: int, y: int|
                    0 <= r < rules@.len() && 0 <= y < found@[r]@.len() && (r < i || (r == i && y < x + 1)) implies pat_holds(
                        *g,
                        rules@[r].rhs@,
                        rules@[r].rhs@.len() - 1,
                        (#[trigger] found@[r]@[y]).class as int,
                        found@[r]@[y].subst@,
                    ) by {
                    if r == i && y == x {
                        assert(found@[r]@[y] == *m);
                    }
                }
            }
            x = x + 1;
        }
        i = i + 1;
    }
    let ghost g2 = *g;
    let ghost i_end = i;
    g.rebuild();
    proof {
        assert(g.nodes@ == g2.nodes@);
        assert(grows(g2, *g)) by {
            assert(g.nodes@.subrange(0, g2.n()) =~= g2.nodes@);
        }
        lemma_grows_trans(*old(g), g2, *g);
        lemma_applied_grows(g2, *g, rules@, found@, i_end as int, 0, n0 as int);
        if changed {
            if g.n() <= old(g).n() {
                let (i1, j1) = choose|i1: int, j1: int|
                    0 <= i1 < old(g).n() && 0 <= j1 < old(g).n() && !old(g).equiv(i1, j1) && #[trigger] g2.equiv(i1, j1);
                assert(g.equiv(i1, j1));
                assert(g.parent@[i1] != old(g).parent@[i1] || g.parent@[j1] != old(g).parent@[j1]);
            }
        }
        {
            assert(i_end == rules@.len());
            assert forall|r: int, c: int, s2: Seq<Option<usize>>|
                0 <= r < rules@.len() && 0 <= c < old(g).n() && subst_ok(s2, rules@[r].nvars as int, old(g).n())
                    && #[trigger] pat_holds(*old(g), rules@[r].lhs@, rules@[r].lhs@.len() - 1, c, s2) implies pat_holds(
                *g,
                rules@[r].rhs@,
                rules@[r].rhs@.len() - 1,
                c,
                s2,
            ) by {
                let fr = found@[r]@;
                assert(match_cover(*old(g), fr, c, s2));
                let y = choose|y: int| 0 <= y < fr.len() && (#[trigger] fr[y]).class == old(g).parent@[c] && covers(*old(g), fr[y].subst@, s2);
                let m = fr[y];
                assert(match_ok(found@[r]@[y], rules@[r].nvars as int, n0));
                assert(pat_holds(*g, rules@[r].rhs@, rules@[r].rhs@.len() - 1, found@[r]@[y].class as int, found@[r]@[y].subst@));
                assert(old(g).equiv(m.class as int, c));
                assert(g.equiv(m.class as int, c));
                lemma_pat_holds_same_class(*g, rules@[r].rhs@, rules@[r].rhs@.len() - 1, m.class as int, c, m.subst@);
                lemma_covers_grows(*old(g), *g, m.subst@, s2, rules@[r].nvars as int);
                lemma_pat_holds_covers(*g, rules@[r].rhs@, rules@[r].rhs@.len() - 1, c, m.subst@, s2);
            }
        }
    }
    changed
}

/// Saturates the graph: iterates until an iteration changes nothing (`Saturated`),
/// `iter_limit` iterations have run (`IterationLimit`), or the graph holds more than
/// `node_limit` nodes when an iteration would begin (`NodeLimit`).
pub fn run(g: &mut EGraph, rules: &Vec<Rewrite>, iter_limit: usize, node_limit: usize) -> (r: Report)
    requires
        old(g).wf(),
        old(g).clean(),
        rules_wf(rules@),
    ensures
        final(g).wf(),
        final(g).clean(),
        grows(*old(g), *final(g)),
        r.iterations <= iter_limit,
        r.stop == StopReason::IterationLimit ==> r.iterations == iter_limit,
        r.stop == StopReason::NodeLimit ==> final(g).n() > node_limit,
        r.stop == StopReason::Saturated ==> r.iterations >= 1,
        r.stop == StopReason::Saturated ==> rules_applied(*final(g), *final(g), rules@),
        r.stop == StopReason::Saturated && r.iterations == 1 ==> final(g).same(*old(g)),
        iter_limit >= 1 && old(g).n() <= node_limit ==> rules_applied(*old(g), *final(g), rules@),
        r.iterations < iter_limit ==> r.stop != StopReason::IterationLimit,
        iter_limit >= 1 && old(g).n() > node_limit ==> r.stop == StopReason::NodeLimit && r.iterations == 0 && final(g).same(*old(g)),
{
    let mut iterations: usize = 0;
    proof {
        lemma_grows_refl(*g);
    }
    while iterations < iter_limit
        invariant
            g.wf(),
            g.clean(),
            rules_wf(rules@),
            grows(*old(g), *g),
            iterations <= iter_limit,
            iterations == 0 ==> *g == *old(g),
            old(g).n() > node_limit ==> iterations == 0,
            iterations >= 1 ==> rules_applied(*old(g), *g, rules@),
            old(g).wf(),
        decreases iter_limit - iterations,
    {
        if g.len() > node_limit {
            return Report { stop: StopReason::NodeLimit, iterations };
        }
        let ghost g1 = *g;
        let changed = iterate(g, rules);
        proof {
            lemma_grows_trans(*old(g), g1, *g);
            if iterations == 0 {
                assert(g1 == *old(g));
            } else {
                lemma_applied_carries(*old(g), g1, *g, rules@);
            }
        }
        iterations = iterations + 1;
        if !changed {
            proof {
                assert(grows(*g, g1)) by {
                    assert(g1.nodes@.subrange(0, g.n()) =~= g.nodes@);
                }
                lemma_saturated_fixpoint(g1, *g, rules@);
                if iterations == 1 {
                    assert(g1 == *old(g));
                }
            }
            return Report { stop: StopReason::Saturated, iterations };
        }
    }
    Report { stop: StopReason::IterationLimit, iterations }
}

} // verus!
