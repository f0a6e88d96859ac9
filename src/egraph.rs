use vstd::prelude::*;
use std::collections::HashMap;
use crate::term::{Node, Op};

verus! {

/// Number of roots (identifiers that are their own representative) among the first `k`.
pub open spec fn count_roots(p: Seq<usize>, k: int) -> nat
    decreases k,
{
    if k <= 0 {
        0
    } else {
        count_roots(p, k - 1) + (if p[k - 1] == k - 1 { 1nat } else { 0nat })
    }
}

/// When every root of `after` was a root of `before` and `r` stops being one, fewer roots remain.
proof fn lemma_count_roots_drop(before: Seq<usize>, after: Seq<usize>, r: int, k: int)
    requires
        before.len() == after.len(),
        0 <= k <= before.len(),
        forall|i: int| 0 <= i < before.len() && after[i] == i ==> before[i] == i,
        0 <= r < before.len(),
        before[r] == r,
        after[r] != r,
    ensures
        count_roots(after, k) <= count_roots(before, k),
        k > r ==> count_roots(after, k) < count_roots(before, k),
    decreases k,
{
    if k > 0 {
        lemma_count_roots_drop(before, after, r, k - 1);
    }
}

/// The kind of a node: its operator, or constant, or symbol.
pub open spec fn kind_of(n: Node) -> u8 {
    match n {
        Node::Bin(Op::Add, _, _) => 0,
        Node::Bin(Op::Sub, _, _) => 1,
        Node::Bin(Op::Mul, _, _) => 2,
        Node::Bin(Op::Div, _, _) => 3,
        Node::Constant(_) => 4,
        Node::Symbol(_) => 5,
    }
}

/// The hashcons key of a node: two nodes of the same kind have equal keys exactly when they
/// are equal.
pub open spec fn key_of(n: Node) -> u128 {
    match n {
        Node::Bin(_, a, b) => ((a as u128) << 64u128) | (b as u128),
        Node::Constant(c) => c.bits as u128,
        Node::Symbol(s) => s.id as u128,
    }
}

/// Equal keys of one kind mean equal nodes.
proof fn lemma_key_injective(x: Node, y: Node)
    requires
        kind_of(x) == kind_of(y),
        key_of(x) == key_of(y),
    ensures
        x == y,
{
    match (x, y) {
        (Node::Bin(o1, a1, b1), Node::Bin(o2, a2, b2)) => {
            let (a1, b1, a2, b2) = (a1 as u128, b1 as u128, a2 as u128, b2 as u128);
            assert(a1 < 0x1_0000_0000_0000_0000u128 && b1 < 0x1_0000_0000_0000_0000u128);
            assert(a2 < 0x1_0000_0000_0000_0000u128 && b2 < 0x1_0000_0000_0000_0000u128);
            assert(a1 < 0x1_0000_0000_0000_0000u128 && b1 < 0x1_0000_0000_0000_0000u128
                && a2 < 0x1_0000_0000_0000_0000u128 && b2 < 0x1_0000_0000_0000_0000u128
                && ((a1 << 64u128) | b1) == ((a2 << 64u128) | b2) ==> a1 == a2 && b1 == b2)
                by (bit_vector);
        },
        _ => {},
    }
}

/// The kind of a node.
fn kind_exec(n: &Node) -> (r: u8)
    ensures
        r == kind_of(*n),
{
    match n {
        Node::Bin(Op::Add, _, _) => 0,
        Node::Bin(Op::Sub, _, _) => 1,
        Node::Bin(Op::Mul, _, _) => 2,
        Node::Bin(Op::Div, _, _) => 3,
        Node::Constant(_) => 4,
        Node::Symbol(_) => 5,
    }
}

/// The hashcons key of a node.
fn key_exec(n: &Node) -> (r: u128)
    ensures
        r == key_of(*n),
{
    match n {
        Node::Bin(_, a, b) => ((*a as u128) << 64u128) | (*b as u128),
        Node::Constant(c) => c.bits as u128,
        Node::Symbol(s) => s.id as u128,
    }
}

/// An equivalence graph: hashconsed nodes, each owning the class it was created in, and a
/// union-find over class identifiers.
///
/// Node `i` belongs to the class whose canonical identifier is `find(i)`; the children of a
/// stored node are the canonical identifiers they had when it was added.
pub struct EGraph {
    pub nodes: Vec<Node>,
    pub parent: Vec<usize>,
    /// The hashcons: for each node kind, the key of a node's canonical form to a node with
    /// that form. Entries always name a node of their kind; after `rebuild` every node's
    /// canonical form is present and every key is current.
    pub memo: Vec<HashMap<u128, usize>>,
}

impl EGraph {
    /// Number of identifiers (and of nodes) in the graph.
    pub open spec fn n(&self) -> int {
        self.nodes@.len() as int
    }

    /// Canonical identifier of `i`.
    pub open spec fn find_spec(&self, i: int) -> int {
        self.parent@[i] as int
    }

    /// `i` and `j` are in the same class.
    pub open spec fn equiv(&self, i: int, j: int) -> bool {
        self.parent@[i] == self.parent@[j]
    }

    /// The node with its children replaced by their canonical identifiers.
    pub open spec fn canon(&self, n: Node) -> Node {
        match n {
            Node::Bin(o, a, b) => Node::Bin(o, self.parent@[a as int], self.parent@[b as int]),
            _ => n,
        }
    }

    /// Well formed: the union-find maps each identifier straight to a canonical one, and each
    /// node's children were created before it.
    pub open spec fn wf(&self) -> bool {
        &&& self.parent@.len() == self.nodes@.len()
        &&& forall|i: int| 0 <= i < self.n() ==> (#[trigger] self.parent@[i]) < self.n()
        &&& forall|i: int| 0 <= i < self.n() ==> self.parent@[self.parent@[i] as int] == self.parent@[i]
        &&& forall|i: int| 0 <= i < self.n() ==> (#[trigger] self.nodes@[i]).children_below(i)
        &&& self.memo@.len() == 6
        &&& vstd::std_specs::hash::obeys_key_model::<u128>()
        &&& forall|k: int, key: u128|
            0 <= k < 6 && #[trigger] self.memo@[k]@.contains_key(key) ==> self.memo@[k]@[key] < self.n()
                && kind_of(self.nodes@[self.memo@[k]@[key] as int]) == k
    }

    /// The hashcons is complete and current: each node's canonical form is found under its
    /// key, and each entry names a node whose canonical form has that key.
    pub open spec fn fresh(&self) -> bool {
        &&& forall|k: int, key: u128|
            0 <= k < 6 && #[trigger] self.memo@[k]@.contains_key(key) ==> key_of(
                self.canon(self.nodes@[self.memo@[k]@[key] as int]),
            ) == key
        &&& forall|j: int|
            0 <= j < self.n() ==> self.memo@[kind_of(self.nodes@[j]) as int]@.contains_key(
                key_of(#[trigger] self.canon(self.nodes@[j])),
            )
    }

    /// At rest: congruence closed, with a complete hashcons.
    pub open spec fn clean(&self) -> bool {
        self.congruent() && self.fresh()
    }

    /// Same nodes and same partition.
    pub open spec fn same(&self, other: EGraph) -> bool {
        self.nodes@ == other.nodes@ && self.parent@ == other.parent@
    }

    /// Congruence closure: nodes that are equal up to their children's classes share a class.
    pub open spec fn congruent(&self) -> bool {
        forall|i: int, j: int|
            0 <= i < self.n() && 0 <= j < self.n()
                && #[trigger] self.canon(self.nodes@[i]) == #[trigger] self.canon(self.nodes@[j])
                ==> self.parent@[i] == self.parent@[j]
    }

    /// Node `n` (taken up to its children's classes) is present in class `c`.
    pub open spec fn class_has(&self, c: int, n: Node) -> bool {
        exists|j: int|
            0 <= j < self.n() && self.parent@[j] == self.parent@[c] && #[trigger] self.canon(
                self.nodes@[j],
            ) == self.canon(n)
    }

    /// What `add` does: either the graph is unchanged and the result is the class of a node
    /// equal to `n` up to classes, or `n` with canonical children becomes a new singleton
    /// class. In a graph at rest, the first happens exactly when such a node exists.
    pub open spec fn add_post(old: EGraph, n: Node, new: EGraph, r: usize) -> bool {
        &&& new.wf()
        &&& (r as int) < new.n()
        &&& new.parent@[r as int] == r
        &&& new.class_has(r as int, n)
        &&& new.canon(n) == old.canon(n)
        &&& old.clean() ==> new.clean()
        &&& forall|i: int| 0 <= i < old.n() ==> #[trigger] new.parent@[i] == old.parent@[i]
        &&& {
            ||| {
                &&& new == old
                &&& exists|j: int|
                    0 <= j < old.n() && #[trigger] old.canon(old.nodes@[j]) == old.canon(n) && old.parent@[j] == r
            }
            ||| {
                &&& new.nodes@ == old.nodes@.push(old.canon(n))
                &&& new.parent@ == old.parent@.push(r)
                &&& r == old.n()
                &&& old.fresh() ==> !exists|j: int|
                    0 <= j < old.n() && #[trigger] old.canon(old.nodes@[j]) == old.canon(n)
            }
        }
    }

    /// What `union` does: the classes of `a` and `b` become one, named by `a`'s canonical
    /// identifier; no other class changes.
    pub open spec fn union_post(old: EGraph, a: int, b: int, new: EGraph) -> bool {
        &&& new.wf()
        &&& new.nodes@ == old.nodes@
        &&& new.parent@.len() == old.parent@.len()
        &&& forall|i: int|
            0 <= i < old.n() ==> #[trigger] new.parent@[i] == if old.parent@[i] == old.parent@[b] {
                old.parent@[a]
            } else {
                old.parent@[i]
            }
    }

    /// An empty graph.
    pub fn new() -> (g: EGraph)
        ensures
            g.wf(),
            g.n() == 0,
            g.clean(),
    {
        let mut memo: Vec<HashMap<u128, usize>> = Vec::new();
        let mut k: usize = 0;
        while k < 6
            invariant
                0 <= k <= 6,
                memo@.len() == k,
                forall|x: int| 0 <= x < k ==> (#[trigger] memo@[x])@ == Map::<u128, usize>::empty(),
            decreases 6 - k,
        {
            memo.push(HashMap::new());
            k = k + 1;
        }
        EGraph { nodes: Vec::new(), parent: Vec::new(), memo }
    }

    /// Number of identifiers (and of nodes) in the graph.
    pub fn len(&self) -> (r: usize)
        ensures
            r == self.n(),
    {
        self.nodes.len()
    }

    /// The node stored under identifier `i`.
    pub fn node(&self, i: usize) -> (r: Node)
        requires
            i < self.n(),
        ensures
            r == self.nodes@[i as int],
    {
        self.nodes[i]
    }

    /// Canonical identifier of the class of `i`.
    pub fn find(&self, i: usize) -> (r: usize)
        requires
            self.wf(),
            i < self.n(),
        ensures
            r == self.find_spec(i as int),
            r < self.n(),
            self.find_spec(r as int) == r,
    {
        self.parent[i]
    }

    /// The node with canonical children.
    pub fn canonicalize(&self, n: &Node) -> (r: Node)
        requires
            self.wf(),
            n.children_below(self.n()),
        ensures
            r == self.canon(*n),
            r.children_below(self.n()),
    {
        match n {
            Node::Bin(o, a, b) => Node::Bin(*o, self.parent[*a], self.parent[*b]),
            _ => *n,
        }
    }

    /// Adds a node: returns the class of an equal node if there is one, else a new class.
    pub fn add(&mut self, n: Node) -> (r: usize)
        requires
            old(self).wf(),
            n.children_below(old(self).n()),
        ensures
            Self::add_post(*old(self), n, *final(self), r),
    {
        let cn = self.canonicalize(&n);
        let len = self.nodes.len();
        let kind = kind_exec(&cn) as usize;
        let key = key_exec(&cn);
        assert(kind_of(cn) == kind_of(n));
        match self.memo[kind].get(&key) {
            Some(j) => {
                let j = *j;
                let cj = self.canonicalize(&self.nodes[j]);
                if cj == cn {
                    let r = self.parent[j];
                    assert(self.canon(self.nodes@[j as int]) == self.canon(n));
                    assert(self.canon(self.nodes@[j as int]) == self.canon(self.nodes@[j as int]));
                    return r;
                }
            },
            None => {},
        }
        proof {
            if self.fresh() {
                assert forall|j: int| 0 <= j < len implies #[trigger] self.canon(self.nodes@[j]) != cn by {
                    if self.canon(self.nodes@[j]) == cn {
                        assert(kind_of(self.canon(self.nodes@[j])) == kind_of(self.nodes@[j]));
                        assert(self.memo@[kind as int]@.contains_key(key));
                        let v = self.memo@[kind as int]@[key] as int;
                        assert(kind_of(self.canon(self.nodes@[v])) == kind_of(self.nodes@[v]));
                        lemma_key_injective(self.canon(self.nodes@[v]), cn);
                    }
                }
            }
        }
        let ghost g0 = *self;
        self.nodes.push(cn);
        self.parent.push(len);
        self.memo[kind].insert(key, len);
        proof {
            assert forall|i: int| 0 <= i < self.n() implies #[trigger] self.canon(self.nodes@[i])
                == g0.canon(self.nodes@[i]) by {
                assert(self.nodes@[i].children_below(self.n()) || i == len);
                if i < len {
                    assert(self.nodes@[i] == g0.nodes@[i]);
                    assert(g0.nodes@[i].children_below(i));
                }
            }
            assert(self.canon(self.nodes@[len as int]) == cn) by {
                assert(self.nodes@[len as int] == cn);
            }
            assert(self.canon(n) == cn);
            assert(kind_of(self.nodes@[len as int]) == kind);
            assert forall|k: int, key2: u128|
                0 <= k < 6 && #[trigger] self.memo@[k]@.contains_key(key2) implies self.memo@[k]@[key2] < self.n()
                    && kind_of(self.nodes@[self.memo@[k]@[key2] as int]) == k by {
                if !(k == kind && key2 == key) {
                    assert(g0.memo@[k]@.contains_key(key2));
                    assert(self.nodes@[g0.memo@[k]@[key2] as int] == g0.nodes@[g0.memo@[k]@[key2] as int]);
                }
            }
            if g0.clean() {
                assert forall|i: int, k: int|
                    0 <= i < self.n() && 0 <= k < self.n() && #[trigger] self.canon(self.nodes@[i])
                        == #[trigger] self.canon(self.nodes@[k]) implies self.parent@[i]
                    == self.parent@[k] by {
                    if i < len && k < len {
                        assert(g0.canon(g0.nodes@[i]) == g0.canon(g0.nodes@[k]));
                    } else if i < len {
                        assert(g0.canon(g0.nodes@[i]) != cn);
                    } else if k < len {
                        assert(g0.canon(g0.nodes@[k]) != cn);
                    }
                }
                assert forall|k: int, key2: u128|
                    0 <= k < 6 && #[trigger] self.memo@[k]@.contains_key(key2) implies key_of(
                        self.canon(self.nodes@[self.memo@[k]@[key2] as int]),
                    ) == key2 by {
                    if !(k == kind && key2 == key) {
                        assert(g0.memo@[k]@.contains_key(key2));
                        assert(self.nodes@[g0.memo@[k]@[key2] as int] == g0.nodes@[g0.memo@[k]@[key2] as int]);
                    }
                }
                assert forall|j: int|
                    0 <= j < self.n() implies self.memo@[kind_of(self.nodes@[j]) as int]@.contains_key(
                        key_of(#[trigger] self.canon(self.nodes@[j])),
                    ) by {
                    if j < len {
                        assert(self.nodes@[j] == g0.nodes@[j]);
                        assert(g0.canon(g0.nodes@[j]) == g0.canon(self.nodes@[j]));
                        assert(g0.memo@[kind_of(g0.nodes@[j]) as int]@.contains_key(key_of(g0.canon(g0.nodes@[j]))));
                    }
                }
            }
        }
        len
    }

    /// Adds an expression (children refer to earlier positions, the root is last) node by node;
    /// returns the class of each position. Each position's node, with its children replaced by
    /// their classes, is then present in its class.
    #[verifier::rlimit(80)]
    #[verifier::spinoff_prover]
    pub fn add_expr(&mut self, e: &Vec<Node>) -> (ids: Vec<usize>)
        requires
            old(self).wf(),
            crate::term::expr_wf(e@),
        ensures
            final(self).wf(),
            old(self).clean() ==> final(self).clean(),
            final(self).n() >= old(self).n(),
            forall|i: int| 0 <= i < old(self).n() ==> #[trigger] final(self).parent@[i] == old(self).parent@[i],
            ids@.len() == e@.len(),
            forall|k: int| 0 <= k < ids@.len() ==> #[trigger] ids@[k] < final(self).n(),
            forall|k: int|
                0 <= k < ids@.len() ==> final(self).class_has(
                    ids@[k] as int,
                    #[trigger] with_children(e@[k], ids@),
                ),
            final(self).nodes@.subrange(0, old(self).n()) == old(self).nodes@,
            final(self).n() <= old(self).n() + e@.len(),
            forall|k: int| 0 <= k < ids@.len() ==> final(self).parent@[#[trigger] ids@[k] as int] == ids@[k],
            forall|i: int| old(self).n() <= i < final(self).n() ==> #[trigger] final(self).parent@[i] == i,
            forall|i: int| old(self).n() <= i < final(self).n() ==> #[trigger] appended_from(*final(self), e@, ids@, i),
    {
        let ghost g0 = *self;
        let mut ids: Vec<usize> = Vec::new();
        let mut k: usize = 0;
        while k < e.len()
            invariant
                g0 == *old(self),
                self.wf(),
                crate::term::expr_wf(e@),
                g0.clean() ==> self.clean(),
                self.n() >= g0.n(),
                forall|i: int| 0 <= i < g0.n() ==> #[trigger] self.parent@[i] == g0.parent@[i],
                0 <= k <= e@.len(),
                ids@.len() == k,
                forall|x: int| 0 <= x < k ==> #[trigger] ids@[x] < self.n(),
                forall|x: int| 0 <= x < k ==> self.class_has(ids@[x] as int, #[trigger] with_children(e@[x], ids@)),
                self.nodes@.subrange(0, g0.n()) == g0.nodes@,
                self.n() <= g0.n() + k,
                forall|x: int| 0 <= x < k ==> self.parent@[#[trigger] ids@[x] as int] == ids@[x],
                forall|i: int| g0.n() <= i < self.n() ==> #[trigger] self.parent@[i] == i,
                forall|i: int| g0.n() <= i < self.n() ==> #[trigger] appended_from(*self, e@, ids@, i),
            decreases e@.len() - k,
        {
            let ghost g1 = *self;
            let ghost ids0 = ids@;
            let node = match e[k] {
                Node::Bin(o, a, b) => Node::Bin(o, ids[a], ids[b]),
                other => other,
            };
            assert(e@[k as int].children_below(k as int));
            let id = self.add(node);
            ids.push(id);
            proof {
                assert(self.nodes@.subrange(0, g1.n()) =~= g1.nodes@);
                assert(node == with_children(e@[k as int], ids@));
                assert(self.nodes@.subrange(0, g0.n()) =~= g0.nodes@) by {
                    assert forall|i: int| 0 <= i < g0.n() implies self.nodes@[i] == g0.nodes@[i] by {
                        assert(self.nodes@.subrange(0, g1.n())[i] == g1.nodes@[i]);
                        assert(g1.nodes@.subrange(0, g0.n())[i] == g0.nodes@[i]);
                    }
                }
                assert forall|x: int| 0 <= x < k + 1 implies self.parent@[#[trigger] ids@[x] as int] == ids@[x] by {
                    if x < k {
                        assert(ids@[x] == ids0[x]);
                        assert(g1.parent@[ids0[x] as int] == ids0[x]);
                    }
                }
                assert forall|i: int| g0.n() <= i < self.n() implies #[trigger] self.parent@[i] == i by {
                    if i < g1.n() {
                        assert(self.parent@[i] == g1.parent@[i]);
                    }
                }
                assert forall|i: int| g0.n() <= i < self.n() implies #[trigger] appended_from(*self, e@, ids@, i) by {
                    if i < g1.n() {
                        assert(appended_from(g1, e@, ids0, i));
                        let x = choose|x: int| 0 <= x < e@.len() && x < ids0.len() && ids0[x] == i && g1.nodes@[i] == #[trigger] with_children(e@[x], ids0);
                        assert(self.nodes@[i] == self.nodes@.subrange(0, g1.n())[i]);
                        assert(ids@[x] == ids0[x]);
                        assert(with_children(e@[x], ids@) == with_children(e@[x], ids0)) by {
                            assert(e@[x].children_below(x));
                        }
                    } else {
                        assert(self.n() != g1.n());
                        assert(i == g1.n());
                        assert(id == g1.n());
                        assert(ids@[k as int] == i);
                        assert(g1.canon(node) == node) by {
                            match e@[k as int] {
                                Node::Bin(o, a, b) => {
                                    assert(e@[k as int].children_below(k as int));
                                    assert(g1.parent@[ids0[a as int] as int] == ids0[a as int]);
                                    assert(g1.parent@[ids0[b as int] as int] == ids0[b as int]);
                                },
                                _ => {},
                            }
                        }
                        assert(self.nodes@[i] == node);
                        assert(self.nodes@[i] == with_children(e@[k as int], ids@));
                    }
                }
                assert forall|x: int| 0 <= x < k + 1 implies self.class_has(ids@[x] as int, #[trigger] with_children(e@[x], ids@)) by {
                    if x < k {
                        assert(with_children(e@[x], ids@) == with_children(e@[x], ids0)) by {
                            assert(e@[x].children_below(x));
                        }
                        lemma_class_has_grows(g1, *self, ids@[x] as int, with_children(e@[x], ids@));
                    }
                }
                assert forall|i: int| 0 <= i < g0.n() implies #[trigger] self.parent@[i] == g0.parent@[i] by {
                    assert(self.parent@[i] == g1.parent@[i]);
                }
            }
            k = k + 1;
        }
        ids
    }

    /// Merges the classes of `a` and `b`; returns whether they were distinct.
    pub fn union(&mut self, a: usize, b: usize) -> (r: bool)
        requires
            old(self).wf(),
            a < old(self).n(),
            b < old(self).n(),
        ensures
            Self::union_post(*old(self), a as int, b as int, *final(self)),
            r == !old(self).equiv(a as int, b as int),
            !r ==> *final(self) == *old(self),
            r ==> count_roots(final(self).parent@, final(self).n()) < count_roots(
                old(self).parent@,
                old(self).n(),
            ),
    {
        let ra = self.parent[a];
        let rb = self.parent[b];
        if ra == rb {
            return false;
        }
        let len = self.parent.len();
        let mut i: usize = 0;
        while i < len
            invariant
                len == old(self).n(),
                self.nodes@ == old(self).nodes@,
                self.memo@ == old(self).memo@,
                self.parent@.len() == len,
                old(self).wf(),
                ra == old(self).parent@[a as int],
                rb == old(self).parent@[b as int],
                0 <= i <= len,
                forall|k: int| 0 <= k < i ==> #[trigger] self.parent@[k] == if old(self).parent@[k] == rb {
                    ra
                } else {
                    old(self).parent@[k]
                },
                forall|k: int| i <= k < len ==> #[trigger] self.parent@[k] == old(self).parent@[k],
            decreases len - i,
        {
            if self.parent[i] == rb {
                self.parent.set(i, ra);
            }
            i = i + 1;
        }
        proof {
            let before = old(self).parent@;
            let after = self.parent@;
            assert forall|k: int| 0 <= k < len implies after[after[k] as int] == after[k] by {
                assert(before[before[k] as int] == before[k]);
                assert(before[ra as int] == ra);
            }
            assert forall|k: int| 0 <= k < len && after[k] == k implies before[k] == k by {
                if before[k] == rb {
                    assert(before[rb as int] == rb);
                }
            }
            assert(before[rb as int] == rb);
            assert(after[rb as int] == ra);
            lemma_count_roots_drop(before, after, rb as int, len as int);
        }
        true
    }

    /// One pass of congruence repair: merges congruent nodes of distinct classes that it
    /// finds, or, finding none, shows the graph congruent.
    fn repair_pass(&mut self) -> (r: bool)
        requires
            old(self).wf(),
        ensures
            final(self).wf(),
            final(self).nodes@ == old(self).nodes@,
            !r ==> *final(self) == *old(self) && final(self).congruent(),
            old(self).congruent() ==> !r,
            r ==> count_roots(final(self).parent@, final(self).n()) < count_roots(
                old(self).parent@,
                old(self).n(),
            ),
            forall|i: int, j: int|
                0 <= i < old(self).n() && 0 <= j < old(self).n() && old(self).equiv(i, j)
                    ==> #[trigger] final(self).equiv(i, j),
            merges_forced(*old(self), *final(self)),
    {
        let len = self.nodes.len();
        let mut changed = false;
        let mut kind: u8 = 0;
        while kind < 6
            invariant
                self.wf(),
                self.nodes@ == old(self).nodes@,
                !changed ==> *self == *old(self),
                changed ==> count_roots(self.parent@, self.n()) < count_roots(old(self).parent@, old(self).n()),
                old(self).congruent() ==> !changed,
                forall|i: int, j: int|
                    0 <= i < old(self).n() && 0 <= j < old(self).n() && old(self).equiv(i, j)
                        ==> #[trigger] self.equiv(i, j),
                len == self.n(),
                old(self).wf(),
                merges_forced(*old(self), *self),
                0 <= kind <= 6,
                !changed ==> forall|i: int, j: int|
                    0 <= i < len && 0 <= j < len && kind_of(self.nodes@[i]) < kind
                        && #[trigger] self.canon(self.nodes@[i]) == #[trigger] self.canon(
                        self.nodes@[j],
                    ) ==> self.parent@[i] == self.parent@[j],
            decreases 6 - kind,
        {
            let mut seen: HashMap<u128, usize> = HashMap::new();
            let mut i: usize = 0;
            while i < len
                invariant
                    self.wf(),
                    self.nodes@ == old(self).nodes@,
                    !changed ==> *self == *old(self),
                    changed ==> count_roots(self.parent@, self.n()) < count_roots(old(self).parent@, old(self).n()),
                    old(self).congruent() ==> !changed,
                    forall|i1: int, j: int|
                        0 <= i1 < old(self).n() && 0 <= j < old(self).n() && old(self).equiv(i1, j)
                            ==> #[trigger] self.equiv(i1, j),
                    len == self.n(),
                    old(self).wf(),
                    merges_forced(*old(self), *self),
                    0 <= kind < 6,
                    0 <= i <= len,
                    vstd::std_specs::hash::obeys_key_model::<u128>(),
                    forall|key: u128| #[trigger] seen@.contains_key(key) ==> seen@[key] < i,
                    !changed ==> forall|key: u128|
                        #[trigger] seen@.contains_key(key) ==> kind_of(
                            self.nodes@[seen@[key] as int],
                        ) == kind && key_of(self.canon(self.nodes@[seen@[key] as int])) == key,
                    !changed ==> forall|k: int|
                        0 <= k < i && kind_of(self.nodes@[k]) == kind ==> seen@.contains_key(
                            #[trigger] key_of(self.canon(self.nodes@[k])),
                        ) && self.parent@[seen@[key_of(self.canon(self.nodes@[k]))] as int]
                            == self.parent@[k],
                    !changed ==> forall|i2: int, j: int|
                        0 <= i2 < len && 0 <= j < len && kind_of(self.nodes@[i2]) < kind
                            && #[trigger] self.canon(self.nodes@[i2]) == #[trigger] self.canon(
                            self.nodes@[j],
                        ) ==> self.parent@[i2] == self.parent@[j],
                decreases len - i,
            {
                let ghost s0 = seen@;
                let ghost c0 = changed;
                if kind_exec(&self.nodes[i]) == kind {
                    let cn = self.canonicalize(&self.nodes[i]);
                    let key = key_exec(&cn);
                    match seen.get(&key) {
                        Some(j) => {
                            let j = *j;
                            proof {
                                if !changed {
                                    assert(kind_of(self.canon(self.nodes@[j as int])) == kind_of(self.nodes@[j as int]));
                                    assert(kind_of(self.canon(self.nodes@[i as int])) == kind_of(self.nodes@[i as int]));
                                    lemma_key_injective(
                                        self.canon(self.nodes@[j as int]),
                                        self.canon(self.nodes@[i as int]),
                                    );
                                }
                            }
                            if self.parent[j] != self.parent[i] && self.canonicalize(&self.nodes[j]) == cn {
                                let ghost g0 = *self;
                                proof {
                                    if !changed {
                                        assert(kind_of(self.canon(self.nodes@[j as int])) == kind_of(self.nodes@[j as int]));
                                        assert(kind_of(self.canon(self.nodes@[i as int])) == kind_of(self.nodes@[i as int]));
                                        lemma_key_injective(
                                            self.canon(self.nodes@[j as int]),
                                            self.canon(self.nodes@[i as int]),
                                        );
                                    }
                                }
                                self.union(j, i);
                                proof {
                                    lemma_union_joins(g0, j as int, i as int, *self);
                                    lemma_union_forced(*old(self), g0, *self, j as int, i as int);
                                    assert forall|i1: int, j1: int|
                                        0 <= i1 < old(self).n() && 0 <= j1 < old(self).n() && old(self).equiv(i1, j1)
                                            implies #[trigger] self.equiv(i1, j1) by {
                                        assert(g0.equiv(i1, j1));
                                    }
                                }
                                changed = true;
                            }
                        },
                        None => {
                            seen.insert(key, i);
                        },
                    }
                }
                proof {
                    if !changed {
                        assert forall|k: int|
                            0 <= k < i + 1 && kind_of(self.nodes@[k]) == kind implies seen@.contains_key(
                                #[trigger] key_of(self.canon(self.nodes@[k])),
                            ) && self.parent@[seen@[key_of(self.canon(self.nodes@[k]))] as int]
                                == self.parent@[k] by {
                            if k < i {
                                assert(s0.contains_key(key_of(self.canon(self.nodes@[k]))));
                            }
                        }
                    }
                }
                i = i + 1;
            }
            proof {
                if !changed {
                    assert forall|i2: int, j: int|
                        0 <= i2 < len && 0 <= j < len && kind_of(self.nodes@[i2]) < kind + 1
                            && #[trigger] self.canon(self.nodes@[i2]) == #[trigger] self.canon(
                            self.nodes@[j],
                        ) implies self.parent@[i2] == self.parent@[j] by {
                        if kind_of(self.nodes@[i2]) == kind {
                            assert(kind_of(self.canon(self.nodes@[i2])) == kind_of(self.nodes@[i2]));
                            assert(kind_of(self.canon(self.nodes@[j])) == kind_of(self.nodes@[j]));
                            assert(seen@.contains_key(key_of(self.canon(self.nodes@[i2]))));
                            assert(seen@.contains_key(key_of(self.canon(self.nodes@[j]))));
                        }
                    }
                }
            }
            kind = kind + 1;
        }
        proof {
            if !changed {
                assert forall|i: int, j: int|
                    0 <= i < self.n() && 0 <= j < self.n() && #[trigger] self.canon(self.nodes@[i])
                        == #[trigger] self.canon(self.nodes@[j]) implies self.parent@[i]
                    == self.parent@[j] by {
                    assert(kind_of(self.nodes@[i]) < 6);
                }
            }
        }
        changed
    }

    /// Refills the hashcons from the current canonical forms.
    fn refresh_memo(&mut self)
        requires
            old(self).wf(),
        ensures
            final(self).wf(),
            final(self).fresh(),
            final(self).nodes@ == old(self).nodes@,
            final(self).parent@ == old(self).parent@,
    {
        let len = self.nodes.len();
        let mut k: usize = 0;
        while k < 6
            invariant
                self.wf(),
                self.nodes@ == old(self).nodes@,
                self.parent@ == old(self).parent@,
                0 <= k <= 6,
                forall|x: int| 0 <= x < k ==> (#[trigger] self.memo@[x])@ == Map::<u128, usize>::empty(),
            decreases 6 - k,
        {
            self.memo.set(k, HashMap::new());
            k = k + 1;
        }
        let mut i: usize = 0;
        while i < len
            invariant
                self.wf(),
                self.nodes@ == old(self).nodes@,
                self.parent@ == old(self).parent@,
                len == self.n(),
                0 <= i <= len,
                forall|k2: int, key: u128|
                    0 <= k2 < 6 && #[trigger] self.memo@[k2]@.contains_key(key) ==> key_of(
                        self.canon(self.nodes@[self.memo@[k2]@[key] as int]),
                    ) == key,
                forall|j: int|
                    0 <= j < i ==> self.memo@[kind_of(self.nodes@[j]) as int]@.contains_key(
                        key_of(#[trigger] self.canon(self.nodes@[j])),
                    ),
            decreases len - i,
        {
            let cn = self.canonicalize(&self.nodes[i]);
            let kind = kind_exec(&self.nodes[i]) as usize;
            let key = key_exec(&cn);
            let ghost m0 = self.memo@;
            let ghost g0 = *self;
            if !self.memo[kind].contains_key(&key) {
                self.memo[kind].insert(key, i);
            }
            proof {
                assert forall|k2: int, key2: u128|
                    0 <= k2 < 6 && #[trigger] self.memo@[k2]@.contains_key(key2) implies self.memo@[k2]@[key2] < self.n()
                        && kind_of(self.nodes@[self.memo@[k2]@[key2] as int]) == k2 && key_of(
                        self.canon(self.nodes@[self.memo@[k2]@[key2] as int]),
                    ) == key2 by {
                    if !(k2 == kind && key2 == key) {
                        assert(m0[k2]@.contains_key(key2));
                        assert(g0.memo@[k2]@.contains_key(key2));
                        assert(g0.canon(g0.nodes@[m0[k2]@[key2] as int]) == self.canon(self.nodes@[m0[k2]@[key2] as int]));
                    } else {
                        assert(self.canon(self.nodes@[i as int]) == cn);
                    }
                }
                assert forall|j: int|
                    0 <= j < i + 1 implies self.memo@[kind_of(self.nodes@[j]) as int]@.contains_key(
                        key_of(#[trigger] self.canon(self.nodes@[j])),
                    ) by {
                    if j < i {
                        assert(g0.canon(g0.nodes@[j]) == self.canon(self.nodes@[j]));
                        assert(m0[kind_of(g0.nodes@[j]) as int]@.contains_key(key_of(g0.canon(g0.nodes@[j]))));
                    }
                }
            }
            i = i + 1;
        }
    }

    /// Restores congruence closure after a batch of unions, then refills the hashcons; it merges
    /// only what congruence forces.
    pub fn rebuild(&mut self)
        requires
            old(self).wf(),
        ensures
            final(self).wf(),
            final(self).clean(),
            final(self).nodes@ == old(self).nodes@,
            forall|i: int, j: int|
                0 <= i < old(self).n() && 0 <= j < old(self).n() && old(self).equiv(i, j)
                    ==> #[trigger] final(self).equiv(i, j),
            old(self).congruent() ==> final(self).parent@ == old(self).parent@,
            merges_forced(*old(self), *final(self)),
    {
        loop
            invariant
                self.wf(),
                self.nodes@ == old(self).nodes@,
                forall|i: int, j: int|
                    0 <= i < old(self).n() && 0 <= j < old(self).n() && old(self).equiv(i, j)
                        ==> #[trigger] self.equiv(i, j),
                old(self).congruent() ==> *self == *old(self),
                old(self).wf(),
                merges_forced(*old(self), *self),
            ensures
                merges_forced(*old(self), *self),
                self.wf(),
                self.congruent(),
                old(self).congruent() ==> *self == *old(self),
                self.nodes@ == old(self).nodes@,
                forall|i: int, j: int|
                    0 <= i < old(self).n() && 0 <= j < old(self).n() && old(self).equiv(i, j)
                        ==> #[trigger] self.equiv(i, j),
            decreases count_roots(self.parent@, self.n()),
        {
            let ghost g0 = *self;
            if !self.repair_pass() {
                break;
            }
            proof {
                lemma_forced_trans(*old(self), g0, *self);
                assert forall|i: int, j: int|
                    0 <= i < old(self).n() && 0 <= j < old(self).n() && old(self).equiv(i, j)
                        implies #[trigger] self.equiv(i, j) by {
                    assert(g0.equiv(i, j));
                }
            }
        }
        let ghost g1 = *self;
        self.refresh_memo();
        proof {
            assert forall|q: Seq<int>| q.len() == old(self).n() && #[trigger] respects(*old(self), q) && label_congruent(*old(self), q)
                implies respects(*self, q) by {
                assert(respects(g1, q));
                assert forall|x: int, y: int| 0 <= x < self.n() && 0 <= y < self.n() && #[trigger] self.equiv(x, y) implies q[x] == q[y] by {
                    assert(g1.equiv(x, y));
                }
            }
            assert forall|i: int, j: int|
                0 <= i < self.n() && 0 <= j < self.n() && #[trigger] self.canon(self.nodes@[i])
                    == #[trigger] self.canon(self.nodes@[j]) implies self.parent@[i] == self.parent@[j] by {
                assert(g1.canon(g1.nodes@[i]) == self.canon(self.nodes@[i]));
                assert(g1.canon(g1.nodes@[j]) == self.canon(self.nodes@[j]));
            }
            assert forall|i: int, j: int|
                0 <= i < old(self).n() && 0 <= j < old(self).n() && old(self).equiv(i, j)
                    implies #[trigger] self.equiv(i, j) by {
                assert(g1.equiv(i, j));
            }
        }
    }
}

/// Node `i` of `g` is the node of some position `k` of `e`, with children replaced by their
/// classes, and `k`'s class is `i`.
pub open spec fn appended_from(g: EGraph, e: Seq<Node>, ids: Seq<usize>, i: int) -> bool {
    exists|k: int| 0 <= k < e.len() && k < ids.len() && ids[k] == i && g.nodes@[i] == #[trigger] with_children(e[k], ids)
}

/// The labelling `q` of identifiers gives equal labels to identifiers of one class of `g`.
pub open spec fn respects(g: EGraph, q: Seq<int>) -> bool {
    forall|i: int, j: int| 0 <= i < g.n() && 0 <= j < g.n() && #[trigger] g.equiv(i, j) ==> q[i] == q[j]
}

/// Nodes `m1` and `m2` are equal once children are replaced by their labels.
pub open spec fn same_shape(m1: Node, m2: Node, q: Seq<int>) -> bool {
    match (m1, m2) {
        (Node::Bin(o1, a1, b1), Node::Bin(o2, a2, b2)) => o1 == o2 && q[a1 as int] == q[a2 as int] && q[b1 as int] == q[b2 as int],
        _ => m1 == m2,
    }
}

/// The labelling is congruence closed over the nodes of `g`.
pub open spec fn label_congruent(g: EGraph, q: Seq<int>) -> bool {
    forall|i: int, j: int|
        0 <= i < g.n() && 0 <= j < g.n() && #[trigger] same_shape(g.nodes@[i], g.nodes@[j], q) ==> q[i] == q[j]
}

/// Every labelling that keeps the classes of `g0` and is congruence closed keeps those of `g1`:
/// `g1` merges nothing that congruence does not force.
pub open spec fn merges_forced(g0: EGraph, g1: EGraph) -> bool {
    forall|q: Seq<int>|
        q.len() == g0.n() && #[trigger] respects(g0, q) && label_congruent(g0, q) ==> respects(g1, q)
}

/// Forced merges compose over graphs with the same nodes.
proof fn lemma_forced_trans(g: EGraph, g0: EGraph, g1: EGraph)
    requires
        g0.nodes@ == g.nodes@,
        merges_forced(g, g0),
        merges_forced(g0, g1),
    ensures
        merges_forced(g, g1),
{
    assert forall|q: Seq<int>| q.len() == g.n() && #[trigger] respects(g, q) && label_congruent(g, q) implies respects(g1, q) by {
        assert(respects(g0, q));
        assert forall|i: int, j: int|
            0 <= i < g0.n() && 0 <= j < g0.n() && #[trigger] same_shape(g0.nodes@[i], g0.nodes@[j], q) implies q[i] == q[j] by {
            assert(same_shape(g.nodes@[i], g.nodes@[j], q));
        }
    }
}

/// Merging two congruent nodes' classes keeps every merge forced.
proof fn lemma_union_forced(g: EGraph, g0: EGraph, g1: EGraph, j: int, i: int)
    requires
        g.wf(),
        g0.wf(),
        g0.nodes@ == g.nodes@,
        0 <= j < g0.n(),
        0 <= i < g0.n(),
        merges_forced(g, g0),
        g0.canon(g0.nodes@[j]) == g0.canon(g0.nodes@[i]),
        EGraph::union_post(g0, j, i, g1),
    ensures
        merges_forced(g, g1),
{
    assert forall|q: Seq<int>| q.len() == g.n() && #[trigger] respects(g, q) && label_congruent(g, q) implies respects(g1, q) by {
        assert(respects(g0, q));
        match (g0.nodes@[j], g0.nodes@[i]) {
            (Node::Bin(o1, a1, b1), Node::Bin(o2, a2, b2)) => {
                assert(g0.nodes@[j].children_below(j));
                assert(g0.nodes@[i].children_below(i));
                assert(g0.equiv(a1 as int, a2 as int));
                assert(g0.equiv(b1 as int, b2 as int));
            },
            _ => {},
        }
        assert(same_shape(g.nodes@[j], g.nodes@[i], q));
        assert(q[j] == q[i]);
        assert forall|x: int, y: int| 0 <= x < g1.n() && 0 <= y < g1.n() && #[trigger] g1.equiv(x, y) implies q[x] == q[y] by {
            assert(g0.parent@[g0.parent@[j] as int] == g0.parent@[j]);
            assert(g0.equiv(j, j));
            if g0.parent@[x] == g0.parent@[i] {
                assert(g0.equiv(x, i));
            }
            if g0.parent@[y] == g0.parent@[i] {
                assert(g0.equiv(y, i));
            }
            if g0.parent@[x] == g0.parent@[j] {
                assert(g0.equiv(x, j));
            }
            if g0.parent@[y] == g0.parent@[j] {
                assert(g0.equiv(y, j));
            }
            if g0.parent@[x] == g0.parent@[y] {
                assert(g0.equiv(x, y));
            }
        }
    }
}

/// The node with each child position `a` replaced by `ids[a]`.
pub open spec fn with_children(n: Node, ids: Seq<usize>) -> Node {
    match n {
        Node::Bin(o, a, b) => Node::Bin(o, ids[a as int], ids[b as int]),
        _ => n,
    }
}

/// A node present in a class stays present after nodes are appended.
proof fn lemma_class_has_grows(g1: EGraph, g2: EGraph, c: int, n: Node)
    requires
        g1.wf(),
        g2.wf(),
        g2.n() >= g1.n(),
        g2.nodes@.subrange(0, g1.n()) == g1.nodes@,
        forall|i: int| 0 <= i < g1.n() ==> #[trigger] g2.parent@[i] == g1.parent@[i],
        0 <= c < g1.n(),
        n.children_below(g1.n()),
        g1.class_has(c, n),
    ensures
        g2.class_has(c, n),
{
    let j = choose|j: int|
        0 <= j < g1.n() && g1.parent@[j] == g1.parent@[c] && #[trigger] g1.canon(g1.nodes@[j]) == g1.canon(n);
    assert(g2.nodes@[j] == g2.nodes@.subrange(0, g1.n())[j]);
    assert(g1.nodes@[j].children_below(j));
    assert(g2.canon(g2.nodes@[j]) == g1.canon(g1.nodes@[j]));
}

/// Adding the same node twice to a congruence-closed graph gives the same class both times,
/// and the second addition changes nothing.
pub proof fn lemma_add_idempotent(g0: EGraph, n: Node, g1: EGraph, r1: usize, g2: EGraph, r2: usize)
    requires
        g0.wf(),
        g0.clean(),
        n.children_below(g0.n()),
        EGraph::add_post(g0, n, g1, r1),
        EGraph::add_post(g1, n, g2, r2),
    ensures
        r1 == r2,
        g2 == g1,
{
    lemma_add_idempotent_in(g1, n, r1, n, g2, r2);
}

/// After `union(a, b)` the two are in one class, and every earlier equivalence still holds.
pub proof fn lemma_union_joins(g0: EGraph, a: int, b: int, g1: EGraph)
    requires
        g0.wf(),
        0 <= a < g0.n(),
        0 <= b < g0.n(),
        EGraph::union_post(g0, a, b, g1),
    ensures
        g1.equiv(a, b),
        forall|i: int, j: int| 0 <= i < g0.n() && 0 <= j < g0.n() && g0.equiv(i, j) ==> #[trigger] g1.equiv(i, j),
{
    assert(g0.parent@[g0.parent@[a] as int] == g0.parent@[a]);
    assert(g1.parent@[a] == g0.parent@[a] || g0.parent@[a] == g0.parent@[b]);
}

/// Chained unions are transitive: after `union(a, b)` then `union(b, c)`, `a` and `c` share a
/// class.
pub proof fn lemma_union_transitive(g0: EGraph, a: int, b: int, c: int, g1: EGraph, g2: EGraph)
    requires
        g0.wf(),
        0 <= a < g0.n(),
        0 <= b < g0.n(),
        0 <= c < g0.n(),
        EGraph::union_post(g0, a, b, g1),
        EGraph::union_post(g1, b, c, g2),
    ensures
        g2.find_spec(a) == g2.find_spec(b),
        g2.find_spec(b) == g2.find_spec(c),
        g2.find_spec(a) == g2.find_spec(c),
{
    lemma_union_joins(g0, a, b, g1);
    lemma_union_joins(g1, b, c, g2);
}

/// In a congruence-closed graph, adding `op(a, b)` and then `op(a2, b2)` where `a ~ a2` and
/// `b ~ b2` gives the same canonical class.
pub proof fn lemma_congruent_add(
    g0: EGraph,
    o: Op,
    a: usize,
    b: usize,
    a2: usize,
    b2: usize,
    g1: EGraph,
    r1: usize,
    g2: EGraph,
    r2: usize,
)
    requires
        g0.wf(),
        g0.clean(),
        a < g0.n() && b < g0.n() && a2 < g0.n() && b2 < g0.n(),
        g0.equiv(a as int, a2 as int),
        g0.equiv(b as int, b2 as int),
        EGraph::add_post(g0, Node::Bin(o, a, b), g1, r1),
        EGraph::add_post(g1, Node::Bin(o, a2, b2), g2, r2),
    ensures
        g2.find_spec(r1 as int) == g2.find_spec(r2 as int),
        r1 == r2,
{
    assert(g1.parent@[a as int] == g0.parent@[a as int]);
    assert(g1.parent@[a2 as int] == g0.parent@[a2 as int]);
    assert(g1.parent@[b as int] == g0.parent@[b as int]);
    assert(g1.parent@[b2 as int] == g0.parent@[b2 as int]);
    assert(g1.canon(Node::Bin(o, a, b)) == g1.canon(Node::Bin(o, a2, b2)));
    lemma_add_idempotent_in(g1, Node::Bin(o, a, b), r1, Node::Bin(o, a2, b2), g2, r2);
}

/// Adding a node equal, up to classes, to one already in a class of a graph at rest returns
/// that class and changes nothing.
proof fn lemma_add_idempotent_in(g1: EGraph, n: Node, r1: usize, n2: Node, g2: EGraph, r2: usize)
    requires
        g1.wf(),
        g1.clean(),
        (r1 as int) < g1.n(),
        g1.parent@[r1 as int] == r1,
        g1.class_has(r1 as int, n),
        g1.canon(n) == g1.canon(n2),
        EGraph::add_post(g1, n2, g2, r2),
    ensures
        r1 == r2,
        g2 == g1,
{
    let j = choose|j: int|
        0 <= j < g1.n() && g1.parent@[j] == g1.parent@[r1 as int] && #[trigger] g1.canon(
            g1.nodes@[j],
        ) == g1.canon(n);
    assert(g1.canon(g1.nodes@[j]) == g1.canon(n2));
    let j2 = choose|j2: int|
        0 <= j2 < g1.n() && #[trigger] g1.canon(g1.nodes@[j2]) == g1.canon(n2) && g1.parent@[j2] == r2;
    assert(g1.canon(g1.nodes@[j]) == g1.canon(g1.nodes@[j2]));
}

} // verus!
