use vstd::prelude::*;
use crate::bvh::{Bvh, BvhNode, Child, node_leaves, child_leaves, all_prims};

verus! {

/// A hit: which primitive, and its hit parameter as an ordering key
/// (smaller is nearer).
#[derive(Clone, Copy, Debug, PartialEq, Eq, Structural)]
pub struct Hit {
    pub prim: usize,
    pub t: u64,
}

/// A candidate counts as a hit only up to the current bound.
pub open spec fn within(c: Option<u64>, bound: u64) -> Option<u64> {
    match c {
        Some(t) => if t <= bound {
            Some(t)
        } else {
            None
        },
        None => None,
    }
}

/// The result of testing one child of node `below` up to `bound`.
pub open spec fn child_hit(
    nodes: Seq<BvhNode>,
    c: Child,
    below: int,
    bound: u64,
    cand: spec_fn(usize) -> Option<u64>,
    boxes: spec_fn(usize, u64) -> bool,
) -> Option<Hit>
    decreases below, 0int,
{
    match c {
        Child::Prim(p) => match within(cand(p), bound) {
            Some(t) => Some(Hit { prim: p, t }),
            None => None,
        },
        Child::Node(j) => if 0 <= j < below {
            node_hit(nodes, j as int, bound, cand, boxes)
        } else {
            None
        },
    }
}

/// The hierarchy search from node `k`: give up if the ray misses the box,
/// else test the left child, then the right one up to the left's hit.
pub open spec fn node_hit(
    nodes: Seq<BvhNode>,
    k: int,
    bound: u64,
    cand: spec_fn(usize) -> Option<u64>,
    boxes: spec_fn(usize, u64) -> bool,
) -> Option<Hit>
    decreases k, 1int,
{
    if 0 <= k < nodes.len() && boxes(k as usize, bound) {
        let n = nodes[k];
        let l = child_hit(nodes, n.left, k, bound, cand, boxes);
        let b2 = match l {
            Some(h) => h.t,
            None => bound,
        };
        let r = child_hit(nodes, n.right, k, b2, cand, boxes);
        if r is Some {
            r
        } else {
            l
        }
    } else {
        None
    }
}

/// The linear search over `prims` in order, each tested up to the closest
/// hit so far.
pub open spec fn scan_hit(prims: Seq<usize>, bound: u64, cand: spec_fn(usize) -> Option<u64>) -> Option<Hit>
    decreases prims.len(),
{
    if prims.len() == 0 {
        None
    } else {
        let prev = scan_hit(prims.drop_last(), bound, cand);
        let b2 = match prev {
            Some(h) => h.t,
            None => bound,
        };
        match within(cand(prims.last()), b2) {
            Some(t) => Some(Hit { prim: prims.last(), t }),
            None => prev,
        }
    }
}

/// `r` is a nearest hit among `prims` up to `bound`, and there is one
/// exactly when some primitive of `prims` is hit.
pub open spec fn is_closest(
    prims: Seq<usize>,
    bound: u64,
    cand: spec_fn(usize) -> Option<u64>,
    r: Option<Hit>,
) -> bool {
    match r {
        None => forall|i: int| 0 <= i < prims.len() ==> within(cand(#[trigger] prims[i]), bound) is None,
        Some(h) => {
            &&& prims.contains(h.prim)
            &&& within(cand(h.prim), bound) == Some(h.t)
            &&& forall|i: int|
                0 <= i < prims.len() ==> (within(cand(#[trigger] prims[i]), bound) matches Some(t)
                    ==> h.t <= t)
        },
    }
}

/// A box that the ray misses holds no primitive that it hits.
pub open spec fn boxes_sound(
    nodes: Seq<BvhNode>,
    cand: spec_fn(usize) -> Option<u64>,
    boxes: spec_fn(usize, u64) -> bool,
) -> bool {
    forall|k: int, b: u64, i: int|
        0 <= k < nodes.len() && !#[trigger] boxes(k as usize, b) && 0 <= i < node_leaves(nodes, k).len()
            ==> within(cand(#[trigger] node_leaves(nodes, k)[i]), b) is None
}

/// The linear search finds a nearest hit.
proof fn lemma_scan_closest(prims: Seq<usize>, bound: u64, cand: spec_fn(usize) -> Option<u64>)
    ensures
        is_closest(prims, bound, cand, scan_hit(prims, bound, cand)),
    decreases prims.len(),
{
    if prims.len() > 0 {
        let init = prims.drop_last();
        lemma_scan_closest(init, bound, cand);
        let prev = scan_hit(init, bound, cand);
        let r = scan_hit(prims, bound, cand);
        assert forall|i: int| 0 <= i < init.len() implies prims[i] == #[trigger] init[i] by {}
        match r {
            Some(h) => {
                if h.prim == prims.last() && within(cand(prims.last()), match prev { Some(q) => q.t, None => bound }) is Some {
                    assert(prims.contains(h.prim)) by {
                        assert(prims[prims.len() - 1] == h.prim);
                    }
                } else {
                    let q = prev.unwrap();
                    assert(init.contains(q.prim));
                    let j = choose|j: int| 0 <= j < init.len() && init[j] == q.prim;
                    assert(prims[j] == q.prim);
                }
                assert forall|i: int|
                    0 <= i < prims.len() implies (within(cand(#[trigger] prims[i]), bound) matches Some(t)
                        ==> h.t <= t) by {
                    if i < init.len() {
                        assert(init[i] == prims[i]);
                    }
                }
            },
            None => {
                assert forall|i: int| 0 <= i < prims.len() implies within(
                    cand(#[trigger] prims[i]),
                    bound,
                ) is None by {
                    if i < init.len() {
                        assert(init[i] == prims[i]);
                    }
                }
            },
        }
    }
}

proof fn lemma_child_closest(
    nodes: Seq<BvhNode>,
    c: Child,
    below: int,
    bound: u64,
    cand: spec_fn(usize) -> Option<u64>,
    boxes: spec_fn(usize, u64) -> bool,
)
    requires
        boxes_sound(nodes, cand, boxes),
    ensures
        is_closest(child_leaves(nodes, c, below), bound, cand, child_hit(nodes, c, below, bound, cand, boxes)),
    decreases below, 0int,
{
    match c {
        Child::Prim(p) => {
            assert(child_leaves(nodes, c, below)[0] == p);
            assert(child_leaves(nodes, c, below).contains(p));
        },
        Child::Node(j) => {
            if 0 <= j < below {
                lemma_node_closest(nodes, j as int, bound, cand, boxes);
            }
        },
    }
}

/// The hierarchy search from node `k` finds a nearest hit among the
/// primitives below `k`.
proof fn lemma_node_closest(
    nodes: Seq<BvhNode>,
    k: int,
    bound: u64,
    cand: spec_fn(usize) -> Option<u64>,
    boxes: spec_fn(usize, u64) -> bool,
)
    requires
        boxes_sound(nodes, cand, boxes),
    ensures
        is_closest(node_leaves(nodes, k), bound, cand, node_hit(nodes, k, bound, cand, boxes)),
    decreases k, 1int,
{
    let leaves = node_leaves(nodes, k);
    let res = node_hit(nodes, k, bound, cand, boxes);
    if 0 <= k < nodes.len() {
        if !boxes(k as usize, bound) {
            assert forall|i: int| 0 <= i < leaves.len() implies within(cand(#[trigger] leaves[i]), bound) is None by {
                assert(within(cand(node_leaves(nodes, k)[i]), bound) is None);
            }
        } else {
            let n = nodes[k];
            let ls = child_leaves(nodes, n.left, k);
            let rs = child_leaves(nodes, n.right, k);
            let l = child_hit(nodes, n.left, k, bound, cand, boxes);
            let b2 = match l {
                Some(h) => h.t,
                None => bound,
            };
            let r = child_hit(nodes, n.right, k, b2, cand, boxes);
            lemma_child_closest(nodes, n.left, k, bound, cand, boxes);
            lemma_child_closest(nodes, n.right, k, b2, cand, boxes);
            assert(b2 <= bound);
            // Every leaf is a leaf of one side.
            assert forall|i: int| 0 <= i < leaves.len() implies
                (exists|a: int| 0 <= a < ls.len() && ls[a] == #[trigger] leaves[i])
                || (exists|b: int| 0 <= b < rs.len() && rs[b] == leaves[i]) by {
                if n.left == n.right {
                    assert(ls[i] == leaves[i]);
                } else if i < ls.len() {
                    assert(ls[i] == leaves[i]);
                } else {
                    assert(rs[i - ls.len()] == leaves[i]);
                }
            }
            // Both sides are leaves.
            assert forall|a: int| 0 <= a < ls.len() implies leaves.contains(#[trigger] ls[a]) by {
                if n.left == n.right {
                    assert(leaves[a] == ls[a]);
                } else {
                    assert(leaves[a] == ls[a]);
                }
            }
            assert forall|b: int| 0 <= b < rs.len() implies leaves.contains(#[trigger] rs[b]) by {
                if n.left == n.right {
                    assert(leaves[b] == rs[b]);
                } else {
                    assert(leaves[ls.len() + b] == rs[b]);
                }
            }
            match res {
                None => {
                    assert forall|i: int| 0 <= i < leaves.len() implies within(cand(#[trigger] leaves[i]), bound) is None by {
                        if exists|a: int| 0 <= a < ls.len() && ls[a] == leaves[i] {
                            let a = choose|a: int| 0 <= a < ls.len() && ls[a] == leaves[i];
                            assert(within(cand(ls[a]), bound) is None);
                        } else {
                            let b = choose|b: int| 0 <= b < rs.len() && rs[b] == leaves[i];
                            assert(within(cand(rs[b]), b2) is None);
                        }
                    }
                },
                Some(h) => {
                    if r is Some {
                        let rb = choose|b: int| 0 <= b < rs.len() && rs[b] == h.prim;
                        assert(leaves.contains(rs[rb]));
                    } else {
                        let la = choose|a: int| 0 <= a < ls.len() && ls[a] == h.prim;
                        assert(leaves.contains(ls[la]));
                    }
                    assert forall|i: int| 0 <= i < leaves.len() implies (within(cand(#[trigger] leaves[i]), bound) matches Some(t) ==> h.t <= t) by {
                        if within(cand(leaves[i]), bound) is Some {
                            if exists|a: int| 0 <= a < ls.len() && ls[a] == leaves[i] {
                                let a = choose|a: int| 0 <= a < ls.len() && ls[a] == leaves[i];
                                assert(within(cand(ls[a]), bound) is Some);
                            } else {
                                let b = choose|b: int| 0 <= b < rs.len() && rs[b] == leaves[i];
                                assert(within(cand(rs[b]), bound) is Some);
                            }
                        }
                    }
                },
            }
        }
    }
}

/// The hierarchy search and the linear search over the primitives in their
/// given order agree: both find a hit or neither does, and then at the same
/// nearest hit parameter, which the primitive each names has. This holds for
/// any answers of the geometry in which a missed box holds no hit.
pub proof fn lemma_hierarchy_matches_scan(
    bvh: &Bvh,
    bound: u64,
    cand: spec_fn(usize) -> Option<u64>,
    boxes: spec_fn(usize, u64) -> bool,
)
    requires
        bvh.wf(),
        boxes_sound(bvh.nodes@, cand, boxes),
    ensures
        ({
            let tree = node_hit(bvh.nodes@, bvh.root as int, bound, cand, boxes);
            let scan = scan_hit(all_prims(bvh.keys.len() as nat), bound, cand);
            &&& tree is Some <==> scan is Some
            &&& tree matches Some(a) ==> scan matches Some(b) && a.t == b.t
                && within(cand(a.prim), bound) == Some(a.t)
                && within(cand(b.prim), bound) == Some(b.t)
        }),
{
    broadcast use vstd::seq_lib::group_to_multiset_ensures;

    let leaves = node_leaves(bvh.nodes@, bvh.root as int);
    let prims = all_prims(bvh.keys.len() as nat);
    let tree = node_hit(bvh.nodes@, bvh.root as int, bound, cand, boxes);
    let scan = scan_hit(prims, bound, cand);
    lemma_node_closest(bvh.nodes@, bvh.root as int, bound, cand, boxes);
    lemma_scan_closest(prims, bound, cand);
    assert forall|x: usize| leaves.contains(x) <==> prims.contains(x) by {
        assert(leaves.contains(x) <==> leaves.to_multiset().count(x) > 0);
        assert(prims.contains(x) <==> prims.to_multiset().count(x) > 0);
    }
    match tree {
        Some(a) => {
            assert(prims.contains(a.prim));
            let i = choose|i: int| 0 <= i < prims.len() && prims[i] == a.prim;
            assert(within(cand(prims[i]), bound) is Some);
            let b = scan.unwrap();
            assert(leaves.contains(b.prim));
            let j = choose|j: int| 0 <= j < leaves.len() && leaves[j] == b.prim;
            assert(within(cand(leaves[j]), bound) is Some);
        },
        None => {
            if scan is Some {
                let b = scan.unwrap();
                assert(leaves.contains(b.prim));
                let j = choose|j: int| 0 <= j < leaves.len() && leaves[j] == b.prim;
                assert(within(cand(leaves[j]), bound) is Some);
            }
        },
    }
}

/// The answers of a geometry query, taken as the functions they are: a
/// query asked again gets the same answer.
pub open spec fn deterministic<C: Fn(usize) -> Option<u64>, B: Fn(usize, u64) -> bool>(
    candidate: C,
    meets_box: B,
) -> bool {
    &&& forall|p: usize| candidate.requires((p,))
    &&& forall|k: usize, b: u64| meets_box.requires((k, b))
    &&& forall|p: usize, x: Option<u64>, y: Option<u64>|
        candidate.ensures((p,), x) && candidate.ensures((p,), y) ==> x == y
    &&& forall|k: usize, b: u64, x: bool, y: bool|
        meets_box.ensures((k, b), x) && meets_box.ensures((k, b), y) ==> x == y
}

/// The candidate function that `candidate` computes.
pub open spec fn cand_of<C: Fn(usize) -> Option<u64>>(candidate: C) -> spec_fn(usize) -> Option<u64> {
    |p: usize| choose|r: Option<u64>| candidate.ensures((p,), r)
}

/// The box function that `meets_box` computes.
pub open spec fn box_of<B: Fn(usize, u64) -> bool>(meets_box: B) -> spec_fn(usize, u64) -> bool {
    |k: usize, b: u64| choose|r: bool| meets_box.ensures((k, b), r)
}

impl Bvh {
    /// The nearest hit up to `bound`, searching the hierarchy from its root:
    /// a node whose box the ray misses is skipped, and the right child of a
    /// node is searched only up to the left child's hit. `candidate` gives a
    /// primitive's nearest hit parameter at or beyond the ray's lower limit;
    /// `meets_box` whether the ray meets a node's box below a bound.
    pub fn closest_hit<C: Fn(usize) -> Option<u64>, B: Fn(usize, u64) -> bool>(
        &self,
        candidate: &C,
        meets_box: &B,
        bound: u64,
    ) -> (r: Option<Hit>)
        requires
            self.wf(),
            deterministic(*candidate, *meets_box),
        ensures
            r == node_hit(self.nodes@, self.root as int, bound, cand_of(*candidate), box_of(*meets_box)),
            r matches Some(h) ==> h.prim < self.keys.len() && h.t <= bound,
    {
        self.hit_node(candidate, meets_box, self.root, bound)
    }

    fn hit_node<C: Fn(usize) -> Option<u64>, B: Fn(usize, u64) -> bool>(
        &self,
        candidate: &C,
        meets_box: &B,
        k: usize,
        bound: u64,
    ) -> (r: Option<Hit>)
        requires
            self.wf(),
            k < self.nodes.len(),
            deterministic(*candidate, *meets_box),
        ensures
            r == node_hit(self.nodes@, k as int, bound, cand_of(*candidate), box_of(*meets_box)),
            r matches Some(h) ==> h.prim < self.keys.len() && h.t <= bound,
        decreases k, 1int,
    {
        let met = meets_box(k, bound);
        proof {
            assert(box_of(*meets_box)(k, bound) == met);
        }
        if !met {
            return None;
        }
        let n = self.nodes[k];
        assert(crate::bvh::node_ok(self.keys@, self.nodes@, k as int));
        let l = self.hit_child(candidate, meets_box, n.left, k, bound);
        let b2 = match l {
            Some(h) => h.t,
            None => bound,
        };
        let r = self.hit_child(candidate, meets_box, n.right, k, b2);
        if r.is_some() {
            r
        } else {
            l
        }
    }

    fn hit_child<C: Fn(usize) -> Option<u64>, B: Fn(usize, u64) -> bool>(
        &self,
        candidate: &C,
        meets_box: &B,
        c: Child,
        below: usize,
        bound: u64,
    ) -> (r: Option<Hit>)
        requires
            self.wf(),
            below < self.nodes.len(),
            crate::bvh::child_ok(c, below as int, self.keys.len() as int),
            deterministic(*candidate, *meets_box),
        ensures
            r == child_hit(self.nodes@, c, below as int, bound, cand_of(*candidate), box_of(*meets_box)),
            r matches Some(h) ==> h.prim < self.keys.len() && h.t <= bound,
        decreases below, 0int,
    {
        match c {
            Child::Prim(p) => hit_prim(candidate, p, bound),
            Child::Node(j) => self.hit_node(candidate, meets_box, j, bound),
        }
    }
}

/// Tests one primitive: its candidate counts up to `bound`.
fn hit_prim<C: Fn(usize) -> Option<u64>>(candidate: &C, p: usize, bound: u64) -> (r: Option<Hit>)
    requires
        forall|q: usize| candidate.requires((q,)),
        forall|q: usize, x: Option<u64>, y: Option<u64>|
            candidate.ensures((q,), x) && candidate.ensures((q,), y) ==> x == y,
    ensures
        r == (match within(cand_of(*candidate)(p), bound) {
            Some(t) => Some(Hit { prim: p, t }),
            None => None,
        }),
        r matches Some(h) ==> h.prim == p && h.t <= bound,
{
    let c = candidate(p);
    proof {
        assert(cand_of(*candidate)(p) == c);
    }
    match c {
        Some(t) => if t <= bound {
            Some(Hit { prim: p, t })
        } else {
            None
        },
        None => None,
    }
}

/// The nearest hit up to `bound` among primitives `0..count`, testing each
/// in order up to the closest hit found before it.
pub fn scan_closest<C: Fn(usize) -> Option<u64>>(candidate: &C, count: usize, bound: u64) -> (r: Option<Hit>)
    requires
        forall|q: usize| candidate.requires((q,)),
        forall|q: usize, x: Option<u64>, y: Option<u64>|
            candidate.ensures((q,), x) && candidate.ensures((q,), y) ==> x == y,
    ensures
        r == scan_hit(all_prims(count as nat), bound, cand_of(*candidate)),
        r matches Some(h) ==> h.prim < count && h.t <= bound,
{
    let mut best: Option<Hit> = None;
    let mut i: usize = 0;
    while i < count
        invariant
            i <= count,
            forall|q: usize| candidate.requires((q,)),
            forall|q: usize, x: Option<u64>, y: Option<u64>|
                candidate.ensures((q,), x) && candidate.ensures((q,), y) ==> x == y,
            best == scan_hit(all_prims(i as nat), bound, cand_of(*candidate)),
            best matches Some(h) ==> h.prim < i && h.t <= bound,
        decreases count - i,
    {
        let b2 = match best {
            Some(h) => h.t,
            None => bound,
        };
        let found = hit_prim(candidate, i, b2);
        if found.is_some() {
            best = found;
        }
        proof {
            let next = all_prims((i + 1) as nat);
            assert(next.drop_last() =~= all_prims(i as nat));
            assert(next.last() == i);
        }
        i = i + 1;
    }
    best
}

} // verus!
