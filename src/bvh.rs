use vstd::prelude::*;

verus! {

/// The ordering keys of one primitive's bounding-box minimum corner, one per
/// axis. Keys compare as the coordinates they stand for.
#[derive(Clone, Copy, Debug, PartialEq, Eq, Structural)]
pub struct BoxKey {
    pub x: u64,
    pub y: u64,
    pub z: u64,
}

impl BoxKey {
    pub open spec fn spec_on(self, axis: int) -> u64 {
        if axis == 0 {
            self.x
        } else if axis == 1 {
            self.y
        } else {
            self.z
        }
    }

    /// The key on `axis` (0 for x, 1 for y, 2 for z).
    pub fn on(&self, axis: usize) -> (r: u64)
        requires
            axis < 3,
        ensures
            r == self.spec_on(axis as int),
    {
        if axis == 0 {
            self.x
        } else if axis == 1 {
            self.y
        } else {
            self.z
        }
    }
}

/// The key of primitive `p` on `axis`.
pub open spec fn key_of(keys: Seq<BoxKey>, p: usize, axis: int) -> u64 {
    keys[p as int].spec_on(axis)
}

/// Every primitive named in `items` has a key.
pub open spec fn all_keyed(keys: Seq<BoxKey>, items: Seq<usize>) -> bool {
    forall|i: int| 0 <= i < items.len() ==> (#[trigger] items[i] as int) < keys.len()
}

/// `items` is ordered by key on `axis`.
pub open spec fn sorted_on(keys: Seq<BoxKey>, items: Seq<usize>, axis: int) -> bool {
    forall|i: int, j: int|
        0 <= i < j < items.len() ==> key_of(keys, #[trigger] items[i], axis) <= key_of(
            keys,
            #[trigger] items[j],
            axis,
        )
}

/// Orders `items` by key on `axis`, keeping equal keys in their given order.
pub fn sort_by_axis(keys: &Vec<BoxKey>, items: &Vec<usize>, axis: usize) -> (r: Vec<usize>)
    requires
        axis < 3,
        all_keyed(keys@, items@),
    ensures
        r@.to_multiset() == items@.to_multiset(),
        sorted_on(keys@, r@, axis as int),
        all_keyed(keys@, r@),
{
    broadcast use vstd::seq_lib::group_to_multiset_ensures;

    let mut out: Vec<usize> = Vec::new();
    let mut i: usize = 0;
    while i < items.len()
        invariant
            axis < 3,
            i <= items.len(),
            all_keyed(keys@, items@),
            all_keyed(keys@, out@),
            sorted_on(keys@, out@, axis as int),
            out@.to_multiset() == items@.subrange(0, i as int).to_multiset(),
        decreases items.len() - i,
    {
        let x = items[i];
        let kx = keys[x].on(axis);
        let mut p: usize = 0;
        while p < out.len() && keys[out[p]].on(axis) <= kx
            invariant
                axis < 3,
                p <= out.len(),
                x < keys.len(),
                kx == key_of(keys@, x, axis as int),
                all_keyed(keys@, out@),
                forall|q: int| 0 <= q < p ==> key_of(keys@, #[trigger] out@[q], axis as int) <= kx,
            decreases out.len() - p,
        {
            p = p + 1;
        }
        proof {
            if p < out.len() {
                assert(key_of(keys@, out@[p as int], axis as int) > kx);
            }
        }
        let ghost before = out@;
        out.insert(p, x);
        proof {
            assert(out@ == before.insert(p as int, x));
            assert forall|a: int, b: int| 0 <= a < b < out@.len() implies key_of(
                keys@,
                #[trigger] out@[a],
                axis as int,
            ) <= key_of(keys@, #[trigger] out@[b], axis as int) by {
                if b < p {
                } else if b == p {
                } else if a < p {
                    assert(key_of(keys@, before[b - 1], axis as int) >= key_of(keys@, before[p as int], axis as int));
                } else if a == p {
                    assert(key_of(keys@, before[b - 1], axis as int) >= key_of(keys@, before[p as int], axis as int));
                } else {
                }
            }
            vstd::seq_lib::to_multiset_insert(before, p as int, x);
            assert(items@.subrange(0, i + 1) == items@.subrange(0, i as int).push(x));
            vstd::seq_lib::to_multiset_build(items@.subrange(0, i as int), x);
        }
        i = i + 1;
    }
    proof {
        assert(items@.subrange(0, i as int) == items@);
    }
    out
}

/// One side of a hierarchy node: a primitive, or another node of the arena.
#[derive(Clone, Copy, Debug, PartialEq, Eq, Structural)]
pub enum Child {
    Prim(usize),
    Node(usize),
}

/// A node of the hierarchy. A node over a single primitive names it on both
/// sides; otherwise the primitives on the left come first along `axis`.
#[derive(Clone, Copy, Debug, PartialEq, Eq, Structural)]
pub struct BvhNode {
    pub left: Child,
    pub right: Child,
    pub axis: usize,
}

/// How each node picks the axis its primitives are ordered along.
#[derive(Clone, Copy, Debug, PartialEq, Eq, Structural)]
pub enum SplitAxis {
    /// A fresh uniformly drawn axis per node.
    Random,
    /// The same axis for every node (0 for x, 1 for y, 2 for z).
    Fixed(usize),
}

impl SplitAxis {
    pub open spec fn wf(self) -> bool {
        match self {
            SplitAxis::Random => true,
            SplitAxis::Fixed(a) => a < 3,
        }
    }
}

/// Every node was split along the axis `split` fixes, if it fixes one.
pub open spec fn axes_follow(nodes: Seq<BvhNode>, split: SplitAxis) -> bool {
    forall|k: int|
        0 <= k < nodes.len() ==> (split matches SplitAxis::Fixed(a) ==> #[trigger] nodes[k].axis == a)
}

/// A child stands for something built before its parent.
pub open spec fn child_ok(c: Child, k: int, prim_count: int) -> bool {
    match c {
        Child::Prim(p) => p < prim_count,
        Child::Node(j) => j < k,
    }
}

/// The primitives under a child of node `below`, left to right.
pub open spec fn child_leaves(nodes: Seq<BvhNode>, c: Child, below: int) -> Seq<usize>
    decreases below, 0int,
{
    match c {
        Child::Prim(p) => seq![p],
        Child::Node(j) => if 0 <= j < below {
            node_leaves(nodes, j as int)
        } else {
            seq![]
        },
    }
}

/// The primitives under node `k`, left to right; a primitive named on both
/// sides of a node counts once.
pub open spec fn node_leaves(nodes: Seq<BvhNode>, k: int) -> Seq<usize>
    decreases k, 1int,
{
    if 0 <= k < nodes.len() {
        let n = nodes[k];
        if n.left == n.right {
            child_leaves(nodes, n.left, k)
        } else {
            child_leaves(nodes, n.left, k) + child_leaves(nodes, n.right, k)
        }
    } else {
        seq![]
    }
}

/// Every key of `l` is at most every key of `r` on `axis`.
pub open spec fn ordered_across(keys: Seq<BoxKey>, l: Seq<usize>, r: Seq<usize>, axis: int) -> bool {
    forall|a: int, b: int|
        0 <= a < l.len() && 0 <= b < r.len() ==> key_of(keys, #[trigger] l[a], axis) <= key_of(
            keys,
            #[trigger] r[b],
            axis,
        )
}

/// Node `k` is well formed: its children were built before it, a node that
/// names the same child twice names a primitive, and any other node splits
/// its primitives at the midpoint of their order along its axis.
pub open spec fn node_ok(keys: Seq<BoxKey>, nodes: Seq<BvhNode>, k: int) -> bool {
    let n = nodes[k];
    let l = child_leaves(nodes, n.left, k);
    let r = child_leaves(nodes, n.right, k);
    &&& child_ok(n.left, k, keys.len() as int)
    &&& child_ok(n.right, k, keys.len() as int)
    &&& n.axis < 3
    &&& n.left == n.right ==> n.left is Prim
    &&& n.left != n.right ==> {
        &&& l.len() == (l.len() + r.len()) / 2
        &&& ordered_across(keys, l, r, n.axis as int)
    }
}

pub open spec fn nodes_ok(keys: Seq<BoxKey>, nodes: Seq<BvhNode>) -> bool {
    forall|k: int| 0 <= k < nodes.len() ==> #[trigger] node_ok(keys, nodes, k)
}

/// What is below a node does not change when nodes are appended.
proof fn lemma_leaves_stable(nodes: Seq<BvhNode>, more: Seq<BvhNode>, k: int)
    requires
        0 <= k < nodes.len() <= more.len(),
        more.subrange(0, nodes.len() as int) == nodes,
    ensures
        node_leaves(more, k) == node_leaves(nodes, k),
        child_leaves(more, nodes[k].left, k) == child_leaves(nodes, nodes[k].left, k),
        child_leaves(more, nodes[k].right, k) == child_leaves(nodes, nodes[k].right, k),
    decreases k,
{
    assert(more[k] == nodes[k]);
    if let Child::Node(j) = nodes[k].left {
        if 0 <= j < k {
            lemma_leaves_stable(nodes, more, j as int);
        }
    }
    if let Child::Node(j) = nodes[k].right {
        if 0 <= j < k {
            lemma_leaves_stable(nodes, more, j as int);
        }
    }
}

/// Well-formed nodes stay so when nodes are appended.
proof fn lemma_nodes_ok_stable(keys: Seq<BoxKey>, nodes: Seq<BvhNode>, more: Seq<BvhNode>)
    requires
        nodes_ok(keys, nodes),
        nodes.len() <= more.len(),
        more.subrange(0, nodes.len() as int) == nodes,
    ensures
        forall|k: int| 0 <= k < nodes.len() ==> #[trigger] node_ok(keys, more, k),
{
    assert forall|k: int| 0 <= k < nodes.len() implies #[trigger] node_ok(keys, more, k) by {
        lemma_leaves_stable(nodes, more, k);
        assert(node_ok(keys, nodes, k));
        assert(more[k] == nodes[k]);
    }
}

/// Two halves of a sorted sequence, however rearranged, stay ordered across.
proof fn lemma_halves_ordered(
    keys: Seq<BoxKey>,
    sorted: Seq<usize>,
    mid: int,
    axis: int,
    l: Seq<usize>,
    r: Seq<usize>,
)
    requires
        sorted_on(keys, sorted, axis),
        0 <= mid <= sorted.len(),
        l.to_multiset() == sorted.subrange(0, mid).to_multiset(),
        r.to_multiset() == sorted.subrange(mid, sorted.len() as int).to_multiset(),
    ensures
        ordered_across(keys, l, r, axis),
{
    broadcast use vstd::seq_lib::group_to_multiset_ensures;

    assert forall|a: int, b: int| 0 <= a < l.len() && 0 <= b < r.len() implies key_of(
        keys,
        #[trigger] l[a],
        axis,
    ) <= key_of(keys, #[trigger] r[b], axis) by {
        assert(l.contains(l[a]));
        assert(l.to_multiset().count(l[a]) > 0);
        assert(sorted.subrange(0, mid).contains(l[a]));
        let i = choose|i: int| 0 <= i < mid && sorted.subrange(0, mid)[i] == l[a];
        assert(r.contains(r[b]));
        assert(r.to_multiset().count(r[b]) > 0);
        assert(sorted.subrange(mid, sorted.len() as int).contains(r[b]));
        let j = choose|j: int|
            0 <= j < sorted.len() - mid && sorted.subrange(mid, sorted.len() as int)[j] == r[b];
        assert(sorted[i] == l[a]);
        assert(sorted[mid + j] == r[b]);
    }
}

/// The entries of `v` from `lo` up to `hi`.
fn copy_range(v: &Vec<usize>, lo: usize, hi: usize) -> (r: Vec<usize>)
    requires
        lo <= hi <= v.len(),
    ensures
        r@ == v@.subrange(lo as int, hi as int),
{
    let mut out: Vec<usize> = Vec::new();
    let mut i: usize = lo;
    while i < hi
        invariant
            lo <= i <= hi <= v.len(),
            out@ == v@.subrange(lo as int, i as int),
        decreases hi - i,
    {
        out.push(v[i]);
        i = i + 1;
    }
    out
}

/// Relies on rand::Rng::gen_range over rand::thread_rng: the value drawn from
/// `0..3` lies in that range.
#[verifier::external_body]
fn random_axis() -> (r: usize)
    ensures
        r < 3,
{
    rand::Rng::gen_range(&mut rand::thread_rng(), 0..3usize)
}

/// Builds the subtree over `items`, appending its nodes to `nodes`, and
/// returns the index of its root.
fn build_node(keys: &Vec<BoxKey>, items: Vec<usize>, split: SplitAxis, nodes: &mut Vec<BvhNode>) -> (r: usize)
    requires
        items.len() >= 1,
        items@.no_duplicates(),
        split.wf(),
        all_keyed(keys@, items@),
        nodes_ok(keys@, old(nodes)@),
        axes_follow(old(nodes)@, split),
    ensures
        axes_follow(final(nodes)@, split),
        old(nodes).len() <= r < final(nodes).len(),
        final(nodes)@.subrange(0, old(nodes).len() as int) == old(nodes)@,
        nodes_ok(keys@, final(nodes)@),
        node_leaves(final(nodes)@, r as int).to_multiset() == items@.to_multiset(),
    decreases items.len(),
{
    broadcast use vstd::seq_lib::group_to_multiset_ensures;

    let axis = match split {
        SplitAxis::Random => random_axis(),
        SplitAxis::Fixed(a) => a,
    };
    let n = items.len();
    let ghost start = nodes@;
    let node = if n == 1 {
        BvhNode { left: Child::Prim(items[0]), right: Child::Prim(items[0]), axis }
    } else if n == 2 {
        let a = items[0];
        let b = items[1];
        if keys[a].on(axis) < keys[b].on(axis) {
            BvhNode { left: Child::Prim(a), right: Child::Prim(b), axis }
        } else {
            BvhNode { left: Child::Prim(b), right: Child::Prim(a), axis }
        }
    } else {
        let sorted = sort_by_axis(keys, &items, axis);
        let mid = n / 2;
        proof {
            assert(sorted@.len() == sorted@.to_multiset().len());
            assert(items@.len() == items@.to_multiset().len());
        }
        let lo = copy_range(&sorted, 0, mid);
        let hi = copy_range(&sorted, mid, n);
        proof {
            assert(sorted@ == lo@ + hi@);
            items@.lemma_multiset_has_no_duplicates();
            sorted@.lemma_multiset_has_no_duplicates_conv();
            assert(lo@.no_duplicates());
            assert(hi@.no_duplicates());
            assert(all_keyed(keys@, lo@));
            assert(all_keyed(keys@, hi@));
        }
        let l = build_node(keys, lo, split, nodes);
        let ghost after_left = nodes@;
        let r = build_node(keys, hi, split, nodes);
        proof {
            lemma_leaves_stable(after_left, nodes@, l as int);
            lemma_halves_ordered(
                keys@,
                sorted@,
                mid as int,
                axis as int,
                node_leaves(nodes@, l as int),
                node_leaves(nodes@, r as int),
            );
            vstd::seq_lib::lemma_multiset_commutative(lo@, hi@);
            vstd::seq_lib::lemma_multiset_commutative(
                node_leaves(nodes@, l as int),
                node_leaves(nodes@, r as int),
            );
            assert(nodes@.subrange(0, start.len() as int) == start);
        }
        BvhNode { left: Child::Node(l), right: Child::Node(r), axis }
    };
    let ghost before = nodes@;
    let idx = nodes.len();
    nodes.push(node);
    proof {
        assert(nodes@.subrange(0, before.len() as int) =~= before);
        lemma_nodes_ok_stable(keys@, before, nodes@);
        assert(nodes@[idx as int] == node);
        assert forall|k: int| 0 <= k < before.len() implies nodes@[k] == before[k] by {
            assert(nodes@.subrange(0, before.len() as int)[k] == nodes@[k]);
        }
        if n == 1 {
            assert(items@ == seq![items@[0]]);
            assert(node_leaves(nodes@, idx as int) == seq![items@[0]]);
        } else if n == 2 {
            assert(items@ == seq![items@[0]] + seq![items@[1]]);
            assert(items@[0] != items@[1]);
            assert(node_leaves(nodes@, idx as int) == child_leaves(nodes@, node.left, idx as int)
                + child_leaves(nodes@, node.right, idx as int));
            vstd::seq_lib::lemma_multiset_commutative(seq![items@[0]], seq![items@[1]]);
            vstd::seq_lib::lemma_multiset_commutative(seq![items@[1]], seq![items@[0]]);
        } else {
            if let Child::Node(l) = node.left {
                lemma_leaves_stable(before, nodes@, l as int);
            }
            if let Child::Node(r) = node.right {
                lemma_leaves_stable(before, nodes@, r as int);
            }
            assert(node_leaves(nodes@, idx as int) == child_leaves(nodes@, node.left, idx as int)
                + child_leaves(nodes@, node.right, idx as int));
        }
        assert(node_ok(keys@, nodes@, idx as int));
        assert(nodes@.subrange(0, before.len() as int) == before);
        assert(nodes@.subrange(0, start.len() as int) == start);
    }
    idx
}

/// The primitives `0..count`, in order.
pub open spec fn all_prims(count: nat) -> Seq<usize> {
    Seq::new(count, |i: int| i as usize)
}

/// A bounding volume hierarchy over primitives `0..keys.len()`, held as an
/// arena in which every node comes after its children.
pub struct Bvh {
    pub keys: Vec<BoxKey>,
    pub nodes: Vec<BvhNode>,
    pub root: usize,
}

impl Bvh {
    /// Each node is well formed, and the root covers every primitive once.
    pub open spec fn wf(&self) -> bool {
        &&& nodes_ok(self.keys@, self.nodes@)
        &&& self.root < self.nodes.len()
        &&& node_leaves(self.nodes@, self.root as int).to_multiset() == all_prims(
            self.keys.len() as nat,
        ).to_multiset()
    }

    /// Builds the hierarchy over one key per primitive: each node orders its
    /// primitives along its axis and hands the lower half to the left. There
    /// is none over no primitive.
    pub fn new(keys: Vec<BoxKey>, split: SplitAxis) -> (r: Option<Bvh>)
        requires
            split.wf(),
        ensures
            r is None <==> keys.len() == 0,
            r matches Some(t) ==> t.wf() && t.keys@ == keys@ && axes_follow(t.nodes@, split),
    {
        if keys.len() == 0 {
            return None;
        }
        let mut items: Vec<usize> = Vec::new();
        let mut i: usize = 0;
        while i < keys.len()
            invariant
                i <= keys.len(),
                items@ == all_prims(i as nat),
            decreases keys.len() - i,
        {
            items.push(i);
            i = i + 1;
            proof {
                assert(items@ =~= all_prims(i as nat));
            }
        }
        proof {
            assert(all_keyed(keys@, items@));
            assert(items@.no_duplicates());
        }
        let mut nodes: Vec<BvhNode> = Vec::new();
        let root = build_node(&keys, items, split, &mut nodes);
        Some(Bvh { keys, nodes, root })
    }

    /// The number of primitives the hierarchy covers.
    pub fn prim_count(&self) -> (r: usize)
        ensures
            r == self.keys.len(),
    {
        self.keys.len()
    }
}

} // verus!
