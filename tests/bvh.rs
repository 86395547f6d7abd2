use pathtrace::bvh::{sort_by_axis, BoxKey, Bvh, BvhNode, Child, SplitAxis};
use pathtrace::traverse::{scan_closest, Hit};
use rand::rngs::StdRng;
use rand::{Rng, SeedableRng};

fn key(x: u64, y: u64, z: u64) -> BoxKey {
    BoxKey { x, y, z }
}

fn leaves_of_child(bvh: &Bvh, c: Child, out: &mut Vec<usize>) {
    match c {
        Child::Prim(p) => out.push(p),
        Child::Node(j) => leaves_of_node(bvh, j, out),
    }
}

fn leaves_of_node(bvh: &Bvh, k: usize, out: &mut Vec<usize>) {
    let n: BvhNode = bvh.nodes[k];
    if n.left == n.right {
        leaves_of_child(bvh, n.left, out);
    } else {
        leaves_of_child(bvh, n.left, out);
        leaves_of_child(bvh, n.right, out);
    }
}

fn leaves(bvh: &Bvh, k: usize) -> Vec<usize> {
    let mut out = Vec::new();
    leaves_of_node(bvh, k, &mut out);
    out
}

/// The nearest candidate under each node: a box is met below a bound
/// exactly when some primitive under it has a candidate up to that bound.
fn nearest_under(bvh: &Bvh, cands: &[Option<u64>]) -> Vec<Option<u64>> {
    (0..bvh.nodes.len())
        .map(|k| leaves(bvh, k).iter().filter_map(|&p| cands[p]).min())
        .collect()
}

fn meets(nearest: &[Option<u64>], node: usize, bound: u64) -> bool {
    matches!(nearest[node], Some(t) if t <= bound)
}

#[test]
fn empty_input_builds_nothing() {
    assert!(Bvh::new(Vec::new(), SplitAxis::Fixed(0)).is_none());
}

#[test]
fn single_primitive_is_aliased_on_both_sides() {
    let bvh = Bvh::new(vec![key(5, 5, 5)], SplitAxis::Fixed(1)).unwrap();
    assert_eq!(bvh.nodes.len(), 1);
    let root = bvh.nodes[bvh.root];
    assert_eq!(root.left, Child::Prim(0));
    assert_eq!(root.right, Child::Prim(0));
    assert_eq!(root.axis, 1);
}

#[test]
fn two_primitives_are_ordered_by_key() {
    let bvh = Bvh::new(vec![key(9, 0, 0), key(3, 0, 0)], SplitAxis::Fixed(0)).unwrap();
    let root = bvh.nodes[bvh.root];
    assert_eq!(root.left, Child::Prim(1));
    assert_eq!(root.right, Child::Prim(0));
    let bvh = Bvh::new(vec![key(0, 1, 0), key(0, 2, 0)], SplitAxis::Fixed(1)).unwrap();
    let root = bvh.nodes[bvh.root];
    assert_eq!(root.left, Child::Prim(0));
    assert_eq!(root.right, Child::Prim(1));
}

#[test]
fn two_equal_keys_swap_order() {
    let bvh = Bvh::new(vec![key(4, 0, 0), key(4, 0, 0)], SplitAxis::Fixed(0)).unwrap();
    let root = bvh.nodes[bvh.root];
    assert_eq!(root.left, Child::Prim(1));
    assert_eq!(root.right, Child::Prim(0));
}

#[test]
fn larger_sets_split_sorted_at_midpoint() {
    let keys = vec![key(50, 0, 0), key(10, 0, 0), key(40, 0, 0), key(20, 0, 0), key(30, 0, 0)];
    let bvh = Bvh::new(keys, SplitAxis::Fixed(0)).unwrap();
    assert_eq!(leaves(&bvh, bvh.root), vec![1, 3, 4, 2, 0]);
    let root = bvh.nodes[bvh.root];
    let (l, r) = match (root.left, root.right) {
        (Child::Node(l), Child::Node(r)) => (l, r),
        _ => panic!("five primitives split into two nodes"),
    };
    assert_eq!(leaves(&bvh, l), vec![1, 3]);
    assert_eq!(leaves(&bvh, r), vec![4, 2, 0]);
    assert!(bvh.nodes.iter().all(|n| n.axis == 0));
}

#[test]
fn three_primitives_make_a_leaf_node_on_the_left() {
    let keys = vec![key(0, 0, 7), key(0, 0, 1), key(0, 0, 4)];
    let bvh = Bvh::new(keys, SplitAxis::Fixed(2)).unwrap();
    let root = bvh.nodes[bvh.root];
    match root.left {
        Child::Node(l) => {
            assert_eq!(bvh.nodes[l].left, Child::Prim(1));
            assert_eq!(bvh.nodes[l].right, Child::Prim(1));
        }
        _ => panic!("left child is a node"),
    }
    assert_eq!(leaves(&bvh, bvh.root), vec![1, 2, 0]);
}

#[test]
fn random_axes_cover_every_primitive_once() {
    let mut rng = StdRng::seed_from_u64(7);
    let keys: Vec<BoxKey> = (0..200)
        .map(|_| key(rng.gen_range(0..1000), rng.gen_range(0..1000), rng.gen_range(0..1000)))
        .collect();
    let bvh = Bvh::new(keys, SplitAxis::Random).unwrap();
    assert_eq!(bvh.prim_count(), 200);
    let mut all = leaves(&bvh, bvh.root);
    all.sort();
    assert_eq!(all, (0..200).collect::<Vec<usize>>());
    assert!(bvh.nodes.iter().all(|n| n.axis < 3));
}

#[test]
fn hierarchy_search_matches_linear_scan() {
    let mut rng = StdRng::seed_from_u64(42);
    for trial in 0..1000 {
        let n: usize = rng.gen_range(1..40);
        let keys: Vec<BoxKey> = (0..n)
            .map(|_| key(rng.gen_range(0..100), rng.gen_range(0..100), rng.gen_range(0..100)))
            .collect();
        let split = if trial % 2 == 0 { SplitAxis::Random } else { SplitAxis::Fixed(trial % 3) };
        let bvh = Bvh::new(keys, split).unwrap();
        let cands: Vec<Option<u64>> = (0..n)
            .map(|_| if rng.gen_bool(0.6) { Some(rng.gen_range(0..50)) } else { None })
            .collect();
        let bound: u64 = rng.gen_range(0..60);
        let nearest = nearest_under(&bvh, &cands);
        let tree = bvh.closest_hit(&|p| cands[p], &|k, b| meets(&nearest, k, b), bound);
        let scan = scan_closest(&|p| cands[p], n, bound);
        let expected = cands.iter().filter_map(|c| *c).filter(|&t| t <= bound).min();
        assert_eq!(tree.map(|h| h.t), expected);
        assert_eq!(scan.map(|h| h.t), expected);
        if let Some(Hit { prim, t }) = tree {
            assert_eq!(cands[prim], Some(t));
        }
        if let Some(Hit { prim, t }) = scan {
            assert_eq!(cands[prim], Some(t));
        }
    }
}

#[test]
fn scan_keeps_the_later_of_equal_hits() {
    let cands = [Some(5), Some(3), Some(3), None];
    assert_eq!(scan_closest(&|p| cands[p], 4, 10), Some(Hit { prim: 2, t: 3 }));
    assert_eq!(scan_closest(&|p| cands[p], 4, 2), None);
    assert_eq!(scan_closest(&|p| cands[p], 0, 10), None);
}

#[test]
fn missed_root_box_prunes_everything() {
    let bvh = Bvh::new(vec![key(1, 1, 1), key(2, 2, 2), key(3, 3, 3)], SplitAxis::Fixed(0)).unwrap();
    let cands = [Some(1), Some(2), Some(3)];
    assert_eq!(bvh.closest_hit(&|p| cands[p], &|_, _| false, 100), None);
}

#[test]
fn hit_beyond_bound_does_not_count() {
    let bvh = Bvh::new(vec![key(1, 1, 1), key(2, 2, 2)], SplitAxis::Fixed(0)).unwrap();
    let cands = [Some(30), Some(20)];
    let nearest = nearest_under(&bvh, &cands);
    let meets_box = |k, b| meets(&nearest, k, b);
    assert_eq!(bvh.closest_hit(&|p| cands[p], &meets_box, 25), Some(Hit { prim: 1, t: 20 }));
    assert_eq!(bvh.closest_hit(&|p| cands[p], &meets_box, 19), None);
}

#[test]
fn key_on_each_axis() {
    let k = key(1, 2, 3);
    assert_eq!(k.on(0), 1);
    assert_eq!(k.on(1), 2);
    assert_eq!(k.on(2), 3);
}

#[test]
fn sort_orders_by_the_chosen_axis_and_keeps_ties() {
    let keys = vec![key(3, 9, 0), key(1, 7, 0), key(3, 8, 0), key(2, 7, 0)];
    assert_eq!(sort_by_axis(&keys, &vec![0, 1, 2, 3], 0), vec![1, 3, 0, 2]);
    assert_eq!(sort_by_axis(&keys, &vec![0, 1, 2, 3], 1), vec![1, 3, 2, 0]);
    assert_eq!(sort_by_axis(&keys, &vec![2, 0], 2), vec![2, 0]);
    assert_eq!(sort_by_axis(&keys, &vec![], 0), Vec::<usize>::new());
}
