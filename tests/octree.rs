use space::octree::{
    source_ids, FmmNode, FmmTree, GridPoint, NodeData, NodeId, ObjectId, Region,
};
use space::walk::TreeWalk;

fn gp(x: u32, y: u32, z: u32) -> GridPoint {
    GridPoint { x, y, z }
}

fn all_ids(n: usize) -> Vec<ObjectId> {
    (0..n).map(ObjectId).collect()
}

struct Lcg(u64);

impl Lcg {
    fn next(&mut self) -> u32 {
        self.0 = self.0.wrapping_mul(6364136223846793005).wrapping_add(1442695040888963407);
        (self.0 >> 33) as u32
    }
}

fn random_points(n: usize, seed: u64) -> Vec<GridPoint> {
    let mut r = Lcg(seed);
    (0..n).map(|_| gp(r.next() % 4096, r.next() % 4096, r.next() % 4096)).collect()
}

fn children(node: &FmmNode) -> &[NodeId] {
    match &node.data {
        NodeData::Internal { children } => children,
        NodeData::External => &[],
    }
}

fn aggregate(tree: &FmmTree, id: NodeId, mass: &[u64]) -> u64 {
    let node = tree.get(id);
    match &node.data {
        NodeData::External => tree.order[node.first..node.last].iter().map(|o| mass[o.to_index()]).sum(),
        NodeData::Internal { children } => children.iter().map(|&c| aggregate(tree, c, mass)).sum(),
    }
}

#[test]
fn region_contains_and_size() {
    let r = Region { x_range: (0, 8), y_range: (0, 8), z_range: (0, 8) };
    assert!(r.contains(&gp(7, 7, 7)));
    assert!(r.contains(&gp(0, 0, 0)));
    assert!(!r.contains(&gp(8, 0, 0)));
    assert_eq!(r.size(), 8);
    let o = r.octant(5);
    assert_eq!((o.x_range, o.y_range, o.z_range), ((4, 8), (0, 4), (4, 8)));
    assert_eq!(r.octant_of(&gp(4, 3, 4)), 5);
    assert_eq!(r.octant_of(&gp(3, 3, 3)), 0);
    assert_eq!(r.octant_of(&gp(4, 4, 4)), 7);
}

#[test]
fn object_id_index() {
    assert_eq!(ObjectId(7).to_index(), 7);
}

#[test]
fn small_tree_with_coincident_bucket() {
    let points = vec![gp(0, 0, 0), gp(10, 0, 0), gp(0, 10, 0), gp(10, 0, 0)];
    let tree = FmmTree::new(&points, all_ids(4));
    assert_eq!(tree.len(), 4);
    assert_eq!(tree.root_id(), NodeId(0));
    let root = tree.get(tree.root_id());
    assert_eq!((root.first, root.last), (0, 4));
    assert_eq!(children(root), &[NodeId(1), NodeId(2), NodeId(3)]);
    assert_eq!(tree.order, vec![ObjectId(0), ObjectId(2), ObjectId(1), ObjectId(3)]);
    let bucket = tree.get(NodeId(3));
    assert!(matches!(bucket.data, NodeData::External));
    assert_eq!((bucket.first, bucket.last), (2, 4));
}

#[test]
fn single_body_is_one_leaf() {
    let tree = FmmTree::new(&vec![gp(3, 4, 5)], all_ids(1));
    assert_eq!(tree.len(), 1);
    assert!(matches!(tree.get(NodeId(0)).data, NodeData::External));
}

#[test]
fn all_bodies_on_one_point_make_one_bucket() {
    let points = vec![gp(9, 9, 9); 6];
    let tree = FmmTree::new(&points, all_ids(6));
    assert_eq!(tree.len(), 1);
    let root = tree.get(NodeId(0));
    assert_eq!((root.first, root.last), (0, 6));
}

#[test]
fn no_bodies_no_nodes() {
    let tree = FmmTree::new(&vec![gp(1, 1, 1)], Vec::new());
    assert_eq!(tree.len(), 0);
    assert!(tree.order.is_empty());
}

#[test]
fn massless_bodies_are_left_out() {
    assert_eq!(source_ids(&vec![true, false, true, false]), vec![ObjectId(0), ObjectId(2)]);
    assert!(source_ids(&vec![false, false]).is_empty());
    let points = vec![gp(0, 0, 0), gp(5, 5, 5), gp(9, 9, 9)];
    let tree = FmmTree::new(&points, source_ids(&vec![true, false, true]));
    let mut order: Vec<usize> = tree.order.iter().map(|o| o.to_index()).collect();
    order.sort();
    assert_eq!(order, vec![0, 2]);
}

#[test]
fn aggregates_match_subtree_sums() {
    for (n, seed) in [(1usize, 1u64), (2, 2), (10, 3), (1000, 4)] {
        let points = random_points(n, seed);
        let mut r = Lcg(seed + 100);
        let mass: Vec<u64> = (0..n).map(|_| (r.next() % 1000) as u64).collect();
        let tree = FmmTree::new(&points, all_ids(n));
        let mut order: Vec<usize> = tree.order.iter().map(|o| o.to_index()).collect();
        order.sort();
        assert_eq!(order, (0..n).collect::<Vec<_>>());
        for i in 0..tree.len() {
            let node = tree.get(NodeId(i));
            let direct: u64 = tree.order[node.first..node.last].iter().map(|o| mass[o.to_index()]).sum();
            assert_eq!(aggregate(&tree, NodeId(i), &mass), direct);
            for o in &tree.order[node.first..node.last] {
                assert!(node.region.contains(&points[o.to_index()]));
            }
            for &c in children(node) {
                assert!(c.0 > i);
            }
        }
        assert_eq!(aggregate(&tree, NodeId(0), &mass), mass.iter().sum::<u64>());
    }
}

#[test]
fn full_descent_reaches_every_body_once() {
    let points = random_points(200, 9);
    let tree = FmmTree::new(&points, all_ids(200));
    let mut walk = TreeWalk::new(&tree);
    let mut reached = Vec::new();
    while let Some(id) = walk.next(&tree) {
        let node = tree.get(id);
        match node.data {
            NodeData::Internal { .. } => walk.descend(&tree),
            NodeData::External => {
                reached.extend(tree.order[node.first..node.last].iter().map(|o| o.to_index()));
                walk.accept(&tree);
            }
        }
    }
    reached.sort();
    assert_eq!(reached, (0..200).collect::<Vec<_>>());
}

#[test]
fn accepting_the_root_ends_the_walk() {
    let points = random_points(50, 11);
    let tree = FmmTree::new(&points, all_ids(50));
    let mut walk = TreeWalk::new(&tree);
    assert_eq!(walk.next(&tree), Some(NodeId(0)));
    walk.accept(&tree);
    assert_eq!(walk.next(&tree), None);
}

#[test]
fn walk_over_empty_tree_is_done() {
    let tree = FmmTree::new(&Vec::new(), Vec::new());
    let mut walk = TreeWalk::new(&tree);
    assert_eq!(walk.next(&tree), None);
}

#[test]
fn appending_massless_bodies_keeps_sources() {
    let base = vec![true, false, true, true];
    let mut extended = base.clone();
    extended.extend([false, false, false]);
    assert_eq!(source_ids(&extended), source_ids(&base));
    assert_eq!(source_ids(&base), vec![ObjectId(0), ObjectId(2), ObjectId(3)]);
}
