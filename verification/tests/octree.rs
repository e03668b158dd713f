use voxel_octree::octree::{Node, Octree, OctreeError};
use voxel_octree::static_octree::{StaticNode, StaticOctree};

fn tree_eq(a: &Node, b: &Node) -> bool {
    if a.leaf != b.leaf || a.id != b.id || a.nodes.len() != b.nodes.len() {
        return false;
    }
    for i in 0..a.nodes.len() {
        if !tree_eq(&a.nodes[i], &b.nodes[i]) {
            return false;
        }
    }
    true
}

fn shape_ok(n: &Node) -> bool {
    if n.leaf {
        n.nodes.is_empty()
    } else {
        n.nodes.len() == 8 && n.nodes.iter().all(shape_ok)
    }
}

fn static_shape_ok(n: &StaticNode) -> bool {
    if n.leaf {
        n.nodes.is_empty()
    } else {
        n.nodes.len() == 8 && n.nodes.iter().all(static_shape_ok)
    }
}

#[test]
fn shape_invariant_holds_through_edits() {
    let mut t = Octree::new(8).unwrap();
    assert!(shape_ok(&t.root_node));
    t.insert((1, 1, 1), 5).unwrap();
    assert!(shape_ok(&t.root_node));
    t.insert((6, 2, 7), 5).unwrap();
    assert!(shape_ok(&t.root_node));
    t.remove((1, 1, 1)).unwrap();
    assert!(shape_ok(&t.root_node));
    let s = StaticOctree::freeze(&t);
    assert!(static_shape_ok(&s.root_node));
}

#[test]
fn new_zero_size_fails() {
    assert!(matches!(Octree::new(0), Err(OctreeError::InvalidSize)));
}

#[test]
fn new_tree_is_empty() {
    let t = Octree::new(8).unwrap();
    assert_eq!(t.size, 8);
    assert_eq!(t.query((0, 0, 0)).unwrap(), 0);
    assert_eq!(t.query((7, 7, 7)).unwrap(), 0);
    assert!(t.root_node.leaf);
    assert_eq!(t.root_node.id, 0);
    assert_eq!(t.root_node.nodes.len(), 0);
}

#[test]
fn example_eight_meter_cube() {
    let mut t = Octree::new(8).unwrap();
    t.insert((1, 1, 1), 5).unwrap();
    assert_eq!(t.query((1, 1, 1)).unwrap(), 5);
    assert_eq!(t.query((7, 7, 7)).unwrap(), 0);
    let s = StaticOctree::freeze(&t);
    assert_eq!(s.size, 8);
    assert_eq!(s.query((1, 1, 1)).unwrap(), 5);
    assert_eq!(s.query((7, 7, 7)).unwrap(), 0);
}

#[test]
fn repeated_insert_keeps_root_leaf() {
    // unit volume: the root leaf is the point itself
    let mut t = Octree::new(1).unwrap();
    t.insert((0, 0, 0), 3).unwrap();
    t.insert((0, 0, 0), 3).unwrap();
    assert!(t.root_node.leaf);
    assert_eq!(t.root_node.id, 3);
    assert_eq!(t.root_node.nodes.len(), 0);
    assert_eq!(t.query((0, 0, 0)).unwrap(), 3);
}

#[test]
fn matching_insert_never_subdivides() {
    // a volume whose root leaf already carries the id: inserting the same
    // id again must not subdivide anything
    let mut t = Octree::new(2).unwrap();
    for x in 0..2_i64 {
        for y in 0..2_i64 {
            for z in 0..2_i64 {
                t.insert((x, y, z), 3).unwrap();
            }
        }
    }
    assert!(t.root_node.leaf);
    assert_eq!(t.root_node.id, 3);
    t.insert((0, 0, 0), 3).unwrap();
    assert!(t.root_node.leaf);
    assert_eq!(t.root_node.id, 3);
    assert_eq!(t.root_node.nodes.len(), 0);
}

#[test]
fn insert_then_query_roundtrip() {
    let mut t = Octree::new(16).unwrap();
    let points: [((i64, i64, i64), u16); 5] = [
        ((0, 0, 0), 1),
        ((15, 15, 15), 2),
        ((7, 8, 9), 3),
        ((1, 0, 14), 4),
        ((8, 8, 8), 5),
    ];
    for (p, v) in points {
        t.insert(p, v).unwrap();
    }
    for (p, v) in points {
        assert_eq!(t.query(p).unwrap(), v);
    }
}

#[test]
fn insert_same_id_twice_same_shape() {
    let mut once = Octree::new(8).unwrap();
    once.insert((3, 2, 1), 7).unwrap();
    let mut twice = Octree::new(8).unwrap();
    twice.insert((3, 2, 1), 7).unwrap();
    twice.insert((3, 2, 1), 7).unwrap();
    assert!(tree_eq(&once.root_node, &twice.root_node));
}

#[test]
fn remove_empties_point() {
    let mut t = Octree::new(8).unwrap();
    t.insert((5, 4, 3), 9).unwrap();
    assert_eq!(t.query((5, 4, 3)).unwrap(), 9);
    t.remove((5, 4, 3)).unwrap();
    assert_eq!(t.query((5, 4, 3)).unwrap(), 0);
}

#[test]
fn remove_everything_restores_empty_leaf() {
    let mut t = Octree::new(4).unwrap();
    t.insert((1, 2, 3), 6).unwrap();
    t.insert((0, 0, 0), 2).unwrap();
    t.remove((1, 2, 3)).unwrap();
    t.remove((0, 0, 0)).unwrap();
    assert!(t.root_node.leaf);
    assert_eq!(t.root_node.id, 0);
    assert_eq!(t.root_node.nodes.len(), 0);
}

#[test]
fn merge_on_write_collapses() {
    let mut t = Octree::new(2).unwrap();
    t.insert((0, 0, 0), 7).unwrap();
    // one corner set: the root had to subdivide
    assert!(!t.root_node.leaf);
    assert_eq!(t.root_node.nodes.len(), 8);
    for x in 0..2_i64 {
        for y in 0..2_i64 {
            for z in 0..2_i64 {
                t.insert((x, y, z), 7).unwrap();
            }
        }
    }
    // all eight octants carry one id: merged back into a single leaf
    assert!(t.root_node.leaf);
    assert_eq!(t.root_node.id, 7);
    assert_eq!(t.root_node.nodes.len(), 0);
}

#[test]
fn overwrite_changes_id() {
    let mut t = Octree::new(8).unwrap();
    t.insert((1, 1, 1), 5).unwrap();
    t.insert((1, 1, 1), 9).unwrap();
    assert_eq!(t.query((1, 1, 1)).unwrap(), 9);
}

#[test]
fn neighbors_stay_empty_after_insert() {
    let mut t = Octree::new(8).unwrap();
    t.insert((1, 1, 1), 5).unwrap();
    assert_eq!(t.query((0, 0, 0)).unwrap(), 0);
    assert_eq!(t.query((1, 1, 0)).unwrap(), 0);
    assert_eq!(t.query((0, 1, 1)).unwrap(), 0);
    assert_eq!(t.query((2, 2, 2)).unwrap(), 0);
}

#[test]
fn out_of_bounds_query_fails() {
    let t = Octree::new(8).unwrap();
    assert!(matches!(t.query((-1, 0, 0)), Err(OctreeError::OutOfBounds)));
    assert!(matches!(t.query((0, -1, 0)), Err(OctreeError::OutOfBounds)));
    assert!(matches!(t.query((0, 0, -1)), Err(OctreeError::OutOfBounds)));
    assert!(matches!(t.query((8, 0, 0)), Err(OctreeError::OutOfBounds)));
    assert!(matches!(t.query((0, 8, 0)), Err(OctreeError::OutOfBounds)));
    assert!(matches!(t.query((0, 0, 8)), Err(OctreeError::OutOfBounds)));
}

#[test]
fn out_of_bounds_insert_fails_and_changes_nothing() {
    let mut t = Octree::new(8).unwrap();
    t.insert((2, 2, 2), 4).unwrap();
    let snapshot = StaticOctree::freeze(&t);
    assert!(matches!(t.insert((8, 0, 0), 1), Err(OctreeError::OutOfBounds)));
    assert!(matches!(t.insert((0, -3, 0), 1), Err(OctreeError::OutOfBounds)));
    assert!(matches!(t.remove((0, 0, 99)), Err(OctreeError::OutOfBounds)));
    for x in 0..8_i64 {
        for y in 0..8_i64 {
            for z in 0..8_i64 {
                assert_eq!(
                    u32::from(t.query((x, y, z)).unwrap()),
                    snapshot.query((x, y, z)).unwrap()
                );
            }
        }
    }
}

#[test]
fn freeze_fidelity_every_point() {
    let mut t = Octree::new(5).unwrap();
    t.insert((0, 0, 0), 11).unwrap();
    t.insert((4, 4, 4), 12).unwrap();
    t.insert((2, 3, 1), 13).unwrap();
    let s = StaticOctree::freeze(&t);
    assert_eq!(s.size, 5);
    for x in 0..5_i64 {
        for y in 0..5_i64 {
            for z in 0..5_i64 {
                assert_eq!(
                    u32::from(t.query((x, y, z)).unwrap()),
                    s.query((x, y, z)).unwrap()
                );
            }
        }
    }
}

#[test]
fn freeze_widens_ids() {
    let mut t = Octree::new(4).unwrap();
    t.insert((3, 0, 2), u16::MAX).unwrap();
    let s = StaticOctree::freeze(&t);
    assert_eq!(s.query((3, 0, 2)).unwrap(), u32::from(u16::MAX));
}

#[test]
fn frozen_snapshot_is_independent() {
    let mut t = Octree::new(8).unwrap();
    t.insert((1, 1, 1), 5).unwrap();
    let s = StaticOctree::freeze(&t);
    t.insert((1, 1, 1), 6).unwrap();
    t.insert((7, 7, 7), 8).unwrap();
    assert_eq!(s.query((1, 1, 1)).unwrap(), 5);
    assert_eq!(s.query((7, 7, 7)).unwrap(), 0);
    assert_eq!(t.query((1, 1, 1)).unwrap(), 6);
}

#[test]
fn non_pow2_size_bounds() {
    let mut t = Octree::new(5).unwrap();
    t.insert((4, 4, 4), 3).unwrap();
    assert_eq!(t.query((4, 4, 4)).unwrap(), 3);
    assert!(matches!(t.query((5, 0, 0)), Err(OctreeError::OutOfBounds)));
    assert!(matches!(t.insert((0, 5, 0), 1), Err(OctreeError::OutOfBounds)));
}

#[test]
fn size_one_tree() {
    let mut t = Octree::new(1).unwrap();
    assert_eq!(t.query((0, 0, 0)).unwrap(), 0);
    t.insert((0, 0, 0), 42).unwrap();
    assert_eq!(t.query((0, 0, 0)).unwrap(), 42);
    assert!(matches!(t.query((1, 0, 0)), Err(OctreeError::OutOfBounds)));
}

#[test]
fn large_size_deep_descent() {
    let mut t = Octree::new(1_000_000).unwrap();
    t.insert((999_999, 0, 123_456), 77).unwrap();
    assert_eq!(t.query((999_999, 0, 123_456)).unwrap(), 77);
    assert_eq!(t.query((999_998, 0, 123_456)).unwrap(), 0);
    t.remove((999_999, 0, 123_456)).unwrap();
    assert!(t.root_node.leaf);
    assert_eq!(t.root_node.id, 0);
}

#[test]
fn static_new_zero_size_fails() {
    assert!(matches!(
        StaticOctree::new(0),
        Err(OctreeError::InvalidSize)
    ));
}

#[test]
fn static_new_is_empty() {
    let s = StaticOctree::new(3).unwrap();
    assert_eq!(s.size, 3);
    for x in 0..3_i64 {
        for y in 0..3_i64 {
            for z in 0..3_i64 {
                assert_eq!(s.query((x, y, z)).unwrap(), 0);
            }
        }
    }
    assert!(matches!(s.query((3, 0, 0)), Err(OctreeError::OutOfBounds)));
}
