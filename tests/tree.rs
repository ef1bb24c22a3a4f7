use rtree::geometry::{Point, Rectangle};
use rtree::node::Node;
use rtree::tree::{RTree, RTreeError};

fn rect(x0: i32, y0: i32, x1: i32, y1: i32) -> Rectangle {
    Rectangle::new(Point::new(x0, y0), Point::new(x1, y1))
}

fn sorted(mut v: Vec<usize>) -> Vec<usize> {
    v.sort();
    v
}

const EVERYWHERE: Rectangle = Rectangle {
    ll: Point { x: i32::MIN, y: i32::MIN },
    ur: Point { x: i32::MAX, y: i32::MAX },
};

/// Checks the structural invariants below `n` and returns its leaf depth.
fn check_node(n: &Node, max: usize, min: usize, is_root: bool) -> usize {
    match n {
        Node::Leaf { rect, .. } => {
            assert!(rect.is_valid());
            0
        }
        Node::Inner { rect, children } => {
            assert!(children.len() <= max);
            if !is_root {
                assert!(children.len() >= min);
            }
            if children.is_empty() {
                return 1;
            }
            let mut m = children[0].rect();
            for c in children.iter() {
                m = m.mbr(&c.rect());
            }
            assert_eq!(*rect, m);
            let d = check_node(&children[0], max, min, false);
            for c in children.iter() {
                assert_eq!(check_node(c, max, min, false), d);
                assert!(rect.contains_rect(&c.rect()));
            }
            d + 1
        }
    }
}

fn check(t: &RTree) {
    check_node(t.root(), t.max_entries(), t.min_entries(), true);
}

#[test]
fn new_checks_fill_parameters() {
    assert!(matches!(RTree::new(2, 0), Err(RTreeError::InvalidConfig)));
    assert!(matches!(RTree::new(4, 3), Err(RTreeError::InvalidConfig)));
    assert!(matches!(RTree::new(1, 1), Err(RTreeError::InvalidConfig)));
    assert!(RTree::new(4, 2).is_ok());
    assert!(RTree::new(2, 1).is_ok());
}

#[test]
fn insert_rejects_unordered_corners() {
    let mut t = RTree::new(4, 2).unwrap();
    assert_eq!(t.insert(1, rect(0, 0, 1, 1)), Ok(()));
    assert_eq!(t.insert(2, rect(2, 0, 1, 1)), Err(RTreeError::InvalidGeometry));
    assert_eq!(t.insert(3, rect(0, 2, 1, 1)), Err(RTreeError::InvalidGeometry));
    assert_eq!(t.query(&EVERYWHERE), vec![1]);
}

#[test]
fn empty_tree_queries_nothing() {
    let t = RTree::new(4, 2).unwrap();
    assert!(t.query(&EVERYWHERE).is_empty());
    assert!(t.query(&rect(0, 0, 0, 0)).is_empty());
}

#[test]
fn query_three_records() {
    // R1 = [(0,0)-(1,1)], R2 = [(2,2)-(3,3)], R3 = [(0.5,0.5)-(1.5,1.5)], at twice the scale
    let mut t = RTree::new(2, 1).unwrap();
    t.insert(1, rect(0, 0, 2, 2)).unwrap();
    t.insert(2, rect(4, 4, 6, 6)).unwrap();
    t.insert(3, rect(1, 1, 3, 3)).unwrap();
    check(&t);
    // bounds are inclusive: R2 touches the corner (2,2) of this query
    assert_eq!(sorted(t.query(&rect(0, 0, 4, 4))), vec![1, 2, 3]);
    // a query stopping short of R2 returns R1 and R3 only
    assert_eq!(sorted(t.query(&rect(0, 0, 3, 3))), vec![1, 3]);
    assert_eq!(sorted(t.query(&rect(5, 5, 5, 5))), vec![2]);
}

#[test]
fn third_insert_splits_full_node() {
    let mut t = RTree::new(2, 1).unwrap();
    t.insert(1, rect(0, 0, 1, 1)).unwrap();
    t.insert(2, rect(10, 10, 11, 11)).unwrap();
    match t.root() {
        Node::Inner { children, .. } => assert_eq!(children.len(), 2),
        Node::Leaf { .. } => panic!("root is a leaf"),
    }
    t.insert(3, rect(1, 1, 2, 2)).unwrap();
    check(&t);
    let mut ids = Vec::new();
    match t.root() {
        Node::Inner { children, .. } => {
            assert_eq!(children.len(), 2);
            for c in children.iter() {
                match c {
                    Node::Inner { children: leaves, .. } => {
                        assert!(leaves.len() >= 1 && leaves.len() <= 2);
                        for l in leaves.iter() {
                            match l {
                                Node::Leaf { tid, .. } => ids.push(*tid),
                                Node::Inner { .. } => panic!("too deep"),
                            }
                        }
                    }
                    Node::Leaf { .. } => panic!("split did not create inner nodes"),
                }
            }
        }
        Node::Leaf { .. } => panic!("root is a leaf"),
    }
    assert_eq!(sorted(ids), vec![1, 2, 3]);
    assert_eq!(sorted(t.query(&EVERYWHERE)), vec![1, 2, 3]);
}

#[test]
fn delete_everything_leaves_empty_tree() {
    let mut t = RTree::new(4, 2).unwrap();
    for i in 0..20 {
        t.insert(i, rect(i as i32, 0, i as i32 + 2, 3)).unwrap();
    }
    check(&t);
    for i in 0..20 {
        assert_eq!(t.delete(i, rect(i as i32, 0, i as i32 + 2, 3)), Ok(()));
        check(&t);
    }
    assert!(t.query(&EVERYWHERE).is_empty());
    assert!(t.query(&rect(0, 0, 5, 5)).is_empty());
    assert_eq!(t.delete(0, rect(0, 0, 2, 3)), Err(RTreeError::NotFound));
}

#[test]
fn delete_with_condensation_keeps_others() {
    let mut t = RTree::new(4, 2).unwrap();
    let mut live: Vec<usize> = Vec::new();
    for i in 0..30usize {
        let x = ((i * 7) % 30) as i32;
        let y = ((i * 11) % 30) as i32;
        t.insert(i, rect(x, y, x + 1, y + 1)).unwrap();
        live.push(i);
    }
    check(&t);
    for i in (0..30usize).step_by(3) {
        let x = ((i * 7) % 30) as i32;
        let y = ((i * 11) % 30) as i32;
        assert_eq!(t.delete(i, rect(x, y, x + 1, y + 1)), Ok(()));
        live.retain(|&j| j != i);
        check(&t);
        assert_eq!(sorted(t.query(&EVERYWHERE)), live);
    }
}

#[test]
fn delete_needs_matching_id_and_rect() {
    let mut t = RTree::new(4, 2).unwrap();
    t.insert(7, rect(0, 0, 1, 1)).unwrap();
    assert_eq!(t.delete(8, rect(0, 0, 1, 1)), Err(RTreeError::NotFound));
    assert_eq!(t.delete(7, rect(0, 0, 1, 2)), Err(RTreeError::NotFound));
    assert_eq!(t.delete(7, rect(1, 1, 0, 0)), Err(RTreeError::NotFound));
    assert_eq!(t.query(&EVERYWHERE), vec![7]);
    assert_eq!(t.delete(7, rect(0, 0, 1, 1)), Ok(()));
    assert!(t.query(&EVERYWHERE).is_empty());
}

#[test]
fn insert_then_delete_restores_content() {
    let mut t = RTree::new(3, 1).unwrap();
    for i in 0..12usize {
        t.insert(i, rect(i as i32 * 3, 0, i as i32 * 3 + 2, 2)).unwrap();
    }
    let before = sorted(t.query(&EVERYWHERE));
    t.insert(99, rect(5, 5, 6, 6)).unwrap();
    assert_eq!(sorted(t.query(&rect(5, 5, 6, 6))), vec![99]);
    t.delete(99, rect(5, 5, 6, 6)).unwrap();
    check(&t);
    assert_eq!(sorted(t.query(&EVERYWHERE)), before);
}

#[test]
fn duplicate_records_are_counted() {
    let mut t = RTree::new(2, 1).unwrap();
    t.insert(5, rect(0, 0, 1, 1)).unwrap();
    t.insert(5, rect(0, 0, 1, 1)).unwrap();
    assert_eq!(t.query(&EVERYWHERE), vec![5, 5]);
    t.delete(5, rect(0, 0, 1, 1)).unwrap();
    assert_eq!(t.query(&EVERYWHERE), vec![5]);
}

#[test]
fn query_prunes_but_finds_all_hits() {
    let mut t = RTree::new(5, 2).unwrap();
    for i in 0..50usize {
        let x = (i % 10) as i32 * 10;
        let y = (i / 10) as i32 * 10;
        t.insert(i, rect(x, y, x + 5, y + 5)).unwrap();
    }
    check(&t);
    // cells with x in {20, 30} and y in {10, 20}
    assert_eq!(sorted(t.query(&rect(21, 12, 33, 24))), vec![12, 13, 22, 23]);
    assert!(t.query(&rect(6, 6, 9, 9)).is_empty());
}

#[test]
fn insert_auto_hands_out_increasing_ids() {
    let mut t = RTree::new(4, 2).unwrap();
    assert_eq!(t.insert_auto(rect(0, 0, 1, 1)), Ok(0));
    assert_eq!(t.insert_auto(rect(3, 3, 1, 1)), Err(RTreeError::InvalidGeometry));
    assert_eq!(t.insert_auto(rect(2, 2, 3, 3)), Ok(1));
    assert_eq!(t.insert_auto(rect(4, 4, 5, 5)), Ok(2));
    assert_eq!(sorted(t.query(&rect(2, 2, 5, 5))), vec![1, 2]);
}
