use quad_tree::QuadTree;
use quad_tree::QuadTreeBounds;
use quad_tree::QuadTreeError;
use quad_tree::QuadTreeLeaf;

fn rect(x: i64, y: i64, w: i64, h: i64) -> QuadTreeBounds {
    QuadTreeBounds::new(x, y, w, h)
}

fn query_ids(tree: &QuadTree, area: QuadTreeBounds) -> Vec<u64> {
    let mut results: Vec<QuadTreeLeaf> = Vec::new();
    tree.query(area, &mut results);
    let mut ids: Vec<u64> = results.iter().map(|l| l.identity).collect();
    ids.sort();
    ids
}

fn assert_leaves_within_branches(node: &QuadTree) {
    for leaf in node.items.iter().chain(node.stuck.iter()) {
        assert!(node.bounds.contains(leaf.bounds));
    }
    let slots = [&node.top_left, &node.top_right, &node.bottom_right, &node.bottom_left];
    for slot in slots {
        if let Some(child) = slot {
            assert!(node.bounds.contains(child.bounds));
            assert_leaves_within_branches(child);
        }
    }
}

#[test]
fn leaves_lie_within_their_branch() {
    let mut tree = QuadTree::new(0, 0, 8);
    let rects = [
        rect(0, 0, 1, 1),
        rect(-7, -7, 3, 3),
        rect(4, 4, 2, 2),
        rect(-1, -1, 2, 2),
        rect(600, -600, 10, 10),
        rect(2, 2, 1, 1),
        rect(3, 3, 0, 0),
    ];
    for (i, r) in rects.iter().enumerate() {
        tree.insert(*r, i as i64).unwrap();
    }
    assert_leaves_within_branches(&tree);
    // and removal keeps the invariant
    let victims = query_ids(&tree, rect(-8, -8, 16, 16));
    assert!(!victims.is_empty());
    assert_leaves_within_branches(&tree);
}

#[test]
fn scenario_grow_query_remove() {
    // root ~= 16x16 centred near the origin
    let mut tree = QuadTree::new(0, 0, 8);
    assert_eq!(tree.bounds.w, 16);
    let mut initial: Vec<QuadTreeBounds> = Vec::new();
    tree.climb(&mut initial);
    assert_eq!(initial, vec![rect(-8, -8, 16, 16)]);
    let a = tree.insert(rect(0, 0, 1, 1), 1).unwrap();
    let b = tree.insert(rect(1, 1, 1, 1), 2).unwrap();
    let c = tree.insert(rect(100, 100, 1, 1), 3).unwrap();

    // the third insertion lies outside the initial root and must have
    // triggered at least one growth step
    assert!(tree.bounds.w > 16);
    assert!(tree.bounds.contains(rect(100, 100, 1, 1)));

    assert_eq!(query_ids(&tree, rect(-1, -1, 3, 3)), vec![a.identity, b.identity]);
    assert_eq!(query_ids(&tree, rect(99, 99, 3, 3)), vec![c.identity]);

    assert!(tree.remove(&a));
    assert!(tree.remove(&b));
    assert!(tree.remove(&c));

    let mut shape: Vec<QuadTreeBounds> = Vec::new();
    tree.climb(&mut shape);
    assert_eq!(shape.len(), 1);
}

#[test]
fn double_remove_true_then_false() {
    let mut tree = QuadTree::new(0, 0, 32);
    let a = tree.insert(rect(2, 2, 3, 3), 10).unwrap();
    let b = tree.insert(rect(-5, -5, 2, 2), 11).unwrap();
    assert!(tree.remove(&a));
    assert!(!tree.remove(&a));
    assert!(tree.remove(&b));
    assert!(!tree.remove(&b));
}

#[test]
fn remove_all_returns_bare_root() {
    let mut tree = QuadTree::new(0, 0, 8);
    let mut handles: Vec<QuadTreeLeaf> = Vec::new();
    let rects = [
        rect(0, 0, 1, 1),
        rect(1, 1, 1, 1),
        rect(-7, -7, 2, 2),
        rect(3, -6, 2, 2),
        rect(-6, 3, 1, 4),
        rect(2, 2, 0, 0),
        rect(40, 40, 3, 3),
        rect(-90, 12, 5, 5),
        rect(0, 0, 1, 1),
        rect(5, 5, 10, 10),
    ];
    for (i, r) in rects.iter().enumerate() {
        handles.push(tree.insert(*r, i as i64).unwrap());
    }
    // the tree subdivided or grew while these went in
    let mut shape: Vec<QuadTreeBounds> = Vec::new();
    tree.climb(&mut shape);
    assert!(shape.len() >= 1);

    for h in handles.iter() {
        assert!(tree.remove(h));
    }
    let mut bare: Vec<QuadTreeBounds> = Vec::new();
    tree.climb(&mut bare);
    assert_eq!(bare.len(), 1);
    assert_eq!(query_ids(&tree, rect(-1000, -1000, 2000, 2000)), Vec::<u64>::new());
}

#[test]
fn growth_keeps_item_reachable() {
    let mut tree = QuadTree::new(0, 0, 8);
    let far = rect(1000, 1000, 5, 5);
    let leaf = tree.insert(far, 42).unwrap();
    assert!(tree.bounds.contains(far));
    let found = query_ids(&tree, rect(999, 999, 10, 10));
    assert_eq!(found, vec![leaf.identity]);
}

#[test]
fn query_matches_brute_force() {
    let mut tree = QuadTree::new(0, 0, 16);
    let rects = [
        rect(0, 0, 4, 4),
        rect(-10, -10, 3, 3),
        rect(8, 8, 8, 8),
        rect(-2, 5, 1, 1),
        rect(5, -2, 1, 6),
        rect(30, 30, 2, 2),
        rect(-40, 25, 6, 6),
        rect(1, 1, 0, 0),
        rect(12, -12, 3, 3),
        rect(-3, -3, 6, 6),
    ];
    let mut stored: Vec<QuadTreeLeaf> = Vec::new();
    for (i, r) in rects.iter().enumerate() {
        stored.push(tree.insert(*r, i as i64).unwrap());
    }
    let areas = [
        rect(-5, -5, 10, 10),
        rect(0, 0, 1, 1),
        rect(-100, -100, 300, 300),
        rect(29, 29, 1, 1),
        rect(50, 50, 4, 4),
        rect(0, 0, 0, 0),
    ];
    for area in areas.iter() {
        let got = query_ids(&tree, *area);
        let mut expect: Vec<u64> = stored
            .iter()
            .filter(|l| area.intersects(l.bounds))
            .map(|l| l.identity)
            .collect();
        expect.sort();
        assert_eq!(got, expect);
    }
}

#[test]
fn fan_out_merge_equals_sequential_query() {
    let mut tree = QuadTree::new(0, 0, 16);
    let rects = [
        rect(-14, -14, 3, 3),
        rect(11, -14, 3, 3),
        rect(11, 11, 3, 3),
        rect(-14, 11, 3, 3),
        rect(-1, -1, 2, 2),
        rect(4, 4, 2, 2),
        rect(-300, 7, 4, 4),
        rect(7, 7, 1, 1),
    ];
    let mut count: i64 = 0;
    for r in rects.iter() {
        tree.insert(*r, count).unwrap();
        count += 1;
    }
    let area = rect(-20, -20, 40, 40);

    let sequential = query_ids(&tree, area);

    // the fan-out shape: scan this node's own lists, then run one
    // independent task per intersecting child and merge the deliveries
    let mut merged: Vec<QuadTreeLeaf> = Vec::new();
    if area.intersects(tree.bounds) {
        for leaf in tree.items.iter().chain(tree.stuck.iter()) {
            if area.intersects(leaf.bounds) {
                merged.push(*leaf);
            }
        }
        let slots = [&tree.top_left, &tree.top_right, &tree.bottom_right, &tree.bottom_left];
        for slot in slots {
            if let Some(child) = slot {
                if area.intersects(child.bounds) {
                    child.task_query(area, &mut merged);
                }
            }
        }
    }
    let mut merged_ids: Vec<u64> = merged.iter().map(|l| l.identity).collect();
    merged_ids.sort();
    assert_eq!(merged_ids, sequential);
}

#[test]
fn growth_overflow_is_reported() {
    let quarter = i64::MAX / 4;
    let mut tree = QuadTree::new(0, 0, quarter);
    // no representable doubling of the root can reach this rectangle
    let err = tree.insert(rect(i64::MAX - 10, 0, 1, 1), 0);
    assert_eq!(err, Err(QuadTreeError::CoordinateOverflow));
    // the failed insertion stored nothing
    assert_eq!(query_ids(&tree, rect(-1000, -1000, 2000, 2000)), Vec::<u64>::new());
    // the tree keeps working afterwards
    let ok = tree.insert(rect(5, 5, 2, 2), 1).unwrap();
    assert_eq!(query_ids(&tree, rect(0, 0, 10, 10)), vec![ok.identity]);
}

#[test]
fn remove_with_foreign_handle_is_false() {
    let mut tree = QuadTree::new(0, 0, 8);
    let ghost_leaf = QuadTreeLeaf::new(0, rect(1, 1, 1, 1), 9);
    assert!(!tree.remove(&ghost_leaf));
}

#[test]
fn identities_are_sequential_and_payloads_kept() {
    let mut tree = QuadTree::new(0, 0, 8);
    let a = tree.insert(rect(0, 0, 1, 1), -7).unwrap();
    let b = tree.insert(rect(2, 2, 1, 1), 13).unwrap();
    assert_eq!(a.identity, 0);
    assert_eq!(b.identity, 1);
    assert_eq!(a.item, -7);
    assert_eq!(b.item, 13);
    let mut results: Vec<QuadTreeLeaf> = Vec::new();
    tree.query(rect(-1, -1, 6, 6), &mut results);
    let mut got: Vec<(u64, i64)> = results.iter().map(|l| (l.identity, l.item)).collect();
    got.sort();
    assert_eq!(got, vec![(0, -7), (1, 13)]);
}

#[test]
fn zero_area_items_are_stored_and_found() {
    let mut tree = QuadTree::new(0, 0, 8);
    let point = tree.insert(rect(3, 3, 0, 0), 5).unwrap();
    // a degenerate rectangle strictly inside the area still intersects it
    assert_eq!(query_ids(&tree, rect(0, 0, 8, 8)), vec![point.identity]);
    // but a query that only touches its corner does not
    assert_eq!(query_ids(&tree, rect(3, 3, 0, 0)), Vec::<u64>::new());
    assert!(tree.remove(&point));
}

#[test]
fn contains_is_inclusive_intersects_is_exclusive() {
    let outer = rect(0, 0, 10, 10);
    assert!(outer.contains(rect(0, 0, 10, 10)));
    assert!(outer.contains(rect(0, 0, 0, 0)));
    assert!(outer.contains(rect(9, 9, 1, 1)));
    assert!(!outer.contains(rect(9, 9, 2, 2)));
    assert!(!outer.contains(rect(-1, 0, 5, 5)));

    // sharing only an edge or a corner is not intersection
    assert!(!outer.intersects(rect(10, 0, 5, 5)));
    assert!(!outer.intersects(rect(0, 10, 5, 5)));
    assert!(!outer.intersects(rect(10, 10, 5, 5)));
    assert!(!outer.intersects(rect(-5, -5, 5, 5)));
    assert!(outer.intersects(rect(9, 9, 5, 5)));
    assert!(outer.intersects(rect(-4, -4, 5, 5)));
}

#[test]
fn buffering_and_stuck_rules() {
    // the first item stays buffered; the second drains both into quadrants
    let mut tree = QuadTree::new(0, 0, 16);
    tree.insert(rect(-10, -10, 1, 1), 0).unwrap();
    let mut shape: Vec<QuadTreeBounds> = Vec::new();
    tree.climb(&mut shape);
    assert_eq!(shape.len(), 1);
    assert_eq!(tree.items.len(), 1);
    tree.insert(rect(5, 5, 1, 1), 1).unwrap();
    let mut drained: Vec<QuadTreeBounds> = Vec::new();
    tree.climb(&mut drained);
    assert_eq!(drained.len(), 3);
    assert_eq!(tree.items.len(), 0);

    // rectangles straddling the midlines stick at the node
    let mut straddle = QuadTree::new(0, 0, 16);
    straddle.insert(rect(-1, -1, 2, 2), 0).unwrap();
    straddle.insert(rect(-2, -2, 4, 4), 1).unwrap();
    assert_eq!(straddle.stuck.len(), 2);
    let mut flat: Vec<QuadTreeBounds> = Vec::new();
    straddle.climb(&mut flat);
    assert_eq!(flat.len(), 1);

    // a node below the minimum subdivision size never subdivides
    let mut small = QuadTree::new(0, 0, 4);
    small.insert(rect(0, 0, 1, 1), 0).unwrap();
    small.insert(rect(-3, -3, 1, 1), 1).unwrap();
    assert_eq!(small.stuck.len(), 2);
    let mut tiny: Vec<QuadTreeBounds> = Vec::new();
    small.climb(&mut tiny);
    assert_eq!(tiny.len(), 1);
}

#[test]
fn edge_accessors() {
    let b = rect(-3, 4, 10, 20);
    assert_eq!(b.left(), -3);
    assert_eq!(b.right(), 7);
    assert_eq!(b.bottom(), 4);
    assert_eq!(b.top(), 24);
}

#[test]
fn disjoint_and_empty_queries_return_nothing() {
    let mut tree = QuadTree::new(0, 0, 8);
    tree.insert(rect(1, 1, 2, 2), 0).unwrap();
    assert_eq!(query_ids(&tree, rect(100, 100, 5, 5)), Vec::<u64>::new());
    assert_eq!(query_ids(&tree, rect(-50, -50, 5, 5)), Vec::<u64>::new());
    let mut empty_tree_hits: Vec<QuadTreeLeaf> = Vec::new();
    QuadTree::new(5, 5, 4).query(rect(0, 0, 20, 20), &mut empty_tree_hits);
    assert!(empty_tree_hits.is_empty());
}
