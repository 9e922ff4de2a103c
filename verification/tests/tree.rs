use quadtree::entity::Entity;
use quadtree::error::QuadtreeError;
use quadtree::geometry::{Bounds, Position, UNIT};
use quadtree::model::CAPACITY;
use quadtree::node::QuadtreeNode;
use quadtree::tree::Quadtree;
use quadtree::update::SysUpdateQuadtree;

fn ent(index: u32) -> Entity {
    Entity { index, generation: 1 }
}

fn square(x: i32, y: i32, size: u32) -> Bounds {
    Bounds { pos: Position { x, y }, size }
}

fn point(x: i32, y: i32) -> Bounds {
    square(x, y, 0)
}

/// A tenth of the unit, `tenths` times.
fn t(tenths: u32) -> i32 {
    ((tenths as u64 * UNIT as u64 + 5) / 10) as i32
}

fn small() -> Quadtree {
    Quadtree::with_bounds(square(0, 0, 8)).unwrap()
}

/// The tree written out: the square of each node, its members, and its children.
fn shape(node: &QuadtreeNode) -> String {
    let mut out = format!("[{},{},{}:", node.bounds().pos.x, node.bounds().pos.y, node.bounds().size);
    for (e, b) in node.members() {
        out.push_str(&format!(" {}@{},{},{}", e.index, b.pos.x, b.pos.y, b.size));
    }
    for child in node.children() {
        out.push_str(&shape(child));
    }
    out.push(']');
    out
}

fn ids(members: &[(Entity, Bounds)]) -> Vec<u32> {
    members.iter().map(|m| m.0.index).collect()
}

/// Whether every member of every node lies within the node, and at an internal
/// node crosses a midline.
fn well_placed(node: &QuadtreeNode) -> bool {
    let n = node.children().len();
    if n != 0 && n != 4 {
        return false;
    }
    for (_, b) in node.members() {
        if !node.bounds().contains(*b) {
            return false;
        }
        if n == 4 && node.bounds().quadrant(*b).is_some() {
            return false;
        }
    }
    for (i, child) in node.children().iter().enumerate() {
        if child.bounds() != node.bounds().split(i) || !well_placed(child) {
            return false;
        }
    }
    true
}

#[test]
fn new_tree_is_an_empty_leaf_over_the_unit_square() {
    let tree = Quadtree::new();
    assert_eq!(tree.bounds(), square(0, 0, UNIT));
    assert!(tree.top().is_leaf());
    assert!(tree.top().members().is_empty());
    assert!(tree.top().children().is_empty());
}

#[test]
fn with_bounds_wants_a_region() {
    assert!(Quadtree::with_bounds(square(0, 0, 0)).is_none());
    assert!(Quadtree::with_bounds(square(i32::MAX, 0, 2)).is_none());
    let tree = Quadtree::with_bounds(square(-4, -4, 8)).unwrap();
    assert_eq!(tree.bounds(), square(-4, -4, 8));
}

#[test]
fn capacity_is_four() {
    assert_eq!(CAPACITY, 4);
}

#[test]
fn five_points_split_the_root_once() {
    let mut tree = Quadtree::new();
    let at = [(t(0), t(0)), (t(1), t(0)), (t(0), t(1)), (t(6), t(6)), (t(9), t(9))];
    for (i, (x, y)) in at.iter().enumerate() {
        assert_eq!(tree.insert(ent(i as u32), point(*x, *y)), Ok(()));
        if i < 4 {
            assert!(tree.top().is_leaf());
        }
    }
    let top = tree.top();
    assert_eq!(top.children().len(), 4);
    assert!(top.members().is_empty());
    for child in top.children() {
        assert!(child.is_leaf());
    }
    assert_eq!(ids(top.children()[0].members()), vec![0, 1, 2]);
    assert!(top.children()[1].members().is_empty());
    assert!(top.children()[2].members().is_empty());
    assert_eq!(ids(top.children()[3].members()), vec![3, 4]);
    let half = UNIT / 2;
    assert_eq!(top.children()[0].bounds(), square(0, 0, half));
    assert_eq!(top.children()[1].bounds(), square(half as i32, 0, half));
    assert_eq!(top.children()[2].bounds(), square(0, half as i32, half));
    assert_eq!(top.children()[3].bounds(), square(half as i32, half as i32, half));
}

#[test]
fn four_members_do_not_split() {
    let mut tree = small();
    for i in 0..4 {
        tree.insert(ent(i), point(i as i32, 0)).unwrap();
    }
    assert!(tree.top().is_leaf());
    assert_eq!(ids(tree.top().members()), vec![0, 1, 2, 3]);
}

#[test]
fn split_routes_each_member_to_its_quadrant_in_order() {
    let mut tree = small();
    tree.insert(ent(0), point(7, 7)).unwrap();
    tree.insert(ent(1), point(0, 7)).unwrap();
    tree.insert(ent(2), point(7, 0)).unwrap();
    tree.insert(ent(3), point(1, 1)).unwrap();
    tree.insert(ent(4), point(6, 6)).unwrap();
    let top = tree.top();
    assert_eq!(ids(top.children()[0].members()), vec![3]);
    assert_eq!(ids(top.children()[1].members()), vec![2]);
    assert_eq!(ids(top.children()[2].members()), vec![1]);
    assert_eq!(ids(top.children()[3].members()), vec![0, 4]);
    assert!(well_placed(top));
}

#[test]
fn member_on_a_midline_goes_to_the_upper_quadrant() {
    let mut tree = small();
    for i in 0..4 {
        tree.insert(ent(i), point(0, 0)).unwrap();
    }
    tree.insert(ent(9), point(4, 4)).unwrap();
    assert_eq!(ids(tree.top().children()[3].members()), vec![9]);
    assert_eq!(ids(tree.top().children()[0].members()), vec![0, 1, 2, 3]);
}

#[test]
fn member_that_crosses_a_midline_stays_at_the_internal_node() {
    let mut tree = small();
    for i in 0..4 {
        tree.insert(ent(i), point(i as i32, 0)).unwrap();
    }
    tree.insert(ent(4), square(3, 3, 2)).unwrap();
    let top = tree.top();
    assert_eq!(top.children().len(), 4);
    assert_eq!(ids(top.members()), vec![4]);
    assert_eq!(ids(top.children()[0].members()), vec![0, 1, 2, 3]);
    // one more that crosses is appended at the internal node
    tree.insert(ent(5), square(0, 0, 8)).unwrap();
    assert_eq!(ids(tree.top().members()), vec![4, 5]);
    assert_eq!(tree.top().children().len(), 4);
    assert!(well_placed(tree.top()));
}

#[test]
fn an_internal_node_takes_more_than_four_members_that_cross() {
    let mut tree = small();
    for i in 0..7 {
        tree.insert(ent(i), square(3, 3, 2)).unwrap();
    }
    assert_eq!(tree.top().children().len(), 4);
    assert_eq!(ids(tree.top().members()), vec![0, 1, 2, 3, 4, 5, 6]);
    for child in tree.top().children() {
        assert!(child.is_leaf() && child.members().is_empty());
    }
}

#[test]
fn split_is_one_level_deep() {
    let mut tree = small();
    for i in 0..5 {
        tree.insert(ent(i), point(0, 0)).unwrap();
    }
    // all five are in one quadrant, which is not split before the next add
    let child = &tree.top().children()[0];
    assert!(child.is_leaf());
    assert_eq!(child.members().len(), 5);
    tree.insert(ent(5), point(0, 0)).unwrap();
    let child = &tree.top().children()[0];
    assert_eq!(child.children().len(), 4);
    assert_eq!(child.children()[0].members().len(), 6);
    assert!(child.children()[0].is_leaf());
}

#[test]
fn a_leaf_of_one_grid_step_is_not_split() {
    let mut tree = Quadtree::with_bounds(square(0, 0, 1)).unwrap();
    for i in 0..9 {
        tree.insert(ent(i), point(0, 0)).unwrap();
    }
    assert!(tree.top().is_leaf());
    assert_eq!(tree.top().members().len(), 9);
}

#[test]
fn a_leaf_of_odd_size_is_not_split() {
    let mut tree = Quadtree::with_bounds(square(0, 0, 6)).unwrap();
    for i in 0..6 {
        tree.insert(ent(i), point(0, 0)).unwrap();
    }
    // the root splits into quadrants of size 3, which do not split
    assert_eq!(tree.top().children().len(), 4);
    let child = &tree.top().children()[0];
    assert_eq!(child.bounds(), square(0, 0, 3));
    assert!(child.is_leaf());
    assert_eq!(child.members().len(), 6);
}

#[test]
fn insert_out_of_bounds_fails_and_changes_nothing() {
    let mut tree = small();
    tree.insert(ent(0), point(1, 1)).unwrap();
    let before = shape(tree.top());
    assert_eq!(tree.insert(ent(1), point(8, 0)), Err(QuadtreeError::OutOfBounds));
    assert_eq!(tree.insert(ent(1), point(-1, 0)), Err(QuadtreeError::OutOfBounds));
    assert_eq!(tree.insert(ent(1), square(6, 6, 3)), Err(QuadtreeError::OutOfBounds));
    assert_eq!(tree.insert(ent(1), square(0, 0, 9)), Err(QuadtreeError::OutOfBounds));
    assert_eq!(shape(tree.top()), before);
    assert_eq!(tree.insert(ent(1), square(0, 0, 8)), Ok(()));
}

#[test]
fn the_far_edge_of_the_unit_square_is_outside() {
    let mut tree = Quadtree::new();
    assert_eq!(tree.insert(ent(0), point(UNIT as i32, 0)), Err(QuadtreeError::OutOfBounds));
    assert_eq!(tree.insert(ent(0), point(UNIT as i32 - 1, UNIT as i32 - 1)), Ok(()));
}

#[test]
fn insert_is_idempotent() {
    let mut tree = small();
    tree.insert(ent(0), point(1, 1)).unwrap();
    let once = shape(tree.top());
    tree.insert(ent(0), point(1, 1)).unwrap();
    assert_eq!(shape(tree.top()), once);
}

#[test]
fn insert_is_idempotent_after_a_split() {
    let mut tree = small();
    for i in 0..5 {
        tree.insert(ent(i), point(i as i32 * 2 % 8, i as i32)).unwrap();
    }
    let once = shape(tree.top());
    for i in 0..5 {
        tree.insert(ent(i), point(i as i32 * 2 % 8, i as i32)).unwrap();
    }
    assert_eq!(shape(tree.top()), once);
}

#[test]
fn insert_then_remove_restores_the_tree() {
    let mut tree = small();
    tree.insert(ent(0), point(1, 1)).unwrap();
    tree.insert(ent(1), point(6, 6)).unwrap();
    let before = shape(tree.top());
    tree.insert(ent(2), point(3, 5)).unwrap();
    assert_ne!(shape(tree.top()), before);
    tree.remove(ent(2), point(3, 5));
    assert_eq!(shape(tree.top()), before);
}

#[test]
fn insert_then_remove_restores_a_split_tree() {
    let mut tree = small();
    for i in 0..5 {
        tree.insert(ent(i), point(i as i32, i as i32)).unwrap();
    }
    let before = shape(tree.top());
    tree.insert(ent(7), point(7, 0)).unwrap();
    tree.remove(ent(7), point(7, 0));
    assert_eq!(shape(tree.top()), before);
}

#[test]
fn insert_that_splits_is_not_undone_by_remove() {
    let mut tree = small();
    for i in 0..4 {
        tree.insert(ent(i), point(i as i32, 0)).unwrap();
    }
    tree.insert(ent(4), point(7, 7)).unwrap();
    tree.remove(ent(4), point(7, 7));
    assert_eq!(tree.top().children().len(), 4);
    assert_eq!(ids(tree.top().children()[0].members()), vec![0, 1, 2, 3]);
}

#[test]
fn remove_puts_the_last_member_in_the_gap() {
    let mut tree = small();
    for i in 0..4 {
        tree.insert(ent(i), point(i as i32, 0)).unwrap();
    }
    tree.remove(ent(1), point(1, 0));
    assert_eq!(ids(tree.top().members()), vec![0, 3, 2]);
    tree.remove(ent(2), point(2, 0));
    assert_eq!(ids(tree.top().members()), vec![0, 3]);
}

#[test]
fn remove_of_what_is_not_there_does_nothing() {
    let mut tree = small();
    for i in 0..5 {
        tree.insert(ent(i), point(i as i32, 7 - i as i32)).unwrap();
    }
    let before = shape(tree.top());
    tree.remove(ent(9), point(1, 1));
    // filed in another quadrant than the one that the extent leads to
    tree.remove(ent(0), point(7, 0));
    assert_eq!(shape(tree.top()), before);
}

#[test]
fn remove_merges_empty_quadrants() {
    let mut tree = small();
    for i in 0..5 {
        tree.insert(ent(i), point(0, 0)).unwrap();
    }
    assert_eq!(tree.top().children().len(), 4);
    for i in 0..4 {
        tree.remove(ent(i), point(0, 0));
        assert_eq!(tree.top().children().len(), 4);
    }
    tree.remove(ent(4), point(0, 0));
    assert!(tree.top().is_leaf());
    assert!(tree.top().members().is_empty());
}

#[test]
fn remove_merges_up_to_the_first_ancestor_that_is_not_empty() {
    let mut tree = small();
    // two levels below the root in quadrant 0, one entity in quadrant 3
    for i in 0..6 {
        tree.insert(ent(i), point(0, 0)).unwrap();
    }
    tree.insert(ent(10), point(7, 7)).unwrap();
    assert_eq!(tree.top().children()[0].children().len(), 4);
    for i in 0..6 {
        tree.remove(ent(i), point(0, 0));
    }
    // quadrant 0 is a leaf again, the root is not: quadrant 3 holds an entity
    assert_eq!(tree.top().children().len(), 4);
    assert!(tree.top().children()[0].is_leaf());
    assert!(tree.top().children()[0].members().is_empty());
    tree.remove(ent(10), point(7, 7));
    assert!(tree.top().is_leaf());
}

#[test]
fn merge_keeps_the_members_of_the_node_that_becomes_a_leaf() {
    let mut tree = small();
    for i in 0..4 {
        tree.insert(ent(i), square(3, 3, 2)).unwrap();
    }
    tree.insert(ent(4), point(0, 0)).unwrap();
    assert_eq!(tree.top().children().len(), 4);
    assert_eq!(ids(tree.top().members()), vec![0, 1, 2, 3]);
    tree.remove(ent(4), point(0, 0));
    assert!(tree.top().is_leaf());
    assert_eq!(ids(tree.top().members()), vec![0, 1, 2, 3]);
}

#[test]
fn removing_the_last_member_of_an_internal_node_merges_nothing() {
    let mut tree = small();
    for i in 0..4 {
        tree.insert(ent(i), point(i as i32, 0)).unwrap();
    }
    tree.insert(ent(4), square(3, 3, 2)).unwrap();
    tree.remove(ent(4), square(3, 3, 2));
    assert_eq!(tree.top().children().len(), 4);
    assert!(tree.top().members().is_empty());
}

#[test]
fn locate_finds_the_extent_on_file() {
    let mut tree = small();
    for i in 0..5 {
        tree.insert(ent(i), point(i as i32, i as i32)).unwrap();
    }
    tree.insert(ent(5), square(3, 3, 2)).unwrap();
    for i in 0..5 {
        assert_eq!(tree.locate(ent(i)), Some(point(i as i32, i as i32)));
    }
    assert_eq!(tree.locate(ent(5)), Some(square(3, 3, 2)));
    assert_eq!(tree.locate(ent(6)), None);
    assert_eq!(tree.locate(Entity { index: 0, generation: 2 }), None);
}

#[test]
fn find_node_stops_at_a_leaf_or_at_a_midline() {
    let mut tree = small();
    for i in 0..5 {
        tree.insert(ent(i), point(i as i32, i as i32)).unwrap();
    }
    let top = tree.top();
    assert_eq!(top.find_node(point(1, 1)).bounds(), square(0, 0, 4));
    assert_eq!(top.find_node(point(5, 2)).bounds(), square(4, 0, 4));
    assert_eq!(top.find_node(square(3, 3, 2)).bounds(), square(0, 0, 8));
    assert_eq!(top.find_node(square(0, 0, 8)).bounds(), square(0, 0, 8));
}

#[test]
fn find_gives_the_first_position() {
    let mut tree = small();
    tree.insert(ent(3), point(0, 0)).unwrap();
    tree.insert(ent(5), point(1, 0)).unwrap();
    assert_eq!(tree.top().find(ent(3)), Some(0));
    assert_eq!(tree.top().find(ent(5)), Some(1));
    assert_eq!(tree.top().find(ent(4)), None);
}

#[test]
fn relocate_of_an_entity_not_on_file_inserts_it() {
    let mut a = small();
    let mut b = small();
    for i in 0..4 {
        a.insert(ent(i), point(i as i32, 0)).unwrap();
        b.insert(ent(i), point(i as i32, 0)).unwrap();
    }
    a.relocate(ent(4), point(5, 5)).unwrap();
    b.insert(ent(4), point(5, 5)).unwrap();
    assert_eq!(shape(a.top()), shape(b.top()));
    assert_eq!(a.top().children().len(), 4);
}

#[test]
fn relocate_within_the_node_files_the_entity_anew() {
    let mut tree = small();
    tree.insert(ent(0), point(1, 1)).unwrap();
    tree.insert(ent(1), point(2, 2)).unwrap();
    tree.insert(ent(2), point(3, 3)).unwrap();
    tree.relocate(ent(0), point(6, 6)).unwrap();
    assert!(tree.top().is_leaf());
    assert_eq!(
        tree.top().members().clone(),
        vec![(ent(2), point(3, 3)), (ent(1), point(2, 2)), (ent(0), point(6, 6))]
    );
    assert_eq!(tree.locate(ent(0)), Some(point(6, 6)));
}

#[test]
fn relocate_within_the_node_is_remove_then_insert() {
    let mut a = small();
    let mut b = small();
    for i in 0..6 {
        a.insert(ent(i), point(i as i32, i as i32)).unwrap();
        b.insert(ent(i), point(i as i32, i as i32)).unwrap();
    }
    a.relocate(ent(1), point(2, 1)).unwrap();
    b.remove(ent(1), point(1, 1));
    b.insert(ent(1), point(2, 1)).unwrap();
    assert_eq!(shape(a.top()), shape(b.top()));
}

#[test]
fn relocate_keeps_a_sole_member_where_remove_then_insert_would_merge() {
    let mut a = small();
    for i in 0..4 {
        a.insert(ent(i), point(0, 0)).unwrap();
    }
    a.insert(ent(4), point(7, 7)).unwrap();
    for i in 0..4 {
        a.remove(ent(i), point(0, 0));
    }
    // the root has four quadrants, the one entity in quadrant 3
    assert_eq!(a.top().children().len(), 4);
    a.relocate(ent(4), point(6, 6)).unwrap();
    assert_eq!(a.top().children().len(), 4);
    assert_eq!(a.top().children()[3].members().clone(), vec![(ent(4), point(6, 6))]);
}

#[test]
fn relocate_into_a_quadrant_of_its_node_moves_the_entity_down() {
    let mut tree = small();
    for i in 0..4 {
        tree.insert(ent(i), point(i as i32, 0)).unwrap();
    }
    tree.insert(ent(4), square(3, 3, 2)).unwrap();
    assert_eq!(ids(tree.top().members()), vec![4]);
    // it shrinks, and now fits into quadrant 3
    tree.relocate(ent(4), square(4, 4, 1)).unwrap();
    assert!(tree.top().members().is_empty());
    assert_eq!(tree.top().children()[3].members().clone(), vec![(ent(4), square(4, 4, 1))]);
    assert!(well_placed(tree.top()));
}

#[test]
fn relocate_out_of_its_node_goes_through_the_root() {
    let mut tree = small();
    for i in 0..5 {
        tree.insert(ent(i), point(i as i32 % 4, 0)).unwrap();
    }
    tree.insert(ent(5), point(7, 7)).unwrap();
    // from quadrant 0 to quadrant 3
    tree.relocate(ent(0), point(5, 6)).unwrap();
    assert_eq!(ids(tree.top().children()[0].members()), vec![4, 1, 2, 3]);
    assert_eq!(ids(tree.top().children()[3].members()), vec![5, 0]);
    assert_eq!(tree.locate(ent(0)), Some(point(5, 6)));
    assert!(well_placed(tree.top()));
}

#[test]
fn relocate_out_of_its_node_merges_what_it_leaves_empty() {
    let mut tree = small();
    for i in 0..5 {
        tree.insert(ent(i), point(0, 0)).unwrap();
    }
    for i in 0..4 {
        tree.remove(ent(i), point(0, 0));
    }
    assert_eq!(tree.top().children().len(), 4);
    // the last entity grows until it crosses the midlines of the root
    tree.relocate(ent(4), square(0, 0, 8)).unwrap();
    assert!(tree.top().is_leaf());
    assert_eq!(tree.top().members().clone(), vec![(ent(4), square(0, 0, 8))]);
}

#[test]
fn relocate_out_of_bounds_fails_and_changes_nothing() {
    let mut tree = small();
    tree.insert(ent(0), point(1, 1)).unwrap();
    let before = shape(tree.top());
    assert_eq!(tree.relocate(ent(0), point(9, 9)), Err(QuadtreeError::OutOfBounds));
    assert_eq!(tree.relocate(ent(1), square(7, 7, 2)), Err(QuadtreeError::OutOfBounds));
    assert_eq!(shape(tree.top()), before);
}

#[test]
fn every_member_lies_within_its_node_after_many_operations() {
    let mut tree = Quadtree::with_bounds(square(0, 0, 64)).unwrap();
    let mut seed: u32 = 12345;
    let mut next = move || {
        seed = seed.wrapping_mul(1103515245).wrapping_add(12345);
        (seed >> 16) & 0x7fff
    };
    for round in 0..400 {
        let e = ent(next() % 40);
        let size = next() % 5;
        let b = square((next() % 64) as i32, (next() % 64) as i32, size);
        match round % 3 {
            0 => {
                let _ = tree.relocate(e, b);
            },
            1 => {
                let _ = tree.insert(e, b);
            },
            _ => {
                if let Some(old) = tree.locate(e) {
                    tree.remove(e, old);
                }
            },
        }
        assert!(well_placed(tree.top()));
    }
}

#[test]
fn points_never_leave_an_internal_node_with_four_empty_leaves() {
    fn tidy(node: &QuadtreeNode) -> bool {
        if node.is_leaf() {
            return true;
        }
        let all_empty = node.children().iter().all(|c| c.is_leaf() && c.members().is_empty());
        !all_empty && node.children().iter().all(tidy)
    }
    let mut tree = Quadtree::with_bounds(square(0, 0, 32)).unwrap();
    let mut seed: u32 = 99;
    let mut next = move || {
        seed = seed.wrapping_mul(1103515245).wrapping_add(12345);
        (seed >> 16) & 0x7fff
    };
    for round in 0..400 {
        let e = ent(next() % 25);
        let b = point((next() % 32) as i32, (next() % 32) as i32);
        if round % 2 == 0 {
            if tree.locate(e).is_none() {
                tree.insert(e, b).unwrap();
            }
        } else if let Some(old) = tree.locate(e) {
            tree.remove(e, old);
        }
        assert!(tidy(tree.top()));
    }
}

#[test]
fn leaves_stay_within_capacity_when_no_five_share_a_quadrant() {
    fn within(node: &QuadtreeNode) -> bool {
        if node.is_leaf() {
            return node.members().len() <= CAPACITY;
        }
        node.children().iter().all(within)
    }
    let mut tree = Quadtree::with_bounds(square(0, 0, 8)).unwrap();
    // one point in each cell of a four by four grid of cells of size two
    let mut i = 0;
    for x in 0..4 {
        for y in 0..4 {
            tree.insert(ent(i), point(2 * x, 2 * y)).unwrap();
            i += 1;
            assert!(within(tree.top()));
        }
    }
    for j in 0..i {
        let at = tree.locate(ent(j)).unwrap();
        tree.remove(ent(j), at);
        assert!(within(tree.top()));
    }
    assert!(tree.top().is_leaf());
}

#[test]
fn node_add_wants_the_extent_within_the_node() {
    let mut node = QuadtreeNode::new(square(0, 0, 4)).unwrap();
    assert_eq!(node.add(ent(0), point(4, 0)), Err(QuadtreeError::OutOfBounds));
    assert_eq!(node.add(ent(0), point(3, 3)), Ok(()));
    assert_eq!(node.members().clone(), vec![(ent(0), point(3, 3))]);
}

#[test]
fn node_add_adds_without_looking_for_the_entity() {
    let mut node = QuadtreeNode::new(square(0, 0, 4)).unwrap();
    node.add(ent(0), point(1, 1)).unwrap();
    node.add(ent(0), point(1, 1)).unwrap();
    assert_eq!(node.members().len(), 2);
}

#[test]
fn node_remove_tells_whether_the_merge_goes_on() {
    let mut node = QuadtreeNode::new(square(0, 0, 4)).unwrap();
    node.add(ent(0), point(1, 1)).unwrap();
    node.add(ent(1), point(2, 2)).unwrap();
    assert!(!node.remove(ent(7), point(1, 1)));
    assert!(!node.remove(ent(0), point(1, 1)));
    assert!(node.remove(ent(1), point(2, 2)));
    assert!(node.members().is_empty());
}

#[test]
fn batch_relocates_in_order_and_returns_what_it_turned_down() {
    let mut tree = small();
    let mut sys = SysUpdateQuadtree;
    let batch = vec![
        (ent(0), point(1, 1)),
        (ent(1), point(9, 9)),
        (ent(2), point(6, 6)),
        (ent(0), point(2, 2)),
        (ent(3), square(-1, 0, 2)),
    ];
    let rejected = sys.run(&mut tree, &batch);
    assert_eq!(rejected, vec![(ent(1), point(9, 9)), (ent(3), square(-1, 0, 2))]);
    assert_eq!(tree.top().members().clone(), vec![(ent(2), point(6, 6)), (ent(0), point(2, 2))]);
}

#[test]
fn batch_is_the_relocations_one_by_one() {
    let mut a = small();
    let mut b = small();
    let mut batch = Vec::new();
    for i in 0..12u32 {
        batch.push((ent(i % 7), point((i * 5 % 8) as i32, (i * 3 % 8) as i32)));
    }
    let rejected = SysUpdateQuadtree.run(&mut a, &batch);
    assert!(rejected.is_empty());
    for (e, x) in &batch {
        b.relocate(*e, *x).unwrap();
    }
    assert_eq!(shape(a.top()), shape(b.top()));
}

#[test]
fn empty_batch_changes_nothing() {
    let mut tree = small();
    tree.insert(ent(0), point(1, 1)).unwrap();
    let before = shape(tree.top());
    let rejected = SysUpdateQuadtree.run(&mut tree, &Vec::new());
    assert!(rejected.is_empty());
    assert_eq!(shape(tree.top()), before);
}

#[test]
fn clone_copies_the_whole_tree() {
    let mut tree = small();
    for i in 0..7 {
        tree.insert(ent(i), square(i as i32, 7 - i as i32, i % 2)).unwrap();
    }
    let copy = tree.clone();
    assert_eq!(shape(copy.top()), shape(tree.top()));
    tree.remove(ent(0), square(0, 7, 0));
    assert_ne!(shape(copy.top()), shape(tree.top()));
    assert_eq!(format!("{:?}", copy.top().bounds()), format!("{:?}", square(0, 0, 8)));
}

#[test]
fn the_entries_are_what_a_list_would_hold() {
    let mut tree = Quadtree::with_bounds(square(0, 0, 64)).unwrap();
    let mut list: Vec<(Entity, Bounds)> = Vec::new();
    let mut seed: u32 = 4242;
    let mut next = move || {
        seed = seed.wrapping_mul(1103515245).wrapping_add(12345);
        (seed >> 16) & 0x7fff
    };
    for round in 0..600 {
        let e = ent(next() % 30);
        let b = square((next() % 70) as i32 - 3, (next() % 70) as i32 - 3, next() % 6);
        if round % 4 == 3 {
            if let Some(at) = tree.locate(e) {
                tree.remove(e, at);
                let k = list.iter().position(|m| m.0 == e).unwrap();
                assert_eq!(list[k].1, at);
                list.remove(k);
            } else {
                assert!(list.iter().all(|m| m.0 != e));
            }
        } else {
            let fits = tree.bounds().contains(b);
            assert_eq!(tree.relocate(e, b).is_ok(), fits);
            if fits {
                list.retain(|m| m.0 != e);
                list.push((e, b));
            }
        }
        let mut held = tree.query_range(Position { x: 32, y: 32 }, 1000);
        held.sort_by_key(|m| m.0.index);
        let mut expected = list.clone();
        expected.sort_by_key(|m| m.0.index);
        assert_eq!(held, expected);
    }
}

#[test]
fn node_new_wants_a_region() {
    assert!(QuadtreeNode::new(square(0, 0, 0)).is_none());
    assert!(QuadtreeNode::new(square(0, i32::MAX, 2)).is_none());
    let node = QuadtreeNode::new(square(-8, -8, 16)).unwrap();
    assert!(node.is_leaf());
    assert!(node.members().is_empty());
    assert_eq!(node.bounds(), square(-8, -8, 16));
}

#[test]
fn insert_looks_for_the_entity_only_where_the_extent_belongs() {
    let mut tree = small();
    for i in 0..5 {
        tree.insert(ent(i), point(i as i32, 0)).unwrap();
    }
    // entity 0 is in quadrant 0; an insert into quadrant 3 files it a second time
    tree.insert(ent(0), point(7, 7)).unwrap();
    assert_eq!(ids(tree.top().children()[0].members()), vec![0, 1, 2, 3]);
    assert_eq!(ids(tree.top().children()[3].members()), vec![0]);
    // the first entry, a node before its children, is the one on file
    assert_eq!(tree.locate(ent(0)), Some(point(0, 0)));
}

#[test]
fn relocate_moves_the_entry_that_is_where_the_extent_belongs() {
    let mut tree = small();
    for i in 0..5 {
        tree.insert(ent(i), point(i as i32, 0)).unwrap();
    }
    tree.insert(ent(0), point(7, 7)).unwrap();
    tree.relocate(ent(0), point(6, 6)).unwrap();
    assert_eq!(ids(tree.top().children()[0].members()), vec![0, 1, 2, 3]);
    assert_eq!(tree.top().children()[3].members().clone(), vec![(ent(0), point(6, 6))]);
}
