use quadtree::geometry::{Bounds, Position, UNIT};

fn square(x: i32, y: i32, size: u32) -> Bounds {
    Bounds { pos: Position { x, y }, size }
}

#[test]
fn unit_is_a_power_of_two() {
    assert_eq!(UNIT, 1 << 16);
}

#[test]
fn split_gives_the_four_quadrants_in_order() {
    let root = square(0, 0, 8);
    assert_eq!(root.split(0), square(0, 0, 4));
    assert_eq!(root.split(1), square(4, 0, 4));
    assert_eq!(root.split(2), square(0, 4, 4));
    assert_eq!(root.split(3), square(4, 4, 4));
}

#[test]
fn split_keeps_the_corner_of_an_offset_square() {
    let region = square(-16, 32, 16);
    assert_eq!(region.split(0), square(-16, 32, 8));
    assert_eq!(region.split(1), square(-8, 32, 8));
    assert_eq!(region.split(2), square(-16, 40, 8));
    assert_eq!(region.split(3), square(-8, 40, 8));
}

#[test]
fn region_needs_a_size_and_grid_coordinates() {
    assert!(square(0, 0, 1).is_region());
    assert!(!square(0, 0, 0).is_region());
    assert!(square(i32::MAX, 0, 1).is_region());
    assert!(!square(i32::MAX, 0, 2).is_region());
    assert!(!square(0, i32::MAX, 2).is_region());
    assert!(square(i32::MIN, i32::MIN, u32::MAX).is_region());
    assert!(!square(1, 0, u32::MAX).is_region() || i64::from(u32::MAX) + 1 <= 0x8000_0000);
}

#[test]
fn only_even_sizes_from_two_split() {
    assert!(!square(0, 0, 0).can_split());
    assert!(!square(0, 0, 1).can_split());
    assert!(square(0, 0, 2).can_split());
    assert!(!square(0, 0, 3).can_split());
    assert!(square(0, 0, 65536).can_split());
}

#[test]
fn contains_is_half_open() {
    let region = square(0, 0, 8);
    assert!(region.contains(square(0, 0, 8)));
    assert!(region.contains(square(4, 4, 4)));
    assert!(!region.contains(square(4, 4, 5)));
    assert!(!region.contains(square(-1, 0, 2)));
    // a point covers the column and row of its corner
    assert!(region.contains(square(7, 7, 0)));
    assert!(!region.contains(square(8, 0, 0)));
    assert!(!region.contains(square(0, 8, 0)));
    assert!(region.contains(square(7, 7, 1)));
    assert!(!region.contains(square(7, 7, 2)));
}

#[test]
fn a_point_is_contained_by_nothing_of_size_zero() {
    assert!(!square(3, 3, 0).contains(square(3, 3, 0)));
}

#[test]
fn quadrant_of_points() {
    let root = square(0, 0, 8);
    assert_eq!(root.quadrant(square(0, 0, 0)), Some(0));
    assert_eq!(root.quadrant(square(3, 3, 0)), Some(0));
    assert_eq!(root.quadrant(square(4, 3, 0)), Some(1));
    assert_eq!(root.quadrant(square(3, 4, 0)), Some(2));
    assert_eq!(root.quadrant(square(4, 4, 0)), Some(3));
    assert_eq!(root.quadrant(square(7, 7, 0)), Some(3));
}

#[test]
fn quadrant_of_squares() {
    let root = square(0, 0, 8);
    assert_eq!(root.quadrant(square(0, 0, 4)), Some(0));
    assert_eq!(root.quadrant(square(4, 0, 4)), Some(1));
    assert_eq!(root.quadrant(square(0, 4, 4)), Some(2));
    assert_eq!(root.quadrant(square(4, 4, 4)), Some(3));
    // crossing the midline of x, of y, of both
    assert_eq!(root.quadrant(square(3, 0, 2)), None);
    assert_eq!(root.quadrant(square(0, 3, 2)), None);
    assert_eq!(root.quadrant(square(3, 3, 2)), None);
    assert_eq!(root.quadrant(square(0, 0, 8)), None);
    // touching the midline from below is not crossing it
    assert_eq!(root.quadrant(square(2, 2, 2)), Some(0));
}

#[test]
fn quadrant_goes_by_the_midlines_alone() {
    // what lies beyond the square is still on one side of each midline
    let root = square(0, 0, 8);
    assert_eq!(root.quadrant(square(100, -100, 3)), Some(1));
    assert_eq!(root.quadrant(square(-100, 100, 3)), Some(2));
}

#[test]
fn min_sq_dist_is_zero_inside() {
    let region = square(0, 0, 8);
    assert_eq!(region.min_sq_dist(Position { x: 0, y: 0 }), 0);
    assert_eq!(region.min_sq_dist(Position { x: 4, y: 7 }), 0);
    assert_eq!(region.min_sq_dist(Position { x: 8, y: 8 }), 0);
}

#[test]
fn min_sq_dist_to_an_edge_and_to_a_corner() {
    let region = square(0, 0, 8);
    // off one axis only: the distance to the nearer edge
    assert_eq!(region.min_sq_dist(Position { x: 11, y: 4 }), 9);
    assert_eq!(region.min_sq_dist(Position { x: 4, y: -5 }), 25);
    // off both axes: the distance to the corner
    assert_eq!(region.min_sq_dist(Position { x: 11, y: 12 }), 9 + 16);
    assert_eq!(region.min_sq_dist(Position { x: -3, y: -4 }), 25);
}

#[test]
fn min_sq_dist_of_a_point() {
    let point = square(10, 20, 0);
    assert_eq!(point.min_sq_dist(Position { x: 10, y: 20 }), 0);
    assert_eq!(point.min_sq_dist(Position { x: 13, y: 24 }), 25);
    assert_eq!(point.min_sq_dist(Position { x: 7, y: 16 }), 25);
}

#[test]
fn min_sq_dist_at_the_ends_of_the_grid() {
    let region = square(i32::MIN, i32::MIN, 1);
    let far = Position { x: i32::MAX, y: i32::MAX };
    let d: u128 = (i32::MAX as i64 - (i32::MIN as i64 + 1)) as u128;
    assert_eq!(region.min_sq_dist(far), 2 * d * d);
}

#[test]
fn contained_square_is_no_nearer() {
    let outer = square(0, 0, 16);
    let inner = square(4, 8, 4);
    for (x, y) in [(-5, -5), (20, 3), (6, 30), (5, 9), (0, 0), (16, 16)] {
        let target = Position { x, y };
        assert!(outer.min_sq_dist(target) <= inner.min_sq_dist(target));
    }
}

#[test]
fn each_contained_square_that_crosses_no_midline_has_one_quadrant() {
    let root = square(0, 0, 8);
    for x in 0..8 {
        for y in 0..8 {
            for size in 0..4u32 {
                let b = square(x, y, size);
                if !root.contains(b) {
                    continue;
                }
                let holders: Vec<usize> = (0..4).filter(|i| root.split(*i).contains(b)).collect();
                match root.quadrant(b) {
                    Some(i) => assert_eq!(holders, vec![i]),
                    None => assert!(holders.is_empty()),
                }
            }
        }
    }
}
