//! The spatial index: insertion, range queries, and its boundary rules.

use satsim::quadtree::{Box2d, Point, QuadTree};

fn world_100() -> Box2d {
    Box2d::new(Point::new(0, 100), Point::new(100, 0))
}

#[test]
fn box_contains_is_inclusive() {
    let b = world_100();
    assert!(b.contains(&Point::new(0, 0)));
    assert!(b.contains(&Point::new(100, 100)));
    assert!(b.contains(&Point::new(50, 99)));
    assert!(!b.contains(&Point::new(101, 50)));
    assert!(!b.contains(&Point::new(50, -1)));
    assert!(!b.contains(&Point::new(-1, 50)));
}

#[test]
fn box_intersection() {
    let b = world_100();
    let other = Box2d::new(Point::new(90, 120), Point::new(120, 90));
    assert!(b.intersects_box(&other));
    let far = Box2d::new(Point::new(200, 300), Point::new(300, 200));
    assert!(!b.intersects_box(&far));
}

#[test]
fn box_subdivide_quadrants() {
    let b = world_100();
    let quads = b.subdivide();
    assert_eq!(quads.len(), 4);
    // north-west, north-east, south-east, south-west
    assert_eq!(quads[0].top_left, Point::new(0, 100));
    assert_eq!(quads[0].btm_right, Point::new(50, 50));
    assert_eq!(quads[1].top_left, Point::new(50, 100));
    assert_eq!(quads[1].btm_right, Point::new(100, 50));
    assert_eq!(quads[2].top_left, Point::new(50, 50));
    assert_eq!(quads[2].btm_right, Point::new(100, 0));
    assert_eq!(quads[3].top_left, Point::new(0, 50));
    assert_eq!(quads[3].btm_right, Point::new(50, 0));
}

#[test]
fn dist_sq_matches_formula() {
    let a = Point::new(3, 4);
    let origin = Point::new(0, 0);
    assert_eq!(a.dist_sq(&origin), 25);
    assert_eq!(origin.dist_sq(&a), 25);
    assert_eq!(a.dist_sq(&a), 0);
}

/// Quadtree completeness: a query over the whole root boundary returns
/// every inserted in-bounds point exactly once.
#[test]
fn query_root_returns_everything_once() {
    let mut tree: QuadTree<usize> = QuadTree::new(world_100(), 2);
    let points = vec![
        Point::new(10, 10),
        Point::new(90, 90),
        Point::new(10, 90),
        Point::new(90, 10),
        Point::new(50, 50),
        Point::new(51, 50),
        Point::new(50, 51),
        Point::new(12, 13),
        Point::new(0, 0),
        Point::new(100, 100),
    ];
    for (id, p) in points.iter().enumerate() {
        assert!(tree.insert(*p, id));
    }
    let found = tree.query_range(world_100());
    assert_eq!(found.len(), points.len());
    for (id, p) in points.iter().enumerate() {
        let hits = found
            .iter()
            .filter(|e| e.value == id && e.point == *p)
            .count();
        assert_eq!(hits, 1);
    }
}

/// Quadtree rejection: a point strictly outside the root boundary is
/// refused and never appears in any later query.
#[test]
fn out_of_bounds_point_rejected_and_never_seen() {
    let mut tree: QuadTree<u32> = QuadTree::new(world_100(), 4);
    assert!(tree.insert(Point::new(5, 5), 1));
    assert!(!tree.insert(Point::new(150, 50), 2));
    assert!(!tree.insert(Point::new(-5, 50), 3));
    assert!(!tree.insert(Point::new(50, 101), 4));
    let found = tree.query_range(Box2d::new(Point::new(-1000, 1000), Point::new(1000, -1000)));
    assert_eq!(found.len(), 1);
    assert_eq!(found[0].value, 1);
}

#[test]
fn partial_range_query_filters() {
    let mut tree: QuadTree<usize> = QuadTree::new(world_100(), 1);
    for i in 0..10usize {
        let x = (i as i64) * 10;
        assert!(tree.insert(Point::new(x, x), i));
    }
    // only the south-west corner
    let found = tree.query_range(Box2d::new(Point::new(0, 35), Point::new(35, 0)));
    let mut ids: Vec<usize> = found.iter().map(|e| e.value).collect();
    ids.sort();
    assert_eq!(ids, vec![0, 1, 2, 3]);
}

/// Coincident points past the capacity stop subdividing once the depth
/// budget is spent and are still all stored and found.
#[test]
fn coincident_points_terminate_and_are_kept() {
    let mut tree: QuadTree<usize> = QuadTree::new(world_100(), 2);
    for id in 0..10usize {
        assert!(tree.insert(Point::new(33, 66), id));
    }
    let found = tree.query_range(world_100());
    assert_eq!(found.len(), 10);
    for id in 0..10usize {
        assert_eq!(found.iter().filter(|e| e.value == id).count(), 1);
    }
}

#[test]
fn empty_tree_query_is_empty() {
    let tree: QuadTree<usize> = QuadTree::new(world_100(), 4);
    assert_eq!(tree.query_range(world_100()).len(), 0);
}
