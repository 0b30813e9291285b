use ploc_bvh::debug::DumpLine;
use ploc_bvh::dim2::{Aabb2d, IVec2};
use ploc_bvh::dim3::{Aabb3d, IVec3};
use ploc_bvh::ray::{slab_test, RayTester};
use ploc_bvh::shape::ShapeTester;
use ploc_bvh::traverse::{Stack, TraverseTest};
use ploc_bvh::Bvh;

fn unit_box_at_ten() -> Bvh<Aabb3d, u32> {
    let b = Aabb3d::from_min_max(IVec3::new(10, 10, 10), IVec3::new(11, 11, 11));
    Bvh::new(1, vec![(42u32, b)])
}

#[test]
fn ray_along_x_misses_box() {
    let bvh = unit_box_at_ten();
    let mut stack = bvh.create_stack();
    let hits = bvh
        .cast_ray(&mut stack, IVec3::new(0, 0, 0), IVec3::new(1, 0, 0), 5, 1)
        .collect_remaining();
    assert!(hits.is_empty());
}

#[test]
fn diagonal_ray_hits_box() {
    // Direction (1, 1, 1) unnormalised: a length of 30 is t = 30 / sqrt(3).
    let bvh = unit_box_at_ten();
    let mut stack = bvh.create_stack();
    let hits = bvh
        .cast_ray(&mut stack, IVec3::new(0, 0, 0), IVec3::new(1, 1, 1), 1732, 100)
        .collect_remaining();
    assert_eq!(hits, vec![42]);
}

#[test]
fn diagonal_ray_stops_short() {
    // t_max = 9.9 ends before the box starts at t = 10.
    let bvh = unit_box_at_ten();
    let mut stack = bvh.create_stack();
    let hits = bvh
        .cast_ray(&mut stack, IVec3::new(0, 0, 0), IVec3::new(1, 1, 1), 99, 10)
        .collect_remaining();
    assert!(hits.is_empty());
}

#[test]
fn ray_pointing_away_misses() {
    let bvh = unit_box_at_ten();
    let mut stack = bvh.create_stack();
    let hits = bvh
        .cast_ray(&mut stack, IVec3::new(0, 0, 0), IVec3::new(-1, -1, -1), 100, 1)
        .collect_remaining();
    assert!(hits.is_empty());
}

#[test]
fn slab_test_exact_values() {
    // Box [2, 4] x [0, 10] seen from the origin along (1, 1): the x slab
    // admits t in [2, 4], the y slab t in [0, 10].
    let axes = vec![(2i64, 4i64, 0i64, 1i64), (0, 10, 0, 1)];
    assert!(slab_test(&axes, 2, 1));
    assert!(!slab_test(&axes, 19, 10));
    // Negative direction: from x = 10 moving left reaches x = 4 at t = 6.
    let back = vec![(2i64, 4i64, 10i64, -1i64)];
    assert!(slab_test(&back, 6, 1));
    assert!(!slab_test(&back, 59, 10));
    // Zero direction: the origin must lie inside the slab.
    let still = vec![(2i64, 4i64, 3i64, 0i64)];
    assert!(slab_test(&still, 0, 1));
    let outside = vec![(2i64, 4i64, 5i64, 0i64)];
    assert!(!slab_test(&outside, 100, 1));
}

#[test]
fn ray_in_two_dimensions() {
    let items = vec![
        (1u32, Aabb2d::from_min_max(IVec2::new(5, -1), IVec2::new(6, 1))),
        (2, Aabb2d::from_min_max(IVec2::new(5, 5), IVec2::new(6, 6))),
        (3, Aabb2d::from_min_max(IVec2::new(20, -1), IVec2::new(21, 1))),
    ];
    let bvh = Bvh::new(3, items);
    let mut stack = bvh.create_stack();
    let mut hits = bvh
        .cast_ray(&mut stack, IVec2::new(0, 0), IVec2::new(1, 0), 10, 1)
        .collect_remaining();
    hits.sort();
    assert_eq!(hits, vec![1]);
}

#[test]
fn ray_tester_accepts_enclosing_boxes() {
    let ray = RayTester::new(IVec3::new(0, 0, 0), IVec3::new(1, 1, 1), 1732, 100);
    let inner = Aabb3d::from_min_max(IVec3::new(10, 10, 10), IVec3::new(11, 11, 11));
    let outer = Aabb3d::from_min_max(IVec3::new(9, 9, 9), IVec3::new(12, 12, 12));
    assert!(ray.test(&inner));
    assert!(ray.test(&outer));
}

#[test]
fn shape_cast_pads_boxes() {
    // A box at y in [3, 4]; a ray along x at y = 0 misses it, a swept box
    // reaching up to y + 3 does not.
    let items = vec![(9u32, Aabb2d::from_min_max(IVec2::new(10, 3), IVec2::new(11, 4)))];
    let bvh = Bvh::new(1, items);
    let mut stack = bvh.create_stack();
    let by_ray = bvh
        .cast_ray(&mut stack, IVec2::new(0, 0), IVec2::new(1, 0), 20, 1)
        .collect_remaining();
    assert!(by_ray.is_empty());
    let shape = Aabb2d::from_min_max(IVec2::new(-3, -3), IVec2::new(3, 3));
    let by_shape = bvh
        .cast_shape(&mut stack, shape, IVec2::new(0, 0), IVec2::new(1, 0), 20, 1)
        .collect_remaining();
    assert_eq!(by_shape, vec![9]);
    // Too short a sweep stops before the padded box starts at x = 7.
    let short = bvh
        .cast_shape(&mut stack, shape, IVec2::new(0, 0), IVec2::new(1, 0), 6, 1)
        .collect_remaining();
    assert!(short.is_empty());
}

#[test]
fn shape_cast_in_three_dimensions() {
    let bvh = unit_box_at_ten();
    let shape = Aabb3d::from_min_max(IVec3::new(-10, -10, -10), IVec3::new(10, 10, 10));
    let tester = ShapeTester::new(shape, IVec3::new(0, 0, 0), IVec3::new(1, 0, 0), 5, 1);
    let mut stack = Stack::new();
    let hits = bvh.traverse(&mut stack, tester).collect_remaining();
    assert_eq!(hits, vec![42]);
}

#[test]
fn dump_of_singleton() {
    let bvh = unit_box_at_ten();
    assert_eq!(
        bvh.dump(),
        vec![DumpLine::Leaf { level: 0, index: 0 }, DumpLine::Item { level: 1, index: 0 }]
    );
}

#[test]
fn dump_visits_every_item_once() {
    let items: Vec<(u32, Aabb2d)> = (0..20)
        .map(|i| (i, Aabb2d::from_min_max(IVec2::new(i as i32 * 10, 0), IVec2::new(i as i32 * 10 + 5, 5))))
        .collect();
    let bvh = Bvh::new(20, items);
    let lines = bvh.dump();
    let mut item_lines: Vec<u32> = lines
        .iter()
        .filter_map(|l| match l {
            DumpLine::Item { index, .. } => Some(*index),
            _ => None,
        })
        .collect();
    item_lines.sort();
    assert_eq!(item_lines, (0..20).collect::<Vec<u32>>());
    assert_eq!(lines[0], DumpLine::Node { level: 0, index: 0 });
}

#[test]
fn identical_boxes_all_found() {
    let b = Aabb2d::from_min_max(IVec2::new(0, 0), IVec2::new(4, 4));
    let items: Vec<(u32, Aabb2d)> = (0..50).map(|i| (i, b)).collect();
    let bvh = Bvh::new(50, items);
    assert_eq!(bvh.n_items(), 50);
    assert_eq!(bvh.n_nodes(), 99);
    let mut stack = bvh.create_stack();
    let mut found = bvh
        .intersect_aabb(&mut stack, Aabb2d::from_min_max(IVec2::new(1, 1), IVec2::new(2, 2)))
        .collect_remaining();
    found.sort();
    assert_eq!(found, (0..50).collect::<Vec<u32>>());
}

#[test]
fn traverser_yields_one_at_a_time() {
    let items: Vec<(u32, Aabb2d)> = (0..5)
        .map(|i| (i, Aabb2d::from_min_max(IVec2::new(i as i32 * 100, 0), IVec2::new(i as i32 * 100 + 1, 1))))
        .collect();
    let bvh = Bvh::new(5, items);
    let mut stack = bvh.create_stack();
    let mut traverser =
        bvh.intersect_aabb(&mut stack, Aabb2d::from_min_max(IVec2::new(-10, -10), IVec2::new(1000, 10)));
    let mut seen = Vec::new();
    while let Some(t) = traverser.next() {
        seen.push(t);
    }
    assert_eq!(traverser.next(), None);
    seen.sort();
    assert_eq!(seen, vec![0, 1, 2, 3, 4]);
}

#[test]
fn dump_of_root_at_deeper_level() {
    let bvh = unit_box_at_ten();
    let mut out = Vec::new();
    ploc_bvh::debug::print_node(&mut out, &bvh, 0, 1);
    assert_eq!(out, vec![DumpLine::Leaf { level: 1, index: 0 }, DumpLine::Item { level: 2, index: 0 }]);
}
