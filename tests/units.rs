use ploc_bvh::dim2::{Aabb2d, IVec2};
use ploc_bvh::dim3::{Aabb3d, IVec3};
use ploc_bvh::morton::{grid_cell, morton_encode, split};
use ploc_bvh::search::{find_best_node, FindCache, ModIndex};
use ploc_bvh::{BvhNode, BvhVolume};

fn box2(min_x: i32, min_y: i32, max_x: i32, max_y: i32) -> Aabb2d {
    Aabb2d::from_min_max(IVec2::new(min_x, min_y), IVec2::new(max_x, max_y))
}

fn leaf(volume: Aabb2d, i: u32) -> BvhNode<Aabb2d> {
    BvhNode { volume, count: 1, start_index: i }
}

#[test]
fn split_spreads_bits_three_apart() {
    assert_eq!(split(0b1011, 2), 0b001_000_001_001);
    // Bits past 2^log_bits are dropped.
    assert_eq!(split(0b1_0000, 2), 0);
    assert_eq!(split(u64::MAX, 5), 0x9249_2492_4924_9249);
}

#[test]
fn morton_of_single_axes() {
    assert_eq!(morton_encode(1, 0, 0, 3), 0b001);
    assert_eq!(morton_encode(0, 1, 0, 3), 0b010);
    assert_eq!(morton_encode(0, 0, 1, 3), 0b100);
    assert_eq!(morton_encode(3, 0, 0, 0), 1);
}

#[test]
fn grid_cells_round_down_and_clamp() {
    assert_eq!(grid_cell(0), 32767);
    assert_eq!(grid_cell(1), 32768);
    assert_eq!(grid_cell(-65535), 0);
    assert_eq!(grid_cell(-70000), 0);
}

#[test]
fn box_morton_code_uses_centre_cells() {
    let b = box2(0, 0, 2, 4);
    // Centre (1, 2): cells 32768 and 32769.
    assert_eq!(b.morton_code(), morton_encode(32768, 32769, 0, 5));
    let c = Aabb3d::from_min_max(IVec3::new(-2, 0, 2), IVec3::new(0, 2, 4));
    assert_eq!(c.morton_code(), morton_encode(32766, 32768, 32770, 5));
}

#[test]
fn box_areas() {
    assert_eq!(box2(0, 0, 3, 4).area(), 12);
    assert_eq!(box2(5, 5, 5, 9).area(), 0);
    let c = Aabb3d::from_min_max(IVec3::new(0, 0, 0), IVec3::new(2, 3, 4));
    assert_eq!(c.area(), 2 * 3 + 3 * 4 + 4 * 2);
    let huge = Aabb3d::from_min_max(
        IVec3::new(i32::MIN, i32::MIN, i32::MIN),
        IVec3::new(i32::MAX, i32::MAX, i32::MAX),
    );
    assert_eq!(huge.area(), u64::MAX);
}

#[test]
fn merge_and_intersects() {
    let a = box2(0, 0, 2, 2);
    let b = box2(5, -1, 6, 1);
    assert_eq!(a.merge(&b), box2(0, -1, 6, 2));
    assert!(!a.intersects(&b));
    assert!(a.intersects(&box2(2, 2, 3, 3)));
    let inf = Aabb2d::infinity();
    assert!(inf.intersects(&a));
    assert_eq!(inf.merge(&a), inf);
}

#[test]
fn box_from_centre() {
    let b = Aabb3d::new(IVec3::new(1, 2, 3), IVec3::new(1, 1, 2));
    assert_eq!(b, Aabb3d::from_min_max(IVec3::new(0, 1, 1), IVec3::new(2, 3, 5)));
}

#[test]
fn mod_index_and_cache_cells() {
    assert_eq!(ModIndex::new(30).0, 2);
    let mut cache = FindCache::new();
    cache.set_front(ModIndex::new(3), 20, 99);
    // Step 3 left 99 for step 20; step 20 reads it back from column 20 % 14.
    assert_eq!(cache.back(ModIndex::new(20), 3), 99);
    assert_eq!(cache.back(ModIndex::new(20), 4), 0);
}

#[test]
fn best_neighbours_by_merge_cost() {
    // Boxes at x = 0, 10, 12 and 40: 10 and 12 pair up, 0 prefers 10,
    // and 40 prefers 12.
    let nodes = vec![
        leaf(box2(0, 0, 1, 1), 0),
        leaf(box2(10, 0, 11, 1), 1),
        leaf(box2(12, 0, 13, 1), 2),
        leaf(box2(40, 0, 41, 1), 3),
    ];
    let mut cache = FindCache::new();
    let best: Vec<usize> = (0..nodes.len()).map(|i| find_best_node(&mut cache, i, &nodes)).collect();
    assert_eq!(best, vec![1, 2, 1, 2]);
}

#[test]
fn best_neighbour_ties_go_to_first_index() {
    let b = box2(0, 0, 1, 1);
    let nodes: Vec<BvhNode<Aabb2d>> = (0..5).map(|i| leaf(b, i)).collect();
    let mut cache = FindCache::new();
    let best: Vec<usize> = (0..nodes.len()).map(|i| find_best_node(&mut cache, i, &nodes)).collect();
    assert_eq!(best, vec![1, 0, 0, 0, 0]);
}

#[test]
fn search_window_is_fourteen_wide() {
    // Node 0 is far from everything but node 15, which lies outside its
    // window; its best neighbour is then the nearest one inside.
    let mut nodes: Vec<BvhNode<Aabb2d>> =
        (0..16).map(|i| leaf(box2(1000 + i * 10, 0, 1001 + i * 10, 1), i as u32)).collect();
    nodes[0] = leaf(box2(0, 0, 1, 1), 0);
    nodes[15] = leaf(box2(2, 0, 3, 1), 15);
    let mut cache = FindCache::new();
    let best: Vec<usize> = (0..nodes.len()).map(|i| find_best_node(&mut cache, i, &nodes)).collect();
    assert_eq!(best[0], 1);
    assert_eq!(best[15], 1);
}

#[test]
fn best_neighbour_stays_in_window_with_any_cache() {
    let nodes: Vec<BvhNode<Aabb2d>> = (0..40).map(|i| leaf(box2(i * 3, 0, i * 3 + 1, 1), i as u32)).collect();
    let mut cache = FindCache::new();
    for k in 0..196 {
        cache.cells[k] = (k as u64 * 7919) % 13;
    }
    let best = find_best_node(&mut cache, 30, &nodes);
    assert!(best != 30 && best >= 16 && best <= 39);
    // Only row 30 % 14 was written.
    for r in 0..14 {
        for c in 0..14 {
            if r != 30 % 14 {
                assert_eq!(cache.cells[r * 14 + c], ((r * 14 + c) as u64 * 7919) % 13);
            }
        }
    }
}

#[test]
fn single_node_is_its_own_best() {
    let nodes = vec![leaf(box2(0, 0, 1, 1), 0)];
    let mut cache = FindCache::new();
    assert_eq!(find_best_node(&mut cache, 0, &nodes), 0);
}
