use ploc_bvh::dim2::{Aabb2d, BvhAabb2d, IVec2};
use ploc_bvh::dim3::{Aabb3d, IVec3};
use ploc_bvh::intersect::IntersectTester;
use ploc_bvh::morton::morton_encode;
use ploc_bvh::traverse::Stack;
use ploc_bvh::{Bvh, BvhNode, BvhVolume};

fn box2(min_x: i32, min_y: i32, max_x: i32, max_y: i32) -> Aabb2d {
    Aabb2d::from_min_max(IVec2::new(min_x, min_y), IVec2::new(max_x, max_y))
}

fn box3(min: (i32, i32, i32), max: (i32, i32, i32)) -> Aabb3d {
    Aabb3d::from_min_max(IVec3::new(min.0, min.1, min.2), IVec3::new(max.0, max.1, max.2))
}

fn collect<V: BvhVolume, T: Copy>(bvh: &Bvh<V, T>, query: V) -> Vec<T> {
    let mut stack = bvh.create_stack();
    let mut traverser = bvh.intersect_aabb(&mut stack, query);
    traverser.collect_remaining()
}

/// The nodes reachable from the root, as (index, node) pairs.
fn live_nodes<V: BvhVolume>(nodes: &[BvhNode<V>]) -> Vec<(usize, BvhNode<V>)> {
    let mut out = Vec::new();
    if nodes.is_empty() {
        return out;
    }
    let mut stack = vec![0usize];
    while let Some(i) = stack.pop() {
        let node = nodes[i];
        out.push((i, node));
        if node.count == 0 {
            stack.push(node.start_index as usize + 1);
            stack.push(node.start_index as usize);
        }
    }
    out
}

fn encloses3(outer: &Aabb3d, inner: &Aabb3d) -> bool {
    outer.min.x <= inner.min.x
        && outer.min.y <= inner.min.y
        && outer.min.z <= inner.min.z
        && inner.max.x <= outer.max.x
        && inner.max.y <= outer.max.y
        && inner.max.z <= outer.max.z
}

fn overlaps3(a: &Aabb3d, b: &Aabb3d) -> bool {
    a.min.x <= b.max.x
        && b.min.x <= a.max.x
        && a.min.y <= b.max.y
        && b.min.y <= a.max.y
        && a.min.z <= b.max.z
        && b.min.z <= a.max.z
}

struct Lcg(u64);

impl Lcg {
    fn next(&mut self) -> u64 {
        self.0 = self.0.wrapping_mul(6364136223846793005).wrapping_add(1442695040888963407);
        self.0 >> 33
    }

    fn range(&mut self, lo: i32, hi: i32) -> i32 {
        lo + (self.next() % ((hi - lo + 1) as u64)) as i32
    }
}

fn random_boxes(rng: &mut Lcg, n: usize) -> Vec<Aabb3d> {
    (0..n)
        .map(|_| {
            let c = (rng.range(-2500, 2500), rng.range(-2500, 2500), rng.range(-2500, 2500));
            let h = (rng.range(100, 500), rng.range(100, 500), rng.range(100, 500));
            Aabb3d::new(IVec3::new(c.0, c.1, c.2), IVec3::new(h.0, h.1, h.2))
        })
        .collect()
}

#[test]
fn test_morton_encode() {
    let (x, y, z) = (6.7, 19.3, 2.);
    let morton = morton_encode(x as usize, y as usize, z as usize, 3);
    // Bits come out as zyx_zyx_zyx
    assert_eq!(morton, 0b010_000_001_111_010);

    let (x, y, z) = (6000, 3000, 1234);
    let morton = morton_encode(x as usize, y as usize, z as usize, 4);
    assert_eq!(morton, 0b001_010_101_011_011_110_101_011_111_010_000_100_000);
}

#[test]
fn test_bvh_new() {
    // Centres and half sizes in tenths.
    let items = vec![
        (1, Aabb2d::new(IVec2::new(10, 10), IVec2::new(20, 20))),
        (2, Aabb2d::new(IVec2::new(20, 20), IVec2::new(30, 30))),
        (3, Aabb2d::new(IVec2::new(9, 9), IVec2::new(19, 19))),
        (4, Aabb2d::new(IVec2::new(2, 2), IVec2::new(22, 22))),
        (5, Aabb2d::new(IVec2::new(10, 10), IVec2::new(50, 50))),
    ];
    let bvh = BvhAabb2d::new(items.len(), items);
    // The number of items should match the input
    assert_eq!(bvh.n_items(), 5);
    // Some of the nodes should have gotten merged
    assert!(bvh.n_items() < 5 * 2 - 1);
}

#[test]
fn empty_hierarchy() {
    let bvh: Bvh<Aabb2d, u32> = Bvh::new(0, Vec::new());
    assert_eq!(bvh.n_items(), 0);
    assert_eq!(bvh.n_nodes(), 0);
    assert!(collect(&bvh, box2(-100, -100, 100, 100)).is_empty());
}

#[test]
fn empty_input_with_capacity() {
    let bvh: Bvh<Aabb2d, u32> = Bvh::new(4, Vec::new());
    assert_eq!(bvh.n_items(), 0);
    assert_eq!(bvh.n_nodes(), 0);
}

#[test]
fn singleton_queries() {
    // One unit box, payload 7; coordinates in tenths.
    let bvh = Bvh::new(1, vec![(7u32, box2(0, 0, 10, 10))]);
    assert_eq!(bvh.n_items(), 1);
    assert_eq!(bvh.n_nodes(), 1);
    assert_eq!(collect(&bvh, box2(5, 5, 20, 20)), vec![7]);
    assert!(collect(&bvh, box2(20, 20, 30, 30)).is_empty());
}

#[test]
fn five_boxes_merge_and_query() {
    // (min, max) pairs in tenths: (1,2), (2,3), (0.9,1.9), (0.2,2.2), (1,5).
    let items = vec![
        (1u32, box2(10, 10, 20, 20)),
        (2, box2(20, 20, 30, 30)),
        (3, box2(9, 9, 19, 19)),
        (4, box2(2, 2, 22, 22)),
        (5, box2(10, 10, 50, 50)),
    ];
    let bvh = Bvh::new(items.len(), items);
    assert_eq!(bvh.n_items(), 5);
    assert_eq!(bvh.n_nodes(), 9);
    // Leaf merging leaves dead nodes behind: fewer than 9 stay reachable.
    assert!(live_nodes(bvh.nodes()).len() < 9);
    let mut found = collect(&bvh, box2(5, 5, 30, 30));
    found.sort();
    assert_eq!(found, vec![1, 2, 3, 4, 5]);
}

#[test]
fn thousand_random_boxes_match_brute_force() {
    let mut rng = Lcg(1);
    let boxes = random_boxes(&mut rng, 1000);
    let items: Vec<(usize, Aabb3d)> = boxes.iter().copied().enumerate().collect();
    let bvh = Bvh::new(items.len(), items);
    assert_eq!(bvh.n_items(), 1000);
    assert!(bvh.n_nodes() < 2000);
    for _ in 0..100 {
        let c = (rng.range(-2500, 2500), rng.range(-2500, 2500), rng.range(-2500, 2500));
        let h = (rng.range(100, 500), rng.range(100, 500), rng.range(100, 500));
        let query = Aabb3d::new(IVec3::new(c.0, c.1, c.2), IVec3::new(h.0, h.1, h.2));
        let mut found = collect(&bvh, query);
        found.sort();
        let expected: Vec<usize> =
            (0..boxes.len()).filter(|&i| overlaps3(&boxes[i], &query)).collect();
        assert_eq!(found, expected);
    }
}

#[test]
fn built_tree_is_well_formed() {
    let mut rng = Lcg(7);
    let boxes = random_boxes(&mut rng, 300);
    let items: Vec<(usize, Aabb3d)> = boxes.iter().copied().enumerate().collect();
    let bvh = Bvh::new(items.len(), items);
    let nodes = bvh.nodes();
    let stored = bvh.items();
    assert_eq!(stored.len(), 300);
    assert!(nodes.len() <= 2 * 300 - 1);
    // Every item is in exactly one reachable leaf, and each payload once.
    let mut seen = vec![0u32; stored.len()];
    let mut payloads: Vec<usize> = stored.iter().map(|it| it.t).collect();
    payloads.sort();
    assert_eq!(payloads, (0..300).collect::<Vec<_>>());
    let root = nodes[0].volume;
    for (_, node) in live_nodes(nodes) {
        assert!(encloses3(&root, &node.volume));
        if node.count == 0 {
            let l = nodes[node.start_index as usize];
            let r = nodes[node.start_index as usize + 1];
            assert!(encloses3(&node.volume, &l.volume));
            assert!(encloses3(&node.volume, &r.volume));
        } else {
            for k in node.start_index..node.start_index + node.count {
                seen[k as usize] += 1;
                assert!(encloses3(&node.volume, &stored[k as usize].volume));
            }
        }
    }
    assert!(seen.iter().all(|&c| c == 1));
    // Nodes the root cannot reach carry the dead marker.
    let live: Vec<usize> = live_nodes(nodes).iter().map(|(i, _)| *i).collect();
    for (i, node) in nodes.iter().enumerate() {
        if !live.contains(&i) {
            assert_eq!((node.count, node.start_index), (0, 0));
        }
    }
    let leaves = live_nodes(nodes).iter().filter(|(_, n)| n.count > 0).count();
    let interiors = live_nodes(nodes).iter().filter(|(_, n)| n.count == 0).count();
    assert_eq!(interiors + 1, leaves);
}

#[test]
fn traversal_is_repeatable() {
    let mut rng = Lcg(3);
    let boxes = random_boxes(&mut rng, 200);
    let items: Vec<(usize, Aabb3d)> = boxes.iter().copied().enumerate().collect();
    let bvh = Bvh::new(items.len(), items);
    let query = box3((-1000, -1000, -1000), (1000, 1000, 1000));
    let mut stack = Stack::new();
    let first = bvh.traverse(&mut stack, IntersectTester::new(query)).collect_remaining();
    let second = bvh.traverse(&mut stack, IntersectTester::new(query)).collect_remaining();
    assert!(!first.is_empty());
    assert_eq!(first, second);
}

#[test]
fn leaves_follow_morton_order() {
    // Three boxes on a line, given out of order; sorting by Morton code
    // pairs the two left ones first, so they lead the item order.
    let items = vec![
        (1u32, box2(100, 0, 110, 10)),
        (2, box2(0, 0, 10, 10)),
        (3, box2(50, 0, 60, 10)),
    ];
    let bvh = Bvh::new(3, items);
    let order: Vec<u32> = bvh.items().iter().map(|it| it.t).collect();
    assert_eq!(order, vec![2, 3, 1]);
}
