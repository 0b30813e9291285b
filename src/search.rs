//! The neighbour search of the builder: for each node of a level, the
//! node within `SEARCH_RADIUS` places whose merge with it costs least.
use vstd::prelude::*;

use crate::{BvhNode, BvhVolume};

verus! {

pub const SEARCH_RADIUS: usize = 14;

/// `SEARCH_RADIUS` as a mathematical integer.
pub open spec fn radius() -> int {
    SEARCH_RADIUS as int
}

proof fn lemma_mod_distinct(a: int, b: int)
    requires
        0 <= a < b < a + radius(),
    ensures
        a % radius() != b % radius(),
{
    assert(a % 14 != b % 14) by (nonlinear_arith)
        requires
            0 <= a < b < a + 14,
    ;
}

proof fn lemma_cell_distinct(r1: int, c1: int, r2: int, c2: int)
    requires
        0 <= c1 < radius(),
        0 <= c2 < radius(),
        r1 != r2 || c1 != c2,
    ensures
        r1 * radius() + c1 != r2 * radius() + c2,
{
    assert(r1 * 14 + c1 != r2 * 14 + c2) by (nonlinear_arith)
        requires
            0 <= c1 < 14,
            0 <= c2 < 14,
            r1 != r2 || c1 != c2,
    ;
}

/// The first node after `index` whose column in the cache is `c`: the
/// only later node within reach that step `index` could write there.
pub open spec fn next_in_column(index: int, c: int) -> int {
    index + 1 + (c - (index + 1)) % radius()
}

proof fn lemma_next_in_column(index: int, k: int)
    requires
        index < k <= index + radius(),
    ensures
        next_in_column(index, k % radius()) == k,
{
    assert(index + 1 + (k % 14 - (index + 1)) % 14 == k) by (nonlinear_arith)
        requires
            index < k <= index + 14,
    ;
}

/// An index reduced modulo `SEARCH_RADIUS`.
#[derive(Clone, Copy)]
pub struct ModIndex(pub usize);

impl ModIndex {
    pub fn new(index: usize) -> (r: Self)
        ensures
            r.0 == (index as int) % radius(),
    {
        ModIndex(index % SEARCH_RADIUS)
    }
}

/// A `SEARCH_RADIUS` by `SEARCH_RADIUS` table of merge costs, addressed by
/// node indices modulo `SEARCH_RADIUS`. Row `i % R` holds the costs that
/// step `i` computed for the nodes after it; a later step reads them back
/// from its column.
pub struct FindCache {
    pub cells: Vec<u64>,
}

/// The cost of merging nodes `a` and `b` of a level, the lower index first.
pub open spec fn pair_cost<V: BvhVolume>(nodes: Seq<BvhNode<V>>, a: int, b: int) -> u64 {
    if a < b {
        nodes[a].volume.spec_merge(nodes[b].volume).spec_area()
    } else {
        nodes[b].volume.spec_merge(nodes[a].volume).spec_area()
    }
}

/// `j` is a neighbour of `i` in a level of `len` nodes.
pub open spec fn in_window(i: int, j: int, len: int) -> bool {
    0 <= j < len && j != i && i - radius() <= j <= i + radius()
}

/// `best` is the neighbour of `i` whose merge with it costs least, the
/// first one in index order among equal costs.
pub open spec fn is_best<V: BvhVolume>(nodes: Seq<BvhNode<V>>, i: int, best: int) -> bool {
    &&& in_window(i, best, nodes.len() as int)
    &&& forall|j: int|
        #[trigger] in_window(i, j, nodes.len() as int) ==> pair_cost(nodes, i, best) <= pair_cost(
            nodes,
            i,
            j,
        ) && (pair_cost(nodes, i, j) == pair_cost(nodes, i, best) ==> best <= j)
}

impl FindCache {
    /// Before step `i`: each of the last `SEARCH_RADIUS` steps `j` left the
    /// cost of `(j, i)`, which is all that step `i` reads.
    pub open spec fn column_ready<V: BvhVolume>(&self, nodes: Seq<BvhNode<V>>, i: int) -> bool {
        forall|j: int|
            i - radius() <= j < i && 0 <= j ==> self.cell(j % radius(), i % radius())
                == #[trigger] pair_cost(nodes, j, i)
    }

    pub open spec fn wf(&self) -> bool {
        self.cells@.len() == 196
    }

    pub open spec fn cell(&self, row: int, col: int) -> u64 {
        self.cells@[row * 14 + col]
    }

    /// Before step `i`: each step `j` among the last `SEARCH_RADIUS` ones
    /// left the cost of `(j, k)` for every `k` from `i` to `j + R`.
    pub open spec fn ready_for<V: BvhVolume>(&self, nodes: Seq<BvhNode<V>>, i: int) -> bool {
        forall|j: int, k: int|
            i - radius() <= j < i <= k <= j + radius() && 0 <= j && k < nodes.len()
                ==> self.cell(j % radius(), k % radius()) == #[trigger] pair_cost(nodes, j, k)
    }

    pub fn new() -> (r: Self)
        ensures
            r.wf(),
    {
        FindCache { cells: vec![0u64; SEARCH_RADIUS * SEARCH_RADIUS] }
    }

    /// The cost that step `other` left for the step of `mod_index`.
    pub fn back(&self, mod_index: ModIndex, other: usize) -> (r: u64)
        requires
            self.wf(),
            mod_index.0 < SEARCH_RADIUS,
        ensures
            r == self.cell((other as int) % radius(), mod_index.0 as int),
    {
        let row = other % SEARCH_RADIUS;
        let col = mod_index.0;
        assert(row * 14 + col < 196) by (nonlinear_arith)
            requires
                row < 14,
                col < 14,
        ;
        self.cells[row * SEARCH_RADIUS + col]
    }

    /// Leaves `value` for the later step `other`.
    pub fn set_front(&mut self, mod_index: ModIndex, other: usize, value: u64)
        requires
            old(self).wf(),
            mod_index.0 < SEARCH_RADIUS,
        ensures
            final(self).wf(),
            final(self).cells@ == old(self).cells@.update(
                (mod_index.0 as int) * radius() + (other as int) % radius(),
                value,
            ),
    {
        let col = other % SEARCH_RADIUS;
        let row = mod_index.0;
        assert(row * 14 + col < 196) by (nonlinear_arith)
            requires
                row < 14,
                col < 14,
        ;
        self.cells.set(row * SEARCH_RADIUS + col, value);
    }
}

impl Default for FindCache {
    fn default() -> (r: Self)
        ensures
            r.wf(),
    {
        FindCache::new()
    }
}

/// The neighbour of node `index` whose merge with it costs least (the
/// first in index order among equal costs). Costs with earlier nodes are
/// read from the cache; those with later nodes are computed and left in
/// row `index % SEARCH_RADIUS`, the only row written.
///
/// Whatever the cache holds, the result is a neighbour of `index` (or
/// `index` itself when it has none); where the cache holds the costs this
/// step reads, it is the best neighbour.
pub fn find_best_node<V: BvhVolume>(cache: &mut FindCache, index: usize, nodes: &Vec<BvhNode<V>>) -> (best: usize)
    requires
        old(cache).wf(),
        index < nodes@.len(),
    ensures
        final(cache).wf(),
        nodes@.len() >= 2 ==> in_window(index as int, best as int, nodes@.len() as int),
        nodes@.len() == 1 ==> best == index,
        nodes@.len() >= 2 && old(cache).column_ready(nodes@, index as int) ==> is_best(nodes@, index as int, best as int),
        forall|r: int, c: int|
            0 <= r < radius() && 0 <= c < radius() && r != (index as int) % radius()
                ==> #[trigger] final(cache).cell(r, c) == old(cache).cell(r, c),
        forall|k: int|
            index < k <= index + radius() && k < nodes@.len() ==> final(cache).cell(
                (index as int) % radius(),
                k % radius(),
            ) == #[trigger] pair_cost(nodes@, index as int, k),
        forall|c: int|
            0 <= c < radius() && next_in_column(index as int, c) >= nodes@.len()
                ==> #[trigger] final(cache).cell((index as int) % radius(), c) == old(cache).cell(
                (index as int) % radius(),
                c,
            ),
        old(cache).ready_for(nodes@, index as int) ==> final(cache).ready_for(nodes@, index + 1),
{
    let ghost len = nodes@.len() as int;
    let ghost i = index as int;
    let ghost exact = old(cache).column_ready(nodes@, i);
    let mod_index = ModIndex::new(index);
    let mut best_node: usize = index;
    let mut best_area: u64 = 0;
    let mut found = false;
    let begin: usize = if index >= SEARCH_RADIUS { index - SEARCH_RADIUS } else { 0 };
    let mut other: usize = begin;
    while other < index
        invariant
            cache.wf(),
            cache.cells@ == old(cache).cells@,
            exact == old(cache).column_ready(nodes@, i),
            len == nodes@.len(),
            i == index,
            index < len,
            mod_index.0 == (index as int) % radius(),
            begin <= other <= index,
            begin == if index >= radius() { index - radius() } else { 0 },
            found == (other > begin),
            found ==> begin <= best_node < other && in_window(i, best_node as int, len),
            !found ==> best_node == index,
            exact && found ==> best_area == pair_cost(nodes@, i, best_node as int),
            exact ==> forall|j: int|
                begin <= j < other ==> best_area <= pair_cost(nodes@, i, j) && (pair_cost(
                    nodes@,
                    i,
                    j,
                ) == best_area ==> best_node <= j),
        decreases index - other,
    {
        let area = cache.back(mod_index, other);
        proof {
            if exact {
                assert(area == pair_cost(nodes@, other as int, i));
            }
        }
        if !found || area < best_area {
            best_node = other;
            best_area = area;
            found = true;
        }
        other = other + 1;
    }
    let end: usize = if nodes.len() - index > SEARCH_RADIUS { index + SEARCH_RADIUS + 1 } else { nodes.len() };
    let mut other: usize = index + 1;
    while other < end
        invariant
            cache.wf(),
            old(cache).wf(),
            exact == old(cache).column_ready(nodes@, i),
            len == nodes@.len(),
            i == index,
            mod_index.0 == (index as int) % radius(),
            index < other <= end,
            end <= len,
            end == if len - i > radius() { i + radius() + 1 } else { len },
            begin == if index >= radius() { index - radius() } else { 0 },
            found == (other > index + 1 || index > begin),
            found ==> begin <= best_node < other && in_window(i, best_node as int, len),
            !found ==> best_node == index,
            exact && found ==> best_area == pair_cost(nodes@, i, best_node as int),
            exact ==> forall|j: int|
                begin <= j < other && j != i ==> best_area <= pair_cost(nodes@, i, j) && (
                pair_cost(nodes@, i, j) == best_area ==> best_node <= j),
            forall|r: int, c: int|
                0 <= r < radius() && 0 <= c < radius() && r != i % radius()
                    ==> #[trigger] cache.cell(r, c) == old(cache).cell(r, c),
            forall|k: int|
                i < k < other ==> #[trigger] cache.cell(i % radius(), k % radius())
                    == pair_cost(nodes@, i, k),
            forall|c: int|
                0 <= c < radius() && next_in_column(i, c) >= other ==> #[trigger] cache.cell(
                    i % radius(),
                    c,
                ) == old(cache).cell(i % radius(), c),
        decreases end - other,
    {
        let area = nodes[index].volume.merge(&nodes[other].volume).area();
        let ghost before = *cache;
        cache.set_front(mod_index, other, area);
        proof {
            assert forall|r: int, c: int|
                0 <= r < radius() && 0 <= c < radius() && r != i % radius()
                    implies #[trigger] cache.cell(r, c) == old(cache).cell(r, c) by {
                lemma_cell_distinct(r, c, mod_index.0 as int, (other as int) % radius());
                assert(cache.cell(r, c) == before.cell(r, c));
            }
            assert forall|c: int|
                0 <= c < radius() && next_in_column(i, c) >= other + 1 implies #[trigger] cache.cell(
                i % radius(),
                c,
            ) == old(cache).cell(i % radius(), c) by {
                lemma_next_in_column(i, other as int);
                assert(c != (other as int) % radius());
                lemma_cell_distinct(i % radius(), c, i % radius(), (other as int) % radius());
                assert(cache.cell(i % radius(), c) == before.cell(i % radius(), c));
            }
            assert forall|k: int| i < k < other + 1 implies #[trigger] cache.cell(
                i % radius(),
                k % radius(),
            ) == pair_cost(nodes@, i, k) by {
                if k < other {
                    lemma_mod_distinct(k, other as int);
                    lemma_cell_distinct(i % radius(), k % radius(), i % radius(), (other as int) % radius());
                    assert(cache.cell(i % radius(), k % radius()) == before.cell(
                        i % radius(),
                        k % radius(),
                    ));
                }
            }
        }
        if !found || area < best_area {
            best_node = other;
            best_area = area;
            found = true;
        }
        other = other + 1;
    }
    proof {
        if len >= 2 {
            assert(found);
        } else {
            assert(!found);
        }
        if exact && len >= 2 {
            assert forall|j: int| #[trigger] in_window(i, j, len) implies pair_cost(nodes@, i, best_node as int)
                <= pair_cost(nodes@, i, j) && (pair_cost(nodes@, i, j) == pair_cost(
                nodes@,
                i,
                best_node as int,
            ) ==> best_node <= j) by {
                assert(begin <= j < end);
            }
        }
        assert forall|c: int|
            0 <= c < radius() && next_in_column(i, c) >= len implies #[trigger] cache.cell(i % radius(), c)
                == old(cache).cell(i % radius(), c) by {
            assert(next_in_column(i, c) <= i + radius());
        }
        assert forall|k: int|
            index < k <= index + radius() && k < len implies cache.cell(i % radius(), k % radius())
                == #[trigger] pair_cost(nodes@, i, k) by {
            assert(k < end);
        }
        if old(cache).ready_for(nodes@, i) {
        assert forall|j: int, k: int|
            i + 1 - radius() <= j < i + 1 <= k <= j + radius() && 0 <= j && k < len
                implies cache.cell(j % radius(), k % radius()) == #[trigger] pair_cost(nodes@, j, k) by {
            if j < i {
                lemma_mod_distinct(j, i);
                assert(cache.cell(j % radius(), k % radius()) == old(cache).cell(
                    j % radius(),
                    k % radius(),
                ));
            } else {
                assert(k < end);
            }
        }
        }
    }
    best_node
}

} // verus!
