//! The shape of a well-formed hierarchy, and the laws it obeys.
use vstd::prelude::*;

use crate::{BvhItem, BvhNode, BvhVolume};

verus! {

/// Node `i` is an interior node whose children are inside the array and
/// after it.
pub open spec fn has_children<V>(nodes: Seq<BvhNode<V>>, i: int) -> bool {
    0 <= i < nodes.len() && nodes[i].count == 0 && i < nodes[i].start_index
        && nodes[i].start_index + 1 < nodes.len()
}

/// The number of items under node `i`.
pub open spec fn subtree_count<V>(nodes: Seq<BvhNode<V>>, i: int) -> nat
    decreases nodes.len() - i,
{
    if 0 <= i < nodes.len() {
        if nodes[i].count > 0 {
            nodes[i].count as nat
        } else if has_children(nodes, i) {
            subtree_count(nodes, nodes[i].start_index as int) + subtree_count(
                nodes,
                nodes[i].start_index + 1,
            )
        } else {
            0
        }
    } else {
        0
    }
}

/// Node `j` can be reached from node `i` (or is `i`).
pub open spec fn in_subtree<V>(nodes: Seq<BvhNode<V>>, i: int, j: int) -> bool
    decreases nodes.len() - i,
{
    if 0 <= i < nodes.len() {
        i == j || (has_children(nodes, i) && (in_subtree(
            nodes,
            nodes[i].start_index as int,
            j,
        ) || in_subtree(nodes, nodes[i].start_index + 1, j)))
    } else {
        false
    }
}

/// The subtree of node `i` is well formed and its leaves, from left to
/// right, hold the consecutive items that start at `lo`:
/// - a leaf holds `count > 0` items from `start_index == lo` on, and its
///   volume encloses each of their volumes;
/// - an interior node has both children after it, its volume encloses
///   theirs, the left child holds the items from `lo` on and the right
///   child those that follow.
pub open spec fn node_ok<V: BvhVolume, T>(
    nodes: Seq<BvhNode<V>>,
    items: Seq<BvhItem<V, T>>,
    i: int,
    lo: int,
) -> bool
    decreases nodes.len() - i,
{
    0 <= i < nodes.len() && if nodes[i].count > 0 {
        nodes[i].start_index == lo && lo + nodes[i].count <= items.len() && forall|k: int|
            lo <= k < lo + nodes[i].count ==> #[trigger] nodes[i].volume.encloses(
                items[k].volume,
            )
    } else {
        let c = nodes[i].start_index as int;
        has_children(nodes, i) && nodes[i].volume.encloses(nodes[c].volume)
            && nodes[i].volume.encloses(nodes[c + 1].volume) && node_ok(nodes, items, c, lo)
            && node_ok(nodes, items, c + 1, lo + subtree_count(nodes, c))
    }
}

/// The well-formed hierarchies: empty, or rooted at node 0 whose subtree
/// holds every item, with at most `2n - 1` nodes.
pub open spec fn tree_ok<V: BvhVolume, T>(
    nodes: Seq<BvhNode<V>>,
    items: Seq<BvhItem<V, T>>,
) -> bool {
    if items.len() == 0 {
        nodes.len() == 0
    } else {
        0 < nodes.len() <= 2 * items.len() - 1 && nodes.len() <= u32::MAX && items.len() <= u32::MAX
            && node_ok(nodes, items, 0, 0)
            && subtree_count(nodes, 0) == items.len()
    }
}

/// The children of a node under `i` are under `i` too.
pub proof fn lemma_child_in_subtree<V>(nodes: Seq<BvhNode<V>>, i: int, j: int)
    requires
        in_subtree(nodes, i, j),
        has_children(nodes, j),
    ensures
        in_subtree(nodes, i, nodes[j].start_index as int),
        in_subtree(nodes, i, nodes[j].start_index + 1),
    decreases nodes.len() - i,
{
    let c = nodes[j].start_index as int;
    assert(in_subtree(nodes, c, c));
    assert(in_subtree(nodes, c + 1, c + 1));
    if i != j {
        let ci = nodes[i].start_index as int;
        if in_subtree(nodes, ci, j) {
            lemma_child_in_subtree(nodes, ci, j);
        } else {
            lemma_child_in_subtree(nodes, ci + 1, j);
        }
    }
}

/// The number of interior nodes under node `i`.
pub open spec fn interiors<V>(nodes: Seq<BvhNode<V>>, i: int) -> nat
    decreases nodes.len() - i,
{
    if 0 <= i < nodes.len() && nodes[i].count == 0 && has_children(nodes, i) {
        1 + interiors(nodes, nodes[i].start_index as int) + interiors(
            nodes,
            nodes[i].start_index + 1,
        )
    } else {
        0
    }
}

/// The number of leaves under node `i`.
pub open spec fn leaves<V>(nodes: Seq<BvhNode<V>>, i: int) -> nat
    decreases nodes.len() - i,
{
    if 0 <= i < nodes.len() {
        if nodes[i].count > 0 {
            1
        } else if has_children(nodes, i) {
            leaves(nodes, nodes[i].start_index as int) + leaves(nodes, nodes[i].start_index + 1)
        } else {
            0
        }
    } else {
        0
    }
}

/// A well-formed subtree is a full binary tree: it has one interior node
/// fewer than it has leaves.
pub proof fn lemma_full_binary<V: BvhVolume, T>(
    nodes: Seq<BvhNode<V>>,
    items: Seq<BvhItem<V, T>>,
    i: int,
    lo: int,
)
    requires
        node_ok(nodes, items, i, lo),
    ensures
        interiors(nodes, i) + 1 == leaves(nodes, i),
    decreases nodes.len() - i,
{
    if nodes[i].count == 0 {
        let c = nodes[i].start_index as int;
        lemma_full_binary(nodes, items, c, lo);
        lemma_full_binary(nodes, items, c + 1, lo + subtree_count(nodes, c));
    }
}

/// Every node under `i` is inside the array, at `i` or after it.
pub proof fn lemma_subtree_after<V>(nodes: Seq<BvhNode<V>>, i: int, p: int)
    requires
        in_subtree(nodes, i, p),
    ensures
        i <= p < nodes.len(),
        0 <= i,
    decreases nodes.len() - i,
{
    if i != p {
        let c = nodes[i].start_index as int;
        if in_subtree(nodes, c, p) {
            lemma_subtree_after(nodes, c, p);
        } else {
            lemma_subtree_after(nodes, c + 1, p);
        }
    }
}

/// A well-formed subtree depends only on the nodes under it and on the
/// items of its range: another array that agrees there, with items that
/// extend the first ones, holds the same well-formed subtree.
pub proof fn lemma_node_ok_frame<V: BvhVolume, T>(
    a: Seq<BvhNode<V>>,
    ia: Seq<BvhItem<V, T>>,
    b: Seq<BvhNode<V>>,
    ib: Seq<BvhItem<V, T>>,
    i: int,
    lo: int,
)
    requires
        node_ok(a, ia, i, lo),
        a.len() == b.len(),
        forall|p: int| #[trigger] in_subtree(a, i, p) ==> a[p] == b[p],
        ia.len() <= ib.len(),
        forall|k: int| 0 <= k < ia.len() ==> ia[k] == #[trigger] ib[k],
    ensures
        node_ok(b, ib, i, lo),
        subtree_count(b, i) == subtree_count(a, i),
        interiors(b, i) == interiors(a, i),
        forall|p: int| #[trigger] in_subtree(b, i, p) == in_subtree(a, i, p),
    decreases a.len() - i,
{
    assert(in_subtree(a, i, i));
    if a[i].count > 0 {
        assert forall|p: int| #[trigger] in_subtree(b, i, p) == in_subtree(a, i, p) by {
            assert(b[i] == a[i]);
        }
        assert forall|k: int| lo <= k < lo + b[i].count implies #[trigger] b[i].volume.encloses(
            ib[k].volume,
        ) by {
            assert(ia[k] == ib[k]);
            assert(a[i].volume.encloses(ia[k].volume));
        }
    } else {
        let c = a[i].start_index as int;
        assert forall|p: int| #[trigger] in_subtree(a, c, p) implies a[p] == b[p] by {
            assert(in_subtree(a, i, p));
        }
        assert forall|p: int| #[trigger] in_subtree(a, c + 1, p) implies a[p] == b[p] by {
            assert(in_subtree(a, i, p));
        }
        assert(b[i] == a[i]);
        assert(in_subtree(a, c, c));
        assert(in_subtree(a, c + 1, c + 1));
        assert(in_subtree(a, i, c));
        assert(in_subtree(a, i, c + 1));
        lemma_node_ok_frame(a, ia, b, ib, c, lo);
        lemma_node_ok_frame(a, ia, b, ib, c + 1, lo + subtree_count(a, c));
        assert forall|p: int| #[trigger] in_subtree(b, i, p) == in_subtree(a, i, p) by {
            assert(b[i] == a[i]);
            assert(in_subtree(b, c, p) == in_subtree(a, c, p));
            assert(in_subtree(b, c + 1, p) == in_subtree(a, c + 1, p));
        }
    }
}

/// Two well-formed readings of one node start at the same item.
pub proof fn lemma_node_ok_start<V: BvhVolume, T>(
    nodes: Seq<BvhNode<V>>,
    items: Seq<BvhItem<V, T>>,
    i: int,
    lo1: int,
    lo2: int,
)
    requires
        node_ok(nodes, items, i, lo1),
        node_ok(nodes, items, i, lo2),
    ensures
        lo1 == lo2,
    decreases nodes.len() - i,
{
    if nodes[i].count == 0 {
        lemma_node_ok_start(nodes, items, nodes[i].start_index as int, lo1, lo2);
    }
}

/// The two subtrees of a well-formed interior node share no node.
pub proof fn lemma_children_disjoint<V: BvhVolume, T>(
    nodes: Seq<BvhNode<V>>,
    items: Seq<BvhItem<V, T>>,
    i: int,
    lo: int,
    p: int,
)
    requires
        node_ok(nodes, items, i, lo),
        nodes[i].count == 0,
        in_subtree(nodes, nodes[i].start_index as int, p),
    ensures
        !in_subtree(nodes, nodes[i].start_index + 1, p),
{
    let c = nodes[i].start_index as int;
    let cl = subtree_count(nodes, c);
    if in_subtree(nodes, c + 1, p) {
        let l1 = lemma_descendant(nodes, items, c, lo, p);
        let l2 = lemma_descendant(nodes, items, c + 1, lo + cl, p);
        lemma_node_ok_start(nodes, items, p, l1, l2);
        lemma_count_positive(nodes, items, p, l1);
    }
}

/// A well-formed subtree holds at least one item.
pub proof fn lemma_count_positive<V: BvhVolume, T>(
    nodes: Seq<BvhNode<V>>,
    items: Seq<BvhItem<V, T>>,
    i: int,
    lo: int,
)
    requires
        node_ok(nodes, items, i, lo),
    ensures
        subtree_count(nodes, i) >= 1,
        lo + subtree_count(nodes, i) <= items.len(),
        lo >= 0,
    decreases nodes.len() - i,
{
    if nodes[i].count == 0 {
        let c = nodes[i].start_index as int;
        lemma_count_positive(nodes, items, c, lo);
        lemma_count_positive(nodes, items, c + 1, lo + subtree_count(nodes, c));
    } else {
        assert(nodes[i].start_index == lo);
    }
}

/// Every node under a well-formed node is well formed, with an item range
/// inside its ancestor's.
pub proof fn lemma_descendant<V: BvhVolume, T>(
    nodes: Seq<BvhNode<V>>,
    items: Seq<BvhItem<V, T>>,
    i: int,
    lo: int,
    j: int,
) -> (lo_j: int)
    requires
        node_ok(nodes, items, i, lo),
        in_subtree(nodes, i, j),
    ensures
        node_ok(nodes, items, j, lo_j),
        lo <= lo_j,
        lo_j + subtree_count(nodes, j) <= lo + subtree_count(nodes, i),
        nodes[i].volume.encloses(nodes[j].volume),
    decreases nodes.len() - i,
{
    if i == j {
        V::lemma_encloses_reflexive(nodes[i].volume);
        lo
    } else {
        let c = nodes[i].start_index as int;
        let cl = subtree_count(nodes, c);
        lemma_count_positive(nodes, items, c, lo);
        lemma_count_positive(nodes, items, c + 1, lo + cl);
        if in_subtree(nodes, c, j) {
            let r = lemma_descendant(nodes, items, c, lo, j);
            V::lemma_encloses_transitive(nodes[i].volume, nodes[c].volume, nodes[j].volume);
            r
        } else {
            let r = lemma_descendant(nodes, items, c + 1, lo + cl, j);
            V::lemma_encloses_transitive(nodes[i].volume, nodes[c + 1].volume, nodes[j].volume);
            r
        }
    }
}

/// A well-formed node's volume encloses the volume of every item in its
/// range.
pub proof fn lemma_node_encloses_items<V: BvhVolume, T>(
    nodes: Seq<BvhNode<V>>,
    items: Seq<BvhItem<V, T>>,
    i: int,
    lo: int,
    k: int,
)
    requires
        node_ok(nodes, items, i, lo),
        lo <= k < lo + subtree_count(nodes, i),
    ensures
        nodes[i].volume.encloses(items[k].volume),
    decreases nodes.len() - i,
{
    if nodes[i].count == 0 {
        let c = nodes[i].start_index as int;
        let cl = subtree_count(nodes, c);
        if k < lo + cl {
            lemma_node_encloses_items(nodes, items, c, lo, k);
            V::lemma_encloses_transitive(nodes[i].volume, nodes[c].volume, items[k].volume);
        } else {
            lemma_node_encloses_items(nodes, items, c + 1, lo + cl, k);
            V::lemma_encloses_transitive(nodes[i].volume, nodes[c + 1].volume, items[k].volume);
        }
    }
}

/// Some leaf under a well-formed node holds item `k` of its range.
pub proof fn lemma_item_has_leaf<V: BvhVolume, T>(
    nodes: Seq<BvhNode<V>>,
    items: Seq<BvhItem<V, T>>,
    i: int,
    lo: int,
    k: int,
) -> (j: int)
    requires
        node_ok(nodes, items, i, lo),
        lo <= k < lo + subtree_count(nodes, i),
    ensures
        in_subtree(nodes, i, j),
        nodes[j].count > 0,
        nodes[j].start_index <= k < nodes[j].start_index + nodes[j].count,
    decreases nodes.len() - i,
{
    if nodes[i].count > 0 {
        i
    } else {
        let c = nodes[i].start_index as int;
        let cl = subtree_count(nodes, c);
        if k < lo + cl {
            lemma_item_has_leaf(nodes, items, c, lo, k)
        } else {
            lemma_item_has_leaf(nodes, items, c + 1, lo + cl, k)
        }
    }
}

/// Two leaves under a well-formed node that both hold item `k` are the
/// same leaf.
pub proof fn lemma_item_leaf_unique<V: BvhVolume, T>(
    nodes: Seq<BvhNode<V>>,
    items: Seq<BvhItem<V, T>>,
    i: int,
    lo: int,
    j1: int,
    j2: int,
    k: int,
)
    requires
        node_ok(nodes, items, i, lo),
        in_subtree(nodes, i, j1),
        in_subtree(nodes, i, j2),
        nodes[j1].count > 0,
        nodes[j2].count > 0,
        nodes[j1].start_index <= k < nodes[j1].start_index + nodes[j1].count,
        nodes[j2].start_index <= k < nodes[j2].start_index + nodes[j2].count,
    ensures
        j1 == j2,
    decreases nodes.len() - i,
{
    if nodes[i].count > 0 {
    } else {
        let c = nodes[i].start_index as int;
        let cl = subtree_count(nodes, c);
        let in1 = in_subtree(nodes, c, j1);
        let in2 = in_subtree(nodes, c, j2);
        if i == j1 || i == j2 {
        } else if in1 && in2 {
            lemma_item_leaf_unique(nodes, items, c, lo, j1, j2, k);
        } else if !in1 && !in2 {
            lemma_item_leaf_unique(nodes, items, c + 1, lo + cl, j1, j2, k);
        } else if in1 {
            let l1 = lemma_descendant(nodes, items, c, lo, j1);
            let l2 = lemma_descendant(nodes, items, c + 1, lo + cl, j2);
        } else {
            let l1 = lemma_descendant(nodes, items, c + 1, lo + cl, j1);
            let l2 = lemma_descendant(nodes, items, c, lo, j2);
        }
    }
}

/// Every item of a well-formed hierarchy lies in the range of exactly one
/// leaf reachable from the root.
pub proof fn lemma_items_partitioned<V: BvhVolume, T>(
    nodes: Seq<BvhNode<V>>,
    items: Seq<BvhItem<V, T>>,
    k: int,
)
    requires
        tree_ok(nodes, items),
        0 <= k < items.len(),
    ensures
        exists|j: int|
            in_subtree(nodes, 0, j) && nodes[j].count > 0 && nodes[j].start_index <= k
                < nodes[j].start_index + nodes[j].count,
        forall|j1: int, j2: int|
            in_subtree(nodes, 0, j1) && nodes[j1].count > 0 && nodes[j1].start_index <= k
                < nodes[j1].start_index + nodes[j1].count && in_subtree(nodes, 0, j2)
                && nodes[j2].count > 0 && nodes[j2].start_index <= k < nodes[j2].start_index
                + nodes[j2].count ==> j1 == j2,
{
    let j = lemma_item_has_leaf(nodes, items, 0, 0, k);
    assert forall|j1: int, j2: int|
        in_subtree(nodes, 0, j1) && nodes[j1].count > 0 && nodes[j1].start_index <= k
            < nodes[j1].start_index + nodes[j1].count && in_subtree(nodes, 0, j2)
            && nodes[j2].count > 0 && nodes[j2].start_index <= k < nodes[j2].start_index
            + nodes[j2].count implies j1 == j2 by {
        lemma_item_leaf_unique(nodes, items, 0, 0, j1, j2, k);
    }
}

/// The root volume of a well-formed hierarchy encloses the volume of every
/// node reachable from it, leaves included.
pub proof fn lemma_root_encloses<V: BvhVolume, T>(
    nodes: Seq<BvhNode<V>>,
    items: Seq<BvhItem<V, T>>,
    j: int,
)
    requires
        tree_ok(nodes, items),
        in_subtree(nodes, 0, j),
    ensures
        nodes[0].volume.encloses(nodes[j].volume),
{
    let _ = lemma_descendant(nodes, items, 0, 0, j);
}

/// In a well-formed hierarchy every reachable interior node encloses both
/// of its children, and every reachable leaf encloses each of its items.
pub proof fn lemma_reachable_encloses<V: BvhVolume, T>(
    nodes: Seq<BvhNode<V>>,
    items: Seq<BvhItem<V, T>>,
    j: int,
)
    requires
        tree_ok(nodes, items),
        in_subtree(nodes, 0, j),
    ensures
        nodes[j].count == 0 ==> has_children(nodes, j) && nodes[j].volume.encloses(
            nodes[nodes[j].start_index as int].volume,
        ) && nodes[j].volume.encloses(nodes[nodes[j].start_index + 1].volume),
        nodes[j].count > 0 ==> nodes[j].start_index + nodes[j].count <= items.len() && forall|
            k: int,
        |
            nodes[j].start_index <= k < nodes[j].start_index + nodes[j].count
                ==> nodes[j].volume.encloses(#[trigger] items[k].volume),
{
    let lo_j = lemma_descendant(nodes, items, 0, 0, j);
}

} // verus!
