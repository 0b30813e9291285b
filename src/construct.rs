//! Construction of the hierarchy: Morton sort, locally-ordered clustering
//! into a node array filled from the back, reordering of the items into
//! leaf order, then merging of leaves by the surface area heuristic.
use vstd::multiset::Multiset;
use vstd::prelude::*;
use vstd::set_lib::{lemma_int_range, lemma_len_subset, set_int_range};

use crate::tree::{
    has_children, in_subtree, interiors, lemma_children_disjoint, lemma_count_positive,
    lemma_node_ok_frame, lemma_subtree_after, node_ok, subtree_count,
};
use crate::search::{find_best_node, in_window, is_best, pair_cost, FindCache};
use crate::{Bvh, BvhItem, BvhNode, BvhVolume};

verus! {

broadcast use vstd::seq_lib::group_to_multiset_ensures;

/// During clustering, a node is either a seed leaf (one item of the input,
/// with that item's volume) or an interior node whose children lie in the
/// array at `bound` or after, with a volume enclosing both.
pub open spec fn seed_ok<V: BvhVolume, T>(
    nodes: Seq<BvhNode<V>>,
    input: Seq<BvhItem<V, T>>,
    nd: BvhNode<V>,
    bound: int,
) -> bool {
    ||| (nd.count == 1 && nd.start_index < input.len() && nd.volume == input[nd.start_index as int].volume)
    ||| (nd.count == 0 && bound <= nd.start_index && nd.start_index + 1 < nodes.len()
        && nd.volume.encloses(nodes[nd.start_index as int].volume)
        && nd.volume.encloses(nodes[nd.start_index + 1].volume))
}

/// Every node of the array from `from` on is a seed leaf or an interior
/// node with its children after it.
pub open spec fn array_ok<V: BvhVolume, T>(
    nodes: Seq<BvhNode<V>>,
    input: Seq<BvhItem<V, T>>,
    from: int,
) -> bool {
    forall|p: int| from <= p < nodes.len() ==> seed_ok(nodes, input, #[trigger] nodes[p], p + 1)
}

/// The input indices of the seed leaves under node `i`, left to right.
pub open spec fn leaf_seq<V>(nodes: Seq<BvhNode<V>>, i: int) -> Seq<int>
    decreases nodes.len() - i,
{
    if 0 <= i < nodes.len() {
        if nodes[i].count > 0 {
            seq![nodes[i].start_index as int]
        } else if has_children(nodes, i) {
            leaf_seq(nodes, nodes[i].start_index as int) + leaf_seq(nodes, nodes[i].start_index + 1)
        } else {
            seq![]
        }
    } else {
        seq![]
    }
}

proof fn lemma_leaf_seq_nonempty<V: BvhVolume, T>(
    nodes: Seq<BvhNode<V>>,
    input: Seq<BvhItem<V, T>>,
    i: int,
)
    requires
        array_ok(nodes, input, 0),
        0 <= i < nodes.len(),
    ensures
        leaf_seq(nodes, i).len() >= 1,
    decreases nodes.len() - i,
{
    assert(seed_ok(nodes, input, nodes[i], i + 1));
    if nodes[i].count == 0 {
        lemma_leaf_seq_nonempty(nodes, input, nodes[i].start_index as int);
    }
}

proof fn lemma_leaf_seq_sub<V: BvhVolume, T>(
    nodes: Seq<BvhNode<V>>,
    input: Seq<BvhItem<V, T>>,
    x: int,
    p: int,
    v: int,
)
    requires
        array_ok(nodes, input, 0),
        in_subtree(nodes, x, p),
        leaf_seq(nodes, p).contains(v),
    ensures
        leaf_seq(nodes, x).contains(v),
    decreases nodes.len() - x,
{
    if x != p {
        let c = nodes[x].start_index as int;
        if in_subtree(nodes, c, p) {
            lemma_leaf_seq_sub(nodes, input, c, p, v);
            let a = leaf_seq(nodes, c);
            let k = choose|k: int| 0 <= k < a.len() && a[k] == v;
            assert(leaf_seq(nodes, x)[k] == v);
        } else {
            lemma_leaf_seq_sub(nodes, input, c + 1, p, v);
            let b = leaf_seq(nodes, c + 1);
            let k = choose|k: int| 0 <= k < b.len() && b[k] == v;
            assert(leaf_seq(nodes, x)[leaf_seq(nodes, c).len() + k] == v);
        }
    }
}

/// Where the seed leaves below an interior node are distinct, its two
/// subtrees share no node.
proof fn lemma_seed_children_disjoint<V: BvhVolume, T>(
    nodes: Seq<BvhNode<V>>,
    input: Seq<BvhItem<V, T>>,
    i: int,
    p: int,
)
    requires
        array_ok(nodes, input, 0),
        0 <= i < nodes.len(),
        nodes[i].count == 0,
        leaf_seq(nodes, i).no_duplicates(),
        in_subtree(nodes, nodes[i].start_index as int, p),
    ensures
        !in_subtree(nodes, nodes[i].start_index + 1, p),
{
    let c = nodes[i].start_index as int;
    assert(seed_ok(nodes, input, nodes[i], i + 1));
    if in_subtree(nodes, c + 1, p) {
        lemma_subtree_after(nodes, c, p);
        lemma_leaf_seq_nonempty(nodes, input, p);
        let v = leaf_seq(nodes, p)[0];
        assert(leaf_seq(nodes, p).contains(v));
        lemma_leaf_seq_sub(nodes, input, c, p, v);
        lemma_leaf_seq_sub(nodes, input, c + 1, p, v);
        let a = leaf_seq(nodes, c);
        let b = leaf_seq(nodes, c + 1);
        let k1 = choose|k: int| 0 <= k < a.len() && a[k] == v;
        let k2 = choose|k: int| 0 <= k < b.len() && b[k] == v;
        assert(leaf_seq(nodes, i)[k1] == leaf_seq(nodes, i)[a.len() + k2]);
    }
}

/// Numbers the leaves under node `i` in left-to-right order: each seed
/// leaf moves its input item to the end of `items` and points at it there.
fn reorder<V: BvhVolume, T: Copy>(
    nodes: &mut Vec<BvhNode<V>>,
    i: usize,
    input: &Vec<BvhItem<V, T>>,
    items: &mut Vec<BvhItem<V, T>>,
    Ghost(shape): Ghost<Seq<BvhNode<V>>>,
)
    requires
        shape.len() == old(nodes)@.len() <= u32::MAX,
        array_ok(shape, input@, 0),
        i < shape.len(),
        leaf_seq(shape, i as int).no_duplicates(),
        forall|p: int| #[trigger] in_subtree(shape, i as int, p) ==> old(nodes)@[p] == shape[p],
        old(items)@.len() + leaf_seq(shape, i as int).len() <= u32::MAX,
    ensures
        final(nodes)@.len() == old(nodes)@.len(),
        final(items)@ == old(items)@ + leaf_seq(shape, i as int).map_values(|x: int| input@[x]),
        node_ok(final(nodes)@, final(items)@, i as int, old(items)@.len() as int),
        subtree_count(final(nodes)@, i as int) == leaf_seq(shape, i as int).len(),
        forall|p: int|
            0 <= p < shape.len() && !#[trigger] in_subtree(shape, i as int, p) ==> final(nodes)@[p]
                == old(nodes)@[p],
        forall|p: int| #[trigger] in_subtree(final(nodes)@, i as int, p) == in_subtree(shape, i as int, p),
        final(nodes)@[i as int].volume == shape[i as int].volume,
    decreases shape.len() - i,
{
    let ghost n0 = nodes@;
    let ghost k0 = items@.len() as int;
    proof {
        assert(in_subtree(shape, i as int, i as int));
        assert(seed_ok(shape, input@, shape[i as int], i + 1));
    }
    let node = nodes[i];
    if node.count > 0 {
        let k = items.len();
        let item = input[node.start_index as usize];
        items.push(item);
        nodes.set(i, BvhNode { volume: node.volume, count: node.count, start_index: k as u32 });
        proof {
            V::lemma_encloses_reflexive(node.volume);
            assert(leaf_seq(shape, i as int) =~= seq![node.start_index as int]);
            assert(items@ =~= old(items)@ + leaf_seq(shape, i as int).map_values(|x: int| input@[x]));
            assert forall|p: int| 0 <= p < shape.len() && !#[trigger] in_subtree(shape, i as int, p)
                implies nodes@[p] == old(nodes)@[p] by {
            }
            assert forall|p: int| #[trigger] in_subtree(nodes@, i as int, p) == in_subtree(shape, i as int, p) by {
            }
        }
    } else {
        let c = node.start_index as usize;
        let ghost a = leaf_seq(shape, c as int);
        let ghost b = leaf_seq(shape, c + 1);
        proof {
            assert(leaf_seq(shape, i as int) == a + b);
            assert(a.no_duplicates()) by {
                assert forall|x: int, y: int| 0 <= x < a.len() && 0 <= y < a.len() && x != y implies a[x] != a[y] by {
                    assert((a + b)[x] == a[x] && (a + b)[y] == a[y]);
                }
            }
            assert(b.no_duplicates()) by {
                assert forall|x: int, y: int| 0 <= x < b.len() && 0 <= y < b.len() && x != y implies b[x] != b[y] by {
                    assert((a + b)[a.len() + x] == b[x] && (a + b)[a.len() + y] == b[y]);
                }
            }
            assert forall|p: int| #[trigger] in_subtree(shape, c as int, p) implies old(nodes)@[p] == shape[p] by {
                assert(in_subtree(shape, i as int, p));
            }
        }
        reorder(nodes, c, input, items, Ghost(shape));
        let ghost n1 = nodes@;
        let ghost i1 = items@;
        proof {
            assert forall|p: int| #[trigger] in_subtree(shape, c + 1, p) implies n1[p] == shape[p] by {
                assert(in_subtree(shape, i as int, p));
                lemma_subtree_after(shape, c + 1, p);
                if in_subtree(shape, c as int, p) {
                    lemma_seed_children_disjoint(shape, input@, i as int, p);
                }
            }
        }
        reorder(nodes, c + 1, input, items, Ghost(shape));
        proof {
            let n2 = nodes@;
            let i2 = items@;
            assert forall|p: int| #[trigger] in_subtree(n1, c as int, p) implies n1[p] == n2[p] by {
                assert(in_subtree(shape, c as int, p));
                lemma_subtree_after(shape, c as int, p);
                if in_subtree(shape, c + 1, p) {
                    lemma_seed_children_disjoint(shape, input@, i as int, p);
                }
            }
            lemma_node_ok_frame(n1, i1, n2, i2, c as int, k0);
            assert(!in_subtree(shape, c as int, i as int)) by {
                if in_subtree(shape, c as int, i as int) {
                    lemma_subtree_after(shape, c as int, i as int);
                }
            }
            assert(!in_subtree(shape, c + 1, i as int)) by {
                if in_subtree(shape, c + 1, i as int) {
                    lemma_subtree_after(shape, c + 1, i as int);
                }
            }
            assert(n2[i as int] == shape[i as int]);
            assert(in_subtree(shape, c as int, c as int));
            assert(!in_subtree(shape, c + 1, c as int)) by {
                lemma_seed_children_disjoint(shape, input@, i as int, c as int);
            }
            assert(n2[c as int].volume == shape[c as int].volume);
            assert(n2[c + 1].volume == shape[c + 1].volume);
            assert(i2 =~= old(items)@ + leaf_seq(shape, i as int).map_values(|x: int| input@[x]));
            assert(node_ok(n2, i2, c as int, k0));
            assert(node_ok(n2, i2, c + 1, k0 + a.len()));
            assert forall|p: int| 0 <= p < shape.len() && !#[trigger] in_subtree(shape, i as int, p)
                implies n2[p] == old(nodes)@[p] by {
                assert(!in_subtree(shape, c as int, p));
                assert(!in_subtree(shape, c + 1, p));
            }
            assert forall|p: int| #[trigger] in_subtree(n2, i as int, p) == in_subtree(shape, i as int, p) by {
                assert(in_subtree(n2, c as int, p) == in_subtree(n1, c as int, p));
                assert(in_subtree(n1, c as int, p) == in_subtree(shape, c as int, p));
                assert(in_subtree(n2, c + 1, p) == in_subtree(shape, c + 1, p));
                assert(n2[i as int] == shape[i as int]);
            }
        }
    }
}

/// The input indices of the seed leaves under a node value whose children
/// are in the array.
pub open spec fn root_seq<V>(nodes: Seq<BvhNode<V>>, nd: BvhNode<V>) -> Seq<int> {
    if nd.count > 0 {
        seq![nd.start_index as int]
    } else if nd.start_index + 1 < nodes.len() {
        leaf_seq(nodes, nd.start_index as int) + leaf_seq(nodes, nd.start_index + 1)
    } else {
        seq![]
    }
}

/// The seed leaves under a list of forest roots, as a multiset.
pub open spec fn forest_ms<V>(nodes: Seq<BvhNode<V>>, roots: Seq<BvhNode<V>>) -> Multiset<int>
    decreases roots.len(),
{
    if roots.len() == 0 {
        Multiset::empty()
    } else {
        forest_ms(nodes, roots.drop_last()).add(root_seq(nodes, roots.last()).to_multiset())
    }
}

/// The seed leaves under the roots `cur[i..]` that are not in `skip`.
pub open spec fn rest_ms<V>(
    nodes: Seq<BvhNode<V>>,
    cur: Seq<BvhNode<V>>,
    i: int,
    skip: Set<int>,
) -> Multiset<int>
    decreases cur.len() - i,
{
    if 0 <= i < cur.len() {
        (if skip.contains(i) {
            Multiset::empty()
        } else {
            root_seq(nodes, cur[i]).to_multiset()
        }).add(rest_ms(nodes, cur, i + 1, skip))
    } else {
        Multiset::empty()
    }
}

proof fn lemma_rest_drop_last<V>(nodes: Seq<BvhNode<V>>, cur: Seq<BvhNode<V>>, i: int)
    requires
        0 <= i < cur.len(),
    ensures
        rest_ms(nodes, cur, i, Set::empty()) == rest_ms(nodes, cur.drop_last(), i, Set::empty()).add(
            root_seq(nodes, cur.last()).to_multiset(),
        ),
    decreases cur.len() - i,
{
    if i + 1 < cur.len() {
        lemma_rest_drop_last(nodes, cur, i + 1);
        assert(rest_ms(nodes, cur, i, Set::empty()) =~= rest_ms(nodes, cur.drop_last(), i, Set::empty()).add(
            root_seq(nodes, cur.last()).to_multiset(),
        ));
    } else {
        assert(rest_ms(nodes, cur, i + 1, Set::empty()) == Multiset::<int>::empty());
        assert(rest_ms(nodes, cur.drop_last(), i, Set::empty()) == Multiset::<int>::empty());
        assert(!Set::<int>::empty().contains(i));
        assert(rest_ms(nodes, cur, i, Set::empty()) =~= rest_ms(nodes, cur.drop_last(), i, Set::empty()).add(
            root_seq(nodes, cur.last()).to_multiset(),
        ));
    }
}

/// The multiset of a forest, read from the front.
proof fn lemma_forest_is_rest<V>(nodes: Seq<BvhNode<V>>, cur: Seq<BvhNode<V>>)
    ensures
        forest_ms(nodes, cur) == rest_ms(nodes, cur, 0, Set::empty()),
    decreases cur.len(),
{
    if cur.len() > 0 {
        lemma_forest_is_rest(nodes, cur.drop_last());
        lemma_rest_drop_last(nodes, cur, 0);
    } else {
        assert(forest_ms(nodes, cur) =~= rest_ms(nodes, cur, 0, Set::empty()));
    }
}

/// Node `p` of the array lies under the children of the node value `nd`.
pub open spec fn covers<V>(nodes: Seq<BvhNode<V>>, nd: BvhNode<V>, p: int) -> bool {
    nd.count == 0 && nd.start_index + 1 < nodes.len() && (in_subtree(
        nodes,
        nd.start_index as int,
        p,
    ) || in_subtree(nodes, nd.start_index + 1, p))
}

/// Node `p` lies under one of the roots in `roots`.
pub open spec fn covered<V>(nodes: Seq<BvhNode<V>>, roots: Seq<BvhNode<V>>, p: int) -> bool {
    exists|k: int| 0 <= k < roots.len() && #[trigger] covers(nodes, roots[k], p)
}

/// Node `p` lies under one of the roots `cur[i..]` that are not in `skip`.
pub open spec fn covered_rest<V>(
    nodes: Seq<BvhNode<V>>,
    cur: Seq<BvhNode<V>>,
    i: int,
    skip: Set<int>,
    p: int,
) -> bool {
    exists|k: int| i <= k < cur.len() && !skip.contains(k) && #[trigger] covers(nodes, cur[k], p)
}

proof fn lemma_in_subtree_frame<V>(a: Seq<BvhNode<V>>, b: Seq<BvhNode<V>>, bound: int, x: int)
    requires
        a.len() == b.len(),
        forall|p: int| bound <= p < a.len() ==> a[p] == b[p],
        bound <= x,
    ensures
        forall|p: int| #[trigger] in_subtree(a, x, p) == in_subtree(b, x, p),
    decreases a.len() - x,
{
    if 0 <= x < a.len() && has_children(a, x) {
        lemma_in_subtree_frame(a, b, bound, a[x].start_index as int);
        lemma_in_subtree_frame(a, b, bound, a[x].start_index + 1);
        assert forall|p: int| #[trigger] in_subtree(a, x, p) == in_subtree(b, x, p) by {
            assert(a[x] == b[x]);
            assert(in_subtree(a, a[x].start_index as int, p) == in_subtree(b, a[x].start_index as int, p));
            assert(in_subtree(a, a[x].start_index + 1, p) == in_subtree(b, a[x].start_index + 1, p));
        }
    } else {
        assert forall|p: int| #[trigger] in_subtree(a, x, p) == in_subtree(b, x, p) by {
            if 0 <= x < a.len() {
                assert(a[x] == b[x]);
            }
        }
    }
}

proof fn lemma_covers_frame<V: BvhVolume, T>(
    a: Seq<BvhNode<V>>,
    b: Seq<BvhNode<V>>,
    input: Seq<BvhItem<V, T>>,
    bound: int,
    nd: BvhNode<V>,
)
    requires
        a.len() == b.len(),
        forall|p: int| bound <= p < a.len() ==> a[p] == b[p],
        seed_ok(a, input, nd, bound),
    ensures
        forall|p: int| #[trigger] covers(a, nd, p) == covers(b, nd, p),
{
    if nd.count == 0 {
        lemma_in_subtree_frame(a, b, bound, nd.start_index as int);
        lemma_in_subtree_frame(a, b, bound, nd.start_index + 1);
    }
}

proof fn lemma_leaf_seq_frame<V>(a: Seq<BvhNode<V>>, b: Seq<BvhNode<V>>, bound: int, i: int)
    requires
        a.len() == b.len(),
        forall|p: int| bound <= p < a.len() ==> a[p] == b[p],
        bound <= i,
    ensures
        leaf_seq(a, i) == leaf_seq(b, i),
    decreases a.len() - i,
{
    if 0 <= i < a.len() && a[i].count == 0 && has_children(a, i) {
        lemma_leaf_seq_frame(a, b, bound, a[i].start_index as int);
        lemma_leaf_seq_frame(a, b, bound, a[i].start_index + 1);
    }
}

proof fn lemma_root_frame<V: BvhVolume, T>(
    a: Seq<BvhNode<V>>,
    b: Seq<BvhNode<V>>,
    input: Seq<BvhItem<V, T>>,
    bound: int,
    nd: BvhNode<V>,
)
    requires
        a.len() == b.len(),
        forall|p: int| bound <= p < a.len() ==> a[p] == b[p],
        seed_ok(a, input, nd, bound),
    ensures
        root_seq(a, nd) == root_seq(b, nd),
        seed_ok(b, input, nd, bound),
{
    if nd.count == 0 {
        lemma_leaf_seq_frame(a, b, bound, nd.start_index as int);
        lemma_leaf_seq_frame(a, b, bound, nd.start_index + 1);
    }
}

proof fn lemma_forest_frame<V: BvhVolume, T>(
    a: Seq<BvhNode<V>>,
    b: Seq<BvhNode<V>>,
    input: Seq<BvhItem<V, T>>,
    bound: int,
    roots: Seq<BvhNode<V>>,
)
    requires
        a.len() == b.len(),
        forall|p: int| bound <= p < a.len() ==> a[p] == b[p],
        forall|k: int| 0 <= k < roots.len() ==> seed_ok(a, input, #[trigger] roots[k], bound),
    ensures
        forest_ms(a, roots) == forest_ms(b, roots),
        forall|k: int| 0 <= k < roots.len() ==> seed_ok(b, input, #[trigger] roots[k], bound),
    decreases roots.len(),
{
    assert forall|k: int| 0 <= k < roots.len() implies seed_ok(b, input, #[trigger] roots[k], bound) by {
        lemma_root_frame(a, b, input, bound, roots[k]);
    }
    if roots.len() > 0 {
        lemma_forest_frame(a, b, input, bound, roots.drop_last());
        lemma_root_frame(a, b, input, bound, roots.last());
    }
}

proof fn lemma_rest_frame<V: BvhVolume, T>(
    a: Seq<BvhNode<V>>,
    b: Seq<BvhNode<V>>,
    input: Seq<BvhItem<V, T>>,
    bound: int,
    cur: Seq<BvhNode<V>>,
    i: int,
    skip: Set<int>,
)
    requires
        a.len() == b.len(),
        forall|p: int| bound <= p < a.len() ==> a[p] == b[p],
        forall|k: int| 0 <= k < cur.len() ==> seed_ok(a, input, #[trigger] cur[k], bound),
        0 <= i,
    ensures
        rest_ms(a, cur, i, skip) == rest_ms(b, cur, i, skip),
    decreases cur.len() - i,
{
    if i < cur.len() {
        lemma_root_frame(a, b, input, bound, cur[i]);
        lemma_rest_frame(a, b, input, bound, cur, i + 1, skip);
    }
}

proof fn lemma_rest_skip_agree<V>(
    nodes: Seq<BvhNode<V>>,
    cur: Seq<BvhNode<V>>,
    i: int,
    s1: Set<int>,
    s2: Set<int>,
)
    requires
        forall|j: int| i <= j < cur.len() ==> (s1.contains(j) <==> s2.contains(j)),
    ensures
        rest_ms(nodes, cur, i, s1) == rest_ms(nodes, cur, i, s2),
    decreases cur.len() - i,
{
    if 0 <= i < cur.len() {
        lemma_rest_skip_agree(nodes, cur, i + 1, s1, s2);
    }
}

proof fn lemma_rest_take<V>(
    nodes: Seq<BvhNode<V>>,
    cur: Seq<BvhNode<V>>,
    i: int,
    skip: Set<int>,
    b: int,
)
    requires
        0 <= i <= b < cur.len(),
        !skip.contains(b),
    ensures
        rest_ms(nodes, cur, i, skip) == rest_ms(nodes, cur, i, skip.insert(b)).add(
            root_seq(nodes, cur[b]).to_multiset(),
        ),
    decreases cur.len() - i,
{
    if i < b {
        lemma_rest_take(nodes, cur, i + 1, skip, b);
        assert(rest_ms(nodes, cur, i, skip) =~= rest_ms(nodes, cur, i, skip.insert(b)).add(
            root_seq(nodes, cur[b]).to_multiset(),
        ));
    } else {
        lemma_rest_skip_agree(nodes, cur, i + 1, skip, skip.insert(b));
        assert(rest_ms(nodes, cur, i, skip) =~= rest_ms(nodes, cur, i, skip.insert(b)).add(
            root_seq(nodes, cur[b]).to_multiset(),
        ));
    }
}

/// Among the best-neighbour choices of a level of two or more nodes there
/// is a mutual pair: following choices from any node, costs never grow,
/// and between equal costs the first index wins, so the walk ends in a
/// node and its choice choosing each other.
proof fn lemma_mutual_pair<V: BvhVolume>(cur: Seq<BvhNode<V>>, best: Seq<usize>, a: int) -> (x: int)
    requires
        cur.len() >= 2,
        best.len() == cur.len(),
        forall|j: int| 0 <= j < cur.len() ==> is_best(cur, j, #[trigger] best[j] as int),
        0 <= a < cur.len(),
    ensures
        0 <= x < best[x] < cur.len(),
        best[best[x] as int] == x,
    decreases pair_cost(cur, a, best[a] as int) as int, a,
{
    let b = best[a] as int;
    assert(is_best(cur, a, b));
    assert(is_best(cur, b, best[b] as int));
    let c = best[b] as int;
    if c == a {
        if b > a {
            a
        } else {
            b
        }
    } else {
        assert(in_window(b, a, cur.len() as int));
        assert(is_best(cur, c, best[c] as int));
        assert(in_window(c, b, cur.len() as int));
        assert(pair_cost(cur, c, b) == pair_cost(cur, b, c));
        assert(pair_cost(cur, b, a) == pair_cost(cur, a, b));
        lemma_mutual_pair(cur, best, c)
    }
}

/// Merging two sibling leaves into their parent pays off when
/// `(lc + rc - TRAVERSE_COST) * area(parent) < lc * area(left) + rc * area(right)`
/// with `TRAVERSE_COST = 1.5`; both sides are doubled to stay in integers.
pub open spec fn sah_prefers_merge(lc: int, rc: int, parent: int, left: int, right: int) -> bool {
    (2 * (lc + rc) - 3) * parent < 2 * (lc * left + rc * right)
}

/// No node under `i` with two leaf children is one that the heuristic
/// would still merge.
pub open spec fn sah_settled<V: BvhVolume>(nodes: Seq<BvhNode<V>>, i: int) -> bool
    decreases nodes.len() - i,
{
    if 0 <= i < nodes.len() && nodes[i].count == 0 && has_children(nodes, i) {
        let c = nodes[i].start_index as int;
        if nodes[c].count > 0 && nodes[c + 1].count > 0 {
            !sah_prefers_merge(
                nodes[c].count as int,
                nodes[c + 1].count as int,
                nodes[i].volume.spec_area() as int,
                nodes[c].volume.spec_area() as int,
                nodes[c + 1].volume.spec_area() as int,
            )
        } else {
            sah_settled(nodes, c) && sah_settled(nodes, c + 1)
        }
    } else {
        true
    }
}

fn sah_check(lc: u32, rc: u32, parent: u64, left: u64, right: u64) -> (r: bool)
    requires
        lc >= 1,
        rc >= 1,
    ensures
        r == sah_prefers_merge(lc as int, rc as int, parent as int, left as int, right as int),
{
    let lc = lc as u128;
    let rc = rc as u128;
    let parent = parent as u128;
    let left = left as u128;
    let right = right as u128;
    proof {
        assert((2 * (lc + rc) - 3) * parent <= 0x4_0000_0000 * 0x1_0000_0000_0000_0000) by (nonlinear_arith)
            requires
                lc < 0x1_0000_0000,
                rc < 0x1_0000_0000,
                lc >= 1,
                rc >= 1,
                parent < 0x1_0000_0000_0000_0000,
        ;
        assert(lc * left <= 0x1_0000_0000 * 0x1_0000_0000_0000_0000) by (nonlinear_arith)
            requires
                lc < 0x1_0000_0000,
                left < 0x1_0000_0000_0000_0000,
        ;
        assert(rc * right <= 0x1_0000_0000 * 0x1_0000_0000_0000_0000) by (nonlinear_arith)
            requires
                rc < 0x1_0000_0000,
                right < 0x1_0000_0000_0000_0000,
        ;
    }
    (2 * (lc + rc) - 3) * parent < 2 * (lc * left + rc * right)
}

/// One top-down pass of leaf merging below node `i`: an interior node
/// whose children are both leaves becomes one leaf when the heuristic
/// prefers it, and its children become dead nodes. Returns whether any
/// merge happened.
fn merge_pass<V: BvhVolume, T>(
    nodes: &mut Vec<BvhNode<V>>,
    items: &Vec<BvhItem<V, T>>,
    i: usize,
    Ghost(lo): Ghost<int>,
) -> (changed: bool)
    requires
        node_ok(old(nodes)@, items@, i as int, lo),
        items@.len() <= u32::MAX,
        old(nodes)@.len() <= u32::MAX,
    ensures
        final(nodes)@.len() == old(nodes)@.len(),
        node_ok(final(nodes)@, items@, i as int, lo),
        subtree_count(final(nodes)@, i as int) == subtree_count(old(nodes)@, i as int),
        final(nodes)@[i as int].volume == old(nodes)@[i as int].volume,
        forall|p: int|
            0 <= p < old(nodes)@.len() && !#[trigger] in_subtree(old(nodes)@, i as int, p)
                ==> final(nodes)@[p] == old(nodes)@[p],
        changed ==> interiors(final(nodes)@, i as int) < interiors(old(nodes)@, i as int),
        !changed ==> final(nodes)@ == old(nodes)@,
        !changed ==> sah_settled(old(nodes)@, i as int),
        forall|p: int| #[trigger] in_subtree(final(nodes)@, i as int, p) ==> in_subtree(old(nodes)@, i as int, p),
        forall|p: int|
            #[trigger] in_subtree(old(nodes)@, i as int, p) && !in_subtree(final(nodes)@, i as int, p)
                ==> final(nodes)@[p].count == 0 && final(nodes)@[p].start_index == 0,
    decreases old(nodes)@.len() - i,
{
    let ghost n0 = nodes@;
    let parent = nodes[i];
    if parent.count != 0 || parent.start_index == 0 {
        return false;
    }
    let c = parent.start_index as usize;
    let left = nodes[c];
    let right = nodes[c + 1];
    let ghost cl = subtree_count(n0, c as int);
    proof {
        lemma_count_positive(n0, items@, c as int, lo);
        lemma_count_positive(n0, items@, c + 1, lo + cl);
        assert(in_subtree(n0, c as int, c as int));
        assert(in_subtree(n0, c + 1, c + 1));
    }
    if left.count == 0 || right.count == 0 {
        let mut changed = false;
        if left.count == 0 {
            changed = merge_pass(nodes, items, c, Ghost(lo));
            proof {
                assert(!changed ==> sah_settled(n0, c as int));
                let n1 = nodes@;
                assert forall|p: int| #[trigger] in_subtree(n0, c + 1, p) implies n0[p] == n1[p] by {
                    if in_subtree(n0, c as int, p) {
                        lemma_children_disjoint(n0, items@, i as int, lo, p);
                    }
                    lemma_subtree_after(n0, c + 1, p);
                }
                lemma_node_ok_frame(n0, items@, n1, items@, c + 1, lo + cl);
                assert(!in_subtree(n0, c as int, i as int)) by {
                    if in_subtree(n0, c as int, i as int) {
                        lemma_subtree_after(n0, c as int, i as int);
                    }
                }
            }
        }
        let ghost n1 = nodes@;
        proof {
            assert(!changed ==> sah_settled(n0, c as int) && n1 == n0);
            assert(forall|p: int| #[trigger] in_subtree(n1, c + 1, p) == in_subtree(n0, c + 1, p));
            assert(forall|p: int|
                0 <= p < n0.len() && !#[trigger] in_subtree(n0, c as int, p) ==> n1[p] == n0[p]);
        }
        if right.count == 0 {
            let changed_right = merge_pass(nodes, items, c + 1, Ghost(lo + cl));
            proof {
                let n2 = nodes@;
                assert forall|p: int| #[trigger] in_subtree(n1, c as int, p) implies n1[p] == n2[p] by {
                    if in_subtree(n1, c + 1, p) {
                        lemma_children_disjoint(n1, items@, i as int, lo, p);
                    }
                    lemma_subtree_after(n1, c as int, p);
                }
                lemma_node_ok_frame(n1, items@, n2, items@, c as int, lo);
                assert(!in_subtree(n1, c + 1, i as int)) by {
                    if in_subtree(n1, c + 1, i as int) {
                        lemma_subtree_after(n1, c + 1, i as int);
                    }
                }
            }
            proof {
                assert(!changed_right ==> sah_settled(n1, c + 1) && nodes@ == n1);
            }
            changed = changed || changed_right;
        }
        proof {
            assert(forall|p: int| #[trigger] in_subtree(nodes@, c as int, p) == in_subtree(n1, c as int, p));
            assert(forall|p: int| #[trigger] in_subtree(n1, c as int, p) ==> in_subtree(n0, c as int, p));
            assert(forall|p: int| #[trigger] in_subtree(nodes@, c + 1, p) ==> in_subtree(n1, c + 1, p));
            assert(forall|p: int|
                #[trigger] in_subtree(n0, c as int, p) && !in_subtree(n1, c as int, p) ==> n1[p].count == 0
                    && n1[p].start_index == 0);
            assert(forall|p: int|
                #[trigger] in_subtree(n1, c + 1, p) && !in_subtree(nodes@, c + 1, p) ==> nodes@[p].count == 0
                    && nodes@[p].start_index == 0);
            assert(forall|p: int|
                0 <= p < n1.len() && !#[trigger] in_subtree(n1, c + 1, p) ==> nodes@[p] == n1[p]);
        }
        proof {
            if !changed {
                assert(sah_settled(n0, c as int));
                assert(sah_settled(n0, c + 1));
                assert(sah_settled(n0, i as int));
            }
        }
        proof {
            let n2 = nodes@;
            assert forall|p: int|
                0 <= p < n0.len() && !#[trigger] in_subtree(n0, i as int, p) implies n2[p] == n0[p] by {
                assert(!in_subtree(n0, c as int, p));
                assert(!in_subtree(n0, c + 1, p));
                assert(n1[p] == n0[p]);
                assert(!in_subtree(n1, c + 1, p));
            }
            assert(!in_subtree(n0, c as int, i as int)) by {
                if in_subtree(n0, c as int, i as int) {
                    lemma_subtree_after(n0, c as int, i as int);
                }
            }
            assert(!in_subtree(n0, c + 1, i as int)) by {
                if in_subtree(n0, c + 1, i as int) {
                    lemma_subtree_after(n0, c + 1, i as int);
                }
            }
            assert(!in_subtree(n0, c + 1, c as int)) by {
                if in_subtree(n0, c + 1, c as int) {
                    lemma_subtree_after(n0, c + 1, c as int);
                }
            }
            assert(n1[i as int] == n0[i as int]);
            assert(n2[i as int] == n0[i as int]);
            assert(n1[c as int].volume == n0[c as int].volume);
            assert(!in_subtree(n1, c + 1, c as int));
            assert(n2[c as int] == n1[c as int]);
            assert(n1[c + 1] == n0[c + 1]) by {
                if in_subtree(n0, c as int, c + 1) {
                    lemma_children_disjoint(n0, items@, i as int, lo, c + 1);
                }
            }
            assert(n2[c + 1].volume == n0[c + 1].volume);
            assert(subtree_count(n1, c as int) == cl);
            assert(subtree_count(n2, c as int) == cl);
            assert(node_ok(n1, items@, c + 1, lo + cl));
            assert(node_ok(n2, items@, c as int, lo));
            assert(node_ok(n2, items@, c + 1, lo + cl));
            assert(subtree_count(n2, c + 1) == subtree_count(n0, c + 1));
            assert forall|p: int| #[trigger] in_subtree(n2, i as int, p) implies in_subtree(n0, i as int, p) by {
                if p != i {
                    assert(in_subtree(n2, c as int, p) || in_subtree(n2, c + 1, p));
                }
            }
            assert forall|p: int|
                #[trigger] in_subtree(n0, i as int, p) && !in_subtree(n2, i as int, p) implies n2[p].count == 0
                    && n2[p].start_index == 0 by {
                assert(p != i);
                assert(!in_subtree(n2, c as int, p) && !in_subtree(n2, c + 1, p));
                lemma_subtree_after(n0, i as int, p);
                if in_subtree(n0, c as int, p) {
                    lemma_children_disjoint(n0, items@, i as int, lo, p);
                    assert(!in_subtree(n1, c + 1, p));
                    assert(n2[p] == n1[p]);
                } else {
                    assert(in_subtree(n0, c + 1, p));
                    assert(in_subtree(n1, c + 1, p));
                }
            }
        }
        return changed;
    }
    let lc = left.count;
    let rc = right.count;
    let parent_area = parent.volume.area();
    let left_area = left.volume.area();
    let right_area = right.volume.area();
    if sah_check(lc, rc, parent_area, left_area, right_area) {
        proof {
            assert(node_ok(n0, items@, c as int, lo));
            assert(node_ok(n0, items@, c + 1, lo + cl));
            assert(left.start_index == lo);
            assert(right.start_index == lo + lc);
            assert forall|k: int| lo <= k < lo + lc + rc implies #[trigger] parent.volume.encloses(
                items@[k].volume,
            ) by {
                if k < lo + lc {
                    V::lemma_encloses_transitive(parent.volume, left.volume, items@[k].volume);
                } else {
                    V::lemma_encloses_transitive(parent.volume, right.volume, items@[k].volume);
                }
            }
        }
        let start = if left.start_index <= right.start_index { left.start_index } else { right.start_index };
        nodes.set(i, BvhNode { volume: parent.volume, count: lc + rc, start_index: start });
        nodes.set(c, BvhNode { volume: left.volume, count: 0, start_index: 0 });
        nodes.set(c + 1, BvhNode { volume: right.volume, count: 0, start_index: 0 });
        proof {
            let n2 = nodes@;
            assert forall|p: int|
                0 <= p < n0.len() && !#[trigger] in_subtree(n0, i as int, p) implies n2[p] == n0[p] by {
                assert(in_subtree(n0, i as int, c as int));
                assert(in_subtree(n0, i as int, c + 1));
            }
            assert forall|p: int| #[trigger] in_subtree(n2, i as int, p) implies in_subtree(n0, i as int, p) by {
                assert(p == i);
            }
            assert forall|p: int|
                #[trigger] in_subtree(n0, i as int, p) && !in_subtree(n2, i as int, p) implies n2[p].count == 0
                    && n2[p].start_index == 0 by {
                assert(p != i);
                if in_subtree(n0, c as int, p) {
                    assert(p == c);
                } else {
                    assert(in_subtree(n0, c + 1, p));
                    assert(p == c + 1);
                }
            }
        }
        true
    } else {
        false
    }
}

/// The volumes of a level of nodes.
pub open spec fn vols_of<V>(level: Seq<BvhNode<V>>) -> Seq<V> {
    level.map_values(|nd: BvhNode<V>| nd.volume)
}

/// The cost of merging volumes `a` and `b` of a level, the lower index
/// first.
pub open spec fn vol_cost<V: BvhVolume>(vols: Seq<V>, a: int, b: int) -> u64 {
    if a < b {
        vols[a].spec_merge(vols[b]).spec_area()
    } else {
        vols[b].spec_merge(vols[a]).spec_area()
    }
}

/// `b` is the neighbour of `i` whose merge with it costs least, the first
/// in index order among equal costs.
pub open spec fn best_vol<V: BvhVolume>(vols: Seq<V>, i: int, b: int) -> bool {
    &&& in_window(i, b, vols.len() as int)
    &&& forall|j: int|
        #[trigger] in_window(i, j, vols.len() as int) ==> vol_cost(vols, i, b) <= vol_cost(vols, i, j)
            && (vol_cost(vols, i, j) == vol_cost(vols, i, b) ==> b <= j)
}

/// The best neighbour of `i` in a level.
pub open spec fn best_of<V: BvhVolume>(vols: Seq<V>, i: int) -> int {
    choose|b: int| best_vol(vols, i, b)
}

/// One round of clustering over a level, from node `i` on: a node whose
/// best neighbour has another best neighbour goes on unchanged; two nodes
/// that are each other's best neighbours go on as one, merged at the lower
/// index.
pub open spec fn round_from<V: BvhVolume>(vols: Seq<V>, i: int) -> Seq<V>
    decreases vols.len() - i,
{
    if 0 <= i < vols.len() {
        let b = best_of(vols, i);
        (if best_of(vols, b) != i {
            seq![vols[i]]
        } else if b > i {
            seq![vols[i].spec_merge(vols[b])]
        } else {
            seq![]
        }) + round_from(vols, i + 1)
    } else {
        seq![]
    }
}

/// The levels of a clustering: each level of two or more volumes gives the
/// next by one round, and the last level is a single volume.
pub open spec fn clusters<V: BvhVolume>(levels: Seq<Seq<V>>) -> bool {
    &&& levels.len() >= 1
    &&& levels.last().len() == 1
    &&& forall|l: int|
        0 <= l < levels.len() - 1 ==> (#[trigger] levels[l]).len() >= 2 && levels[l + 1]
            == round_from(levels[l], 0)
}

/// `vols` are the input volumes in order of their Morton codes, equal
/// codes in input order.
pub open spec fn morton_seeded<V: BvhVolume, T>(vols: Seq<V>, input: Seq<(T, V)>) -> bool {
    exists|perm: Seq<int>|
        #![trigger is_permutation(perm, input.len())]
        is_permutation(perm, input.len()) && vols.len() == input.len() && (forall|k: int|
            0 <= k < vols.len() ==> #[trigger] vols[k] == input[perm[k]].1) && (forall|a: int, b: int|
            0 <= a < b < vols.len() ==> #[trigger] input[perm[a]].1.spec_morton_code()
                <= #[trigger] input[perm[b]].1.spec_morton_code() && (input[perm[a]].1.spec_morton_code()
                == input[perm[b]].1.spec_morton_code() ==> perm[a] < perm[b]))
}

/// The best-neighbour choice of the search is the one of the volumes.
proof fn lemma_best_of<V: BvhVolume>(cur: Seq<BvhNode<V>>, i: int, b: int)
    requires
        0 <= i < cur.len(),
        is_best(cur, i, b),
    ensures
        best_of(vols_of(cur), i) == b,
{
    let vols = vols_of(cur);
    assert(vols.len() == cur.len());
    assert forall|x: int, y: int| 0 <= x < cur.len() && 0 <= y < cur.len() implies #[trigger] vol_cost(vols, x, y)
        == pair_cost(cur, x, y) by {
        assert(vols[x] == cur[x].volume && vols[y] == cur[y].volume);
    }
    assert(best_vol(vols, i, b)) by {
        assert forall|j: int| #[trigger] in_window(i, j, vols.len() as int) implies vol_cost(vols, i, b)
            <= vol_cost(vols, i, j) && (vol_cost(vols, i, j) == vol_cost(vols, i, b) ==> b <= j) by {
            assert(in_window(i, j, cur.len() as int));
            assert(vol_cost(vols, i, j) == pair_cost(cur, i, j));
            assert(vol_cost(vols, i, b) == pair_cost(cur, i, b));
        }
    }
    let c = best_of(vols, i);
    assert(best_vol(vols, i, c));
    assert(in_window(i, c, vols.len() as int));
    assert(in_window(i, b, vols.len() as int));
}

/// `perm` maps `0 .. n` one to one into `0 .. n`.
pub open spec fn is_permutation(perm: Seq<int>, n: nat) -> bool {
    &&& perm.len() == n
    &&& perm.no_duplicates()
    &&& forall|k: int| 0 <= k < n ==> 0 <= #[trigger] perm[k] < n
}

/// The item that an input pair becomes.
pub open spec fn item_from<V, T>(pair: (T, V)) -> BvhItem<V, T> {
    BvhItem { volume: pair.1, t: pair.0 }
}

/// Relies on radsort::sort_by_key: a stable sort of the slice by the key
/// that the closure reads, which only reorders the elements.
#[verifier::external_body]
fn sort_by_code<V>(v: &mut Vec<(BvhNode<V>, usize)>)
    ensures
        exists|perm: Seq<int>|
            is_permutation(perm, old(v)@.len()) && (forall|k: int|
                0 <= k < old(v)@.len() ==> #[trigger] final(v)@[k] == old(v)@[perm[k]]) && (
            forall|a: int, b: int|
                0 <= a < b < old(v)@.len() && final(v)@[a].1 == final(v)@[b].1 ==> perm[a]
                    < perm[b]),
        final(v)@.len() == old(v)@.len(),
        forall|a: int, b: int| 0 <= a <= b < final(v)@.len() ==> final(v)@[a].1 <= final(v)@[b].1,
{
    radsort::sort_by_key(v.as_mut_slice(), |pair: &(BvhNode<V>, usize)| pair.1);
}

impl<V: BvhVolume, T: Copy> Bvh<V, T> {
    /// Builds the hierarchy over the `(payload, volume)` pairs of `input`.
    /// With `max_items == 0`, or no input, the hierarchy is empty.
    ///
    /// The items are the input pairs in leaf order; with `n` of them there
    /// are `2n - 1` nodes, some of them dead after leaf merging.
    #[verifier::rlimit(60)]
    pub fn new(max_items: usize, input: Vec<(T, V)>) -> (r: Self)
        requires
            input@.len() < 0x8000_0000,
        ensures
            r.wf(),
            max_items == 0 ==> r.item_seq().len() == 0,
            max_items > 0 ==> r.item_seq().len() == input@.len(),
            max_items > 0 && input@.len() > 0 ==> r.node_seq().len() == 2 * input@.len() - 1,
            sah_settled(r.node_seq(), 0),
            max_items > 0 && input@.len() > 0 ==> exists|levels: Seq<Seq<V>>|
                #![trigger clusters(levels)]
                clusters(levels) && morton_seeded(levels[0], input@) && levels.last()[0]
                    == r.node_seq()[0].volume,
            forall|p: int|
                0 <= p < r.node_seq().len() && !#[trigger] in_subtree(r.node_seq(), 0, p)
                    ==> r.node_seq()[p].count == 0 && r.node_seq()[p].start_index == 0,
            exists|perm: Seq<int>|
                is_permutation(perm, r.item_seq().len()) && forall|k: int|
                    0 <= k < r.item_seq().len() ==> #[trigger] r.item_seq()[k] == item_from(
                        input@[perm[k]],
                    ),
    {
        let n = input.len();
        if max_items == 0 || n == 0 {
            let r = Self::empty();
            proof {
                assert(is_permutation(Seq::<int>::empty(), 0));
                assert(sah_settled(r.node_seq(), 0));
            }
            return r;
        }
        // Seeds: one leaf per input item, with the Morton code of its volume.
        let mut unordered: Vec<BvhItem<V, T>> = Vec::with_capacity(n);
        let mut seeds: Vec<(BvhNode<V>, usize)> = Vec::with_capacity(n);
        let mut i: usize = 0;
        while i < n
            invariant
                i <= n,
                n == input@.len(),
                unordered@.len() == i,
                seeds@.len() == i,
                forall|k: int| 0 <= k < i ==> #[trigger] unordered@[k] == item_from(input@[k]),
                forall|k: int|
                    0 <= k < i ==> (#[trigger] seeds@[k]).0 == (BvhNode {
                        volume: input@[k].1,
                        count: 1u32,
                        start_index: k as u32,
                    }),
                forall|k: int| 0 <= k < i ==> (#[trigger] seeds@[k]).1 == input@[k].1.spec_morton_code(),
            decreases n - i,
        {
            let pair = input[i];
            let volume = pair.1;
            seeds.push((BvhNode { volume, count: 1, start_index: i as u32 }, volume.morton_code()));
            unordered.push(BvhItem { volume, t: pair.0 });
            i = i + 1;
        }
        let ghost before = seeds@;
        sort_by_code(&mut seeds);
        let ghost perm = choose|perm: Seq<int>|
            is_permutation(perm, before.len()) && (forall|k: int|
                0 <= k < before.len() ==> #[trigger] seeds@[k] == before[perm[k]]) && (forall|
                a: int,
                b: int,
            |
                0 <= a < b < before.len() && seeds@[a].1 == seeds@[b].1 ==> perm[a] < perm[b]);
        let ghost m0 = perm.to_multiset();
        let ghost level0 = seeds@.map_values(|pair: (BvhNode<V>, usize)| pair.0.volume);
        proof {
            assert forall|k: int| 0 <= k < n implies #[trigger] level0[k] == input@[perm[k]].1 by {
                assert(seeds@[k] == before[perm[k]]);
            }
            assert forall|a: int, b: int|
                0 <= a < b < n implies #[trigger] input@[perm[a]].1.spec_morton_code()
                    <= #[trigger] input@[perm[b]].1.spec_morton_code() && (
                input@[perm[a]].1.spec_morton_code() == input@[perm[b]].1.spec_morton_code()
                    ==> perm[a] < perm[b]) by {
                assert(seeds@[a] == before[perm[a]]);
                assert(seeds@[b] == before[perm[b]]);
                assert(seeds@[a].1 <= seeds@[b].1);
            }
            assert(is_permutation(perm, input@.len()));
            assert(morton_seeded(level0, input@));
        }
        // The node array, filled from the back.
        let total: usize = 2 * n - 1;
        let mut nodes: Vec<BvhNode<V>> = Vec::with_capacity(total);
        let infinite = V::infinity();
        let mut k: usize = 0;
        while k < total
            invariant
                nodes@.len() == k,
                k <= total,
            decreases total - k,
        {
            nodes.push(BvhNode { volume: infinite, count: 0, start_index: u32::MAX });
            k = k + 1;
        }
        let mut current: Vec<BvhNode<V>> = Vec::with_capacity(n);
        let mut k: usize = 0;
        proof {
            assert(perm.take(0) =~= Seq::<int>::empty());
            assert(forest_ms(nodes@, current@) =~= perm.take(0).to_multiset());
        }
        while k < n
            invariant
                k <= n,
                n == input@.len(),
                n < 0x8000_0000,
                total == 2 * n - 1,
                nodes@.len() == total,
                seeds@.len() == n,
                before.len() == n,
                unordered@.len() == n,
                is_permutation(perm, n as nat),
                forall|j: int| 0 <= j < n ==> #[trigger] seeds@[j] == before[perm[j]],
                level0 == seeds@.map_values(|pair: (BvhNode<V>, usize)| pair.0.volume),
                forall|j: int|
                    0 <= j < n ==> (#[trigger] before[j]).0 == (BvhNode {
                        volume: input@[j].1,
                        count: 1u32,
                        start_index: j as u32,
                    }),
                forall|j: int| 0 <= j < n ==> #[trigger] unordered@[j] == item_from(input@[j]),
                current@.len() == k,
                forall|j: int| 0 <= j < k ==> #[trigger] current@[j] == seeds@[j].0,
                forall|j: int|
                    0 <= j < k ==> seed_ok(nodes@, unordered@, #[trigger] current@[j], total as int),
                forest_ms(nodes@, current@) == perm.take(k as int).to_multiset(),
            decreases n - k,
        {
            let seed = seeds[k].0;
            let ghost prev = current@;
            current.push(seed);
            proof {
                let pk = perm[k as int];
                assert(0 <= pk < n);
                assert(seed == before[pk].0);
                assert(seed.start_index == pk);
                assert(current@.drop_last() == prev);
                assert(root_seq(nodes@, seed) == seq![pk]);
                assert(perm.take(k + 1) == perm.take(k as int).push(pk));
                vstd::seq_lib::lemma_multiset_commutative(perm.take(k as int), seq![pk]);
                assert(perm.take(k as int).push(pk) == perm.take(k as int) + seq![pk]);
                assert(seed_ok(nodes@, unordered@, seed, total as int));
            }
            k = k + 1;
        }
        proof {
            assert(perm.take(n as int) == perm);
            assert(vols_of(current@) =~= level0);
        }
        // Clustering: merge mutual best neighbours until one root is left.
        let ghost mut levels: Seq<Seq<V>> = seq![vols_of(current@)];
        let mut insert_index: usize = total;
        let mut next: Vec<BvhNode<V>> = Vec::with_capacity(n);
        let mut best: Vec<usize> = Vec::with_capacity(n);
        let mut cache = FindCache::new();
        while current.len() > 1
            invariant
                n == input@.len(),
                1 <= n < 0x8000_0000,
                total == 2 * n - 1,
                nodes@.len() == total,
                unordered@.len() == n,
                is_permutation(perm, n as nat),
                m0 == perm.to_multiset(),
                forall|j: int| 0 <= j < n ==> #[trigger] unordered@[j] == item_from(input@[j]),
                current@.len() >= 1,
                insert_index == 2 * current@.len() - 1,
                array_ok(nodes@, unordered@, insert_index as int),
                forall|j: int|
                    0 <= j < current@.len() ==> seed_ok(
                        nodes@,
                        unordered@,
                        #[trigger] current@[j],
                        insert_index as int,
                    ),
                forest_ms(nodes@, current@) == m0,
                current@.len() <= n,
                forall|p: int| insert_index <= p < total ==> covered(nodes@, current@, p),
                levels.len() >= 1,
                levels[0] == level0,
                levels.last() == vols_of(current@),
                forall|l: int|
                    0 <= l < levels.len() - 1 ==> (#[trigger] levels[l]).len() >= 2 && levels[l + 1]
                        == round_from(levels[l], 0),
                cache.wf(),
            decreases current@.len(),
        {
            let len = current.len();
            best.clear();
            let mut i: usize = 0;
            while i < len
                invariant
                    len == current@.len(),
                    len >= 2,
                    best@.len() == i,
                    i <= len,
                    cache.wf(),
                    cache.ready_for(current@, i as int),
                    forall|j: int| 0 <= j < i ==> is_best(current@, j, #[trigger] best@[j] as int),
                decreases len - i,
            {
                let b = find_best_node(&mut cache, i, &current);
                best.push(b);
                i = i + 1;
            }
            let ghost x0 = lemma_mutual_pair(current@, best@, 0);
            next.clear();
            let ghost ii0 = insert_index as int;
            proof {
                assert forall|p: int| insert_index <= p < total implies covered(nodes@, next@, p)
                    || covered_rest(nodes@, current@, 0, Set::empty(), p) by {
                    assert(covered(nodes@, current@, p));
                    let k = choose|k: int| 0 <= k < current@.len() && #[trigger] covers(nodes@, current@[k], p);
                    assert(!Set::<int>::empty().contains(k));
                    assert(covered_rest(nodes@, current@, 0, Set::empty(), p));
                }
                lemma_forest_is_rest(nodes@, current@);
                assert(vols_of(next@) =~= Seq::<V>::empty());
                assert(vols_of(next@) + round_from(vols_of(current@), 0) =~= round_from(vols_of(current@), 0));
                assert(forest_ms(nodes@, next@) =~= Multiset::<int>::empty());
                assert(forest_ms(nodes@, next@).add(rest_ms(nodes@, current@, 0, Set::empty())) =~= m0);
            }
            let ghost mut pending: Set<int> = Set::empty();
            let ghost mut merged = false;
            let mut i: usize = 0;
            while i < len
                invariant
                    n == input@.len(),
                    1 <= n < 0x8000_0000,
                    total == 2 * n - 1,
                    nodes@.len() == total,
                    unordered@.len() == n,
                    len == current@.len(),
                    len >= 2,
                    len <= n,
                    best@.len() == len,
                    forall|j: int| 0 <= j < len ==> is_best(current@, j, #[trigger] best@[j] as int),
                    0 <= x0 < best@[x0] < len,
                    best@[best@[x0] as int] == x0,
                    i <= len,
                    pending.finite(),
                    forall|p: int|
                        #[trigger] pending.contains(p) ==> i <= p < len && best@[p] < i
                            && best@[best@[p] as int] == p,
                    forall|j: int|
                        i <= j < len && #[trigger] best@[j] < i && best@[best@[j] as int] == j
                            ==> pending.contains(j),
                    insert_index == 2 * (next@.len() + (len - i) - pending.len()) - 1,
                    insert_index <= ii0,
                    ii0 == 2 * len - 1,
                    merged ==> insert_index + 2 <= ii0,
                    i > x0 ==> merged,
                    array_ok(nodes@, unordered@, insert_index as int),
                    forall|j: int|
                        0 <= j < next@.len() ==> seed_ok(
                            nodes@,
                            unordered@,
                            #[trigger] next@[j],
                            insert_index as int,
                        ),
                    forall|j: int|
                        0 <= j < len ==> seed_ok(
                            nodes@,
                            unordered@,
                            #[trigger] current@[j],
                            insert_index as int,
                        ),
                    forest_ms(nodes@, next@).add(rest_ms(nodes@, current@, i as int, pending)) == m0,
                    forall|p: int|
                        insert_index <= p < total ==> covered(nodes@, next@, p) || covered_rest(
                            nodes@,
                            current@,
                            i as int,
                            pending,
                            p,
                        ),
                    levels.len() >= 1,
                    levels[0] == level0,
                    levels.last() == vols_of(current@),
                    forall|l: int|
                        0 <= l < levels.len() - 1 ==> (#[trigger] levels[l]).len() >= 2 && levels[l + 1]
                            == round_from(levels[l], 0),
                    vols_of(next@) + round_from(vols_of(current@), i as int) == round_from(
                        vols_of(current@),
                        0,
                    ),
                    cache.wf(),
                decreases len - i,
            {
                let b = best[i];
                proof {
                    assert(is_best(current@, i as int, b as int));
                    assert(is_best(current@, b as int, best@[b as int] as int));
                    lemma_best_of(current@, i as int, b as int);
                    lemma_best_of(current@, b as int, best@[b as int] as int);
                    let vols = vols_of(current@);
                    assert(round_from(vols, i as int) == (if best_of(vols, b as int) != i {
                        seq![vols[i as int]]
                    } else if b > i {
                        seq![vols[i as int].spec_merge(vols[b as int])]
                    } else {
                        seq![]
                    }) + round_from(vols, i + 1));
                }
                let ghost vprev = vols_of(next@);
                if best[b] != i {
                    let ghost prev = next@;
                    next.push(current[i]);
                    proof {
                        assert(!pending.contains(i as int));
                        assert(next@.drop_last() == prev);
                        assert(vols_of(next@) =~= vprev.push(current@[i as int].volume));
                        assert(vols_of(next@) + round_from(vols_of(current@), i + 1) =~= round_from(
                            vols_of(current@),
                            0,
                        ));
                        assert forall|j: int|
                            i + 1 <= j < len && #[trigger] best@[j] < i + 1 && best@[best@[j] as int] == j
                                implies pending.contains(j) by {
                            if best@[j] == i {
                                assert(is_best(current@, j, i as int));
                            }
                        }
                        assert(forest_ms(nodes@, next@).add(rest_ms(nodes@, current@, i + 1, pending))
                            =~= m0);
                        assert forall|p: int| insert_index <= p < total implies covered(nodes@, next@, p)
                            || covered_rest(nodes@, current@, i + 1, pending, p) by {
                            if covered(nodes@, prev, p) {
                                let k = choose|k: int| 0 <= k < prev.len() && #[trigger] covers(nodes@, prev[k], p);
                                assert(next@[k] == prev[k]);
                            } else {
                                let k = choose|k: int|
                                    i <= k < current@.len() && !pending.contains(k) && #[trigger] covers(nodes@, current@[k], p);
                                if k == i {
                                    assert(next@[prev.len() as int] == current@[k]);
                                }
                            }
                        }
                    }
                } else if b > i {
                    let ghost n_before = nodes@;
                    let ghost prev = next@;
                    proof {
                        assert(!pending.contains(i as int));
                        assert(!pending.contains(b as int));
                        assert(pending.subset_of(set_int_range(i + 1, len as int).remove(b as int)));
                        lemma_int_range(i + 1, len as int);
                        lemma_len_subset(pending, set_int_range(i + 1, len as int).remove(b as int));
                    }
                    insert_index = insert_index - 2;
                    let left = current[i];
                    let right = current[b];
                    nodes.set(insert_index, left);
                    nodes.set(insert_index + 1, right);
                    let parent_volume = left.volume.merge(&right.volume);
                    let parent = BvhNode { volume: parent_volume, count: 0, start_index: insert_index as u32 };
                    next.push(parent);
                    proof {
                        let na = nodes@;
                        let ii = insert_index as int;
                        V::lemma_merge_encloses(left.volume, right.volume);
                        assert(vols_of(next@) =~= vprev.push(left.volume.spec_merge(right.volume)));
                        assert(vols_of(next@) + round_from(vols_of(current@), i + 1) =~= round_from(
                            vols_of(current@),
                            0,
                        ));
                        assert forall|p: int| ii + 2 <= p < na.len() implies n_before[p] == na[p] by {}
                        lemma_forest_frame(n_before, na, unordered@, ii + 2, prev);
                        lemma_forest_frame(n_before, na, unordered@, ii + 2, current@);
                        lemma_rest_frame(n_before, na, unordered@, ii + 2, current@, i as int, pending);
                        lemma_root_frame(n_before, na, unordered@, ii + 2, left);
                        lemma_root_frame(n_before, na, unordered@, ii + 2, right);
                        assert(leaf_seq(na, ii) == root_seq(na, left));
                        assert(leaf_seq(na, ii + 1) == root_seq(na, right));
                        assert(root_seq(na, parent) == root_seq(na, left) + root_seq(na, right));
                        vstd::seq_lib::lemma_multiset_commutative(root_seq(na, left), root_seq(na, right));
                        lemma_rest_take(na, current@, i + 1, pending, b as int);
                        assert(next@.drop_last() == prev);
                        let pending0 = pending;
                        pending = pending.insert(b as int);
                        if left.count == 0 {
                            lemma_in_subtree_frame(n_before, na, ii + 2, left.start_index as int);
                            lemma_in_subtree_frame(n_before, na, ii + 2, left.start_index + 1);
                        }
                        if right.count == 0 {
                            lemma_in_subtree_frame(n_before, na, ii + 2, right.start_index as int);
                            lemma_in_subtree_frame(n_before, na, ii + 2, right.start_index + 1);
                        }
                        let last = prev.len() as int;
                        assert(next@[last] == parent);
                        assert forall|p: int| ii <= p < total implies covered(na, next@, p)
                            || covered_rest(na, current@, i + 1, pending, p) by {
                            if p == ii || p == ii + 1 {
                                assert(in_subtree(na, p, p));
                                assert(covers(na, parent, p));
                            } else if covered(n_before, prev, p) {
                                let k = choose|k: int| 0 <= k < prev.len() && #[trigger] covers(n_before, prev[k], p);
                                assert(next@[k] == prev[k]);
                                lemma_covers_frame(n_before, na, unordered@, ii + 2, prev[k]);
                                assert(covers(na, next@[k], p));
                            } else {
                                let k = choose|k: int|
                                    i <= k < current@.len() && !pending0.contains(k) && #[trigger] covers(n_before, current@[k], p);
                                lemma_covers_frame(n_before, na, unordered@, ii + 2, current@[k]);
                                assert(covers(na, current@[k], p));
                                if k == i || k == b {
                                    let q = if k == i { ii } else { ii + 1 };
                                    assert(na[q] == current@[k]);
                                    assert(in_subtree(na, q, p));
                                    assert(covers(na, parent, p));
                                } else {
                                    assert(!pending.contains(k));
                                }
                            }
                        }
                        merged = true;
                        assert forall|p: int| ii <= p < na.len() implies seed_ok(na, unordered@, #[trigger] na[p], p + 1) by {
                            if p >= ii + 2 {
                                assert(seed_ok(n_before, unordered@, n_before[p], p + 1));
                                assert forall|q: int| p + 1 <= q < na.len() implies n_before[q] == na[q] by {}
                                lemma_root_frame(n_before, na, unordered@, p + 1, n_before[p]);
                            }
                        }
                        assert forall|j: int| 0 <= j < next@.len() implies seed_ok(na, unordered@, #[trigger] next@[j], ii) by {
                            if j < prev.len() {
                                assert(next@[j] == prev[j]);
                                assert(seed_ok(na, unordered@, prev[j], ii + 2));
                            }
                        }
                        assert forall|j: int| 0 <= j < len implies seed_ok(na, unordered@, #[trigger] current@[j], ii) by {
                            assert(seed_ok(na, unordered@, current@[j], ii + 2));
                        }
                        assert forall|j: int|
                            i + 1 <= j < len && #[trigger] best@[j] < i + 1 && best@[best@[j] as int] == j
                                implies pending.contains(j) by {
                            if best@[j] == i {
                                assert(is_best(current@, j, i as int));
                            }
                        }
                        assert(forest_ms(na, next@).add(rest_ms(na, current@, i + 1, pending)) =~= m0);
                    }
                } else {
                    proof {
                        assert(pending.contains(i as int));
                        let old_pending = pending;
                        pending = pending.remove(i as int);
                        assert(vols_of(next@) + round_from(vols_of(current@), i + 1) =~= round_from(
                            vols_of(current@),
                            0,
                        ));
                        lemma_rest_skip_agree(nodes@, current@, i + 1, old_pending, pending);
                        assert forall|j: int|
                            i + 1 <= j < len && #[trigger] best@[j] < i + 1 && best@[best@[j] as int] == j
                                implies pending.contains(j) by {
                            if best@[j] == i {
                                assert(is_best(current@, j, i as int));
                            }
                        }
                        assert(forest_ms(nodes@, next@).add(rest_ms(nodes@, current@, i + 1, pending))
                            =~= m0);
                        assert forall|p: int| insert_index <= p < total implies covered(nodes@, next@, p)
                            || covered_rest(nodes@, current@, i + 1, pending, p) by {
                            if !covered(nodes@, next@, p) {
                                let k = choose|k: int|
                                    i <= k < current@.len() && !old_pending.contains(k) && #[trigger] covers(nodes@, current@[k], p);
                                assert(k != i);
                                assert(!pending.contains(k));
                            }
                        }
                    }
                }
                i = i + 1;
            }
            proof {
                assert forall|p: int| insert_index <= p < total implies covered(nodes@, next@, p) by {
                    if !covered(nodes@, next@, p) {
                        let k = choose|k: int|
                            len <= k < current@.len() && !pending.contains(k) && #[trigger] covers(nodes@, current@[k], p);
                    }
                }
                assert(pending =~= Set::<int>::empty());
                assert(rest_ms(nodes@, current@, len as int, pending) =~= Multiset::<int>::empty());
                assert(forest_ms(nodes@, next@) =~= m0);
                assert(perm.contains(perm[0]));
                vstd::seq_lib::to_multiset_contains(perm, perm[0]);
                if next@.len() == 0 {
                    assert(forest_ms(nodes@, next@) =~= Multiset::<int>::empty());
                }
            }
            proof {
                assert(round_from(vols_of(current@), len as int) =~= Seq::<V>::empty());
                assert(vols_of(next@) =~= round_from(vols_of(current@), 0));
                levels = levels.push(vols_of(next@));
            }
            std::mem::swap(&mut current, &mut next);
        }
        // The root goes first.
        let ghost n_before = nodes@;
        proof {
            assert(insert_index == 1);
            assert(forall|p: int| 1 <= p < total ==> covered(n_before, current@, p));
        }
        insert_index = insert_index - 1;
        let root = current[0];
        proof {
            assert(clusters(levels));
            assert(levels.last()[0] == root.volume);
        }
        nodes.set(0, root);
        let ghost shape = nodes@;
        proof {
            assert forall|p: int| 1 <= p < shape.len() implies n_before[p] == shape[p] by {}
            lemma_root_frame(n_before, shape, unordered@, 1, root);
            assert forall|p: int| 0 <= p < shape.len() implies seed_ok(shape, unordered@, #[trigger] shape[p], p + 1) by {
                if p >= 1 {
                    assert(seed_ok(n_before, unordered@, n_before[p], p + 1));
                    assert forall|q: int| p + 1 <= q < shape.len() implies n_before[q] == shape[q] by {}
                    lemma_root_frame(n_before, shape, unordered@, p + 1, n_before[p]);
                }
            }
            assert(current@.drop_last() =~= Seq::<BvhNode<V>>::empty());
            assert(forest_ms(n_before, current@) == forest_ms(n_before, current@.drop_last()).add(
                root_seq(n_before, current@.last()).to_multiset(),
            ));
            assert(forest_ms(n_before, current@.drop_last()) == Multiset::<int>::empty());
            assert(forest_ms(n_before, current@) =~= root_seq(n_before, root).to_multiset());
            assert(leaf_seq(shape, 0) == root_seq(shape, root));
            lemma_covers_frame(n_before, shape, unordered@, 1, root);
            assert forall|p: int| 0 <= p < total implies #[trigger] in_subtree(shape, 0, p) by {
                if p >= 1 {
                    assert(covered(n_before, current@, p));
                    assert(current@.len() == 1);
                    let k = choose|k: int| 0 <= k < current@.len() && #[trigger] covers(n_before, current@[k], p);
                    assert(k == 0);
                    assert(current@[0] == root);
                    assert(covers(n_before, root, p));
                    assert(covers(shape, root, p));
                }
            }
            let ls = leaf_seq(shape, 0);
            assert(ls.to_multiset() == m0);
            perm.lemma_multiset_has_no_duplicates();
            ls.lemma_multiset_has_no_duplicates_conv();
            vstd::seq_lib::to_multiset_len(ls);
            vstd::seq_lib::to_multiset_len(perm);
        }
        // Items in leaf order.
        let mut items: Vec<BvhItem<V, T>> = Vec::with_capacity(n);
        reorder(&mut nodes, 0, &unordered, &mut items, Ghost(shape));
        let ghost order = leaf_seq(shape, 0);
        proof {
            assert(items@ =~= order.map_values(|x: int| unordered@[x]));
            assert forall|p: int| 0 <= p < total implies #[trigger] in_subtree(nodes@, 0, p) by {
                assert(in_subtree(shape, 0, p));
            }
        }
        // Leaf merging, until a pass merges nothing.
        loop
            invariant
                node_ok(nodes@, items@, 0, 0),
                subtree_count(nodes@, 0) == n,
                nodes@.len() == total,
                items@.len() == n,
                n < 0x8000_0000,
                total == 2 * n - 1,
                forall|p: int|
                    0 <= p < total && !#[trigger] in_subtree(nodes@, 0, p) ==> nodes@[p].count == 0
                        && nodes@[p].start_index == 0,
                nodes@[0].volume == root.volume,
            ensures
                node_ok(nodes@, items@, 0, 0),
                subtree_count(nodes@, 0) == n,
                nodes@.len() == total,
                items@.len() == n,
                sah_settled(nodes@, 0),
                forall|p: int|
                    0 <= p < total && !#[trigger] in_subtree(nodes@, 0, p) ==> nodes@[p].count == 0
                        && nodes@[p].start_index == 0,
                nodes@[0].volume == root.volume,
            decreases interiors(nodes@, 0),
        {
            let ghost before = nodes@;
            let changed = merge_pass(&mut nodes, &items, 0, Ghost(0));
            proof {
                assert forall|p: int|
                    0 <= p < total && !#[trigger] in_subtree(nodes@, 0, p) implies nodes@[p].count == 0
                        && nodes@[p].start_index == 0 by {
                    if !in_subtree(before, 0, p) {
                        assert(nodes@[p] == before[p]);
                    }
                }
            }
            if !changed {
                proof {
                    assert(sah_settled(nodes@, 0));
                }
                break;
            }
        }
        proof {
            assert forall|k: int| 0 <= k < n implies 0 <= #[trigger] order[k] < n by {
                assert(order.contains(order[k]));
                vstd::seq_lib::to_multiset_contains(order, order[k]);
                vstd::seq_lib::to_multiset_contains(perm, order[k]);
                let j = choose|j: int| 0 <= j < perm.len() && perm[j] == order[k];
                assert(0 <= perm[j] < n);
            }
            assert(is_permutation(order, n as nat));
            assert forall|k: int| 0 <= k < n implies #[trigger] items@[k] == item_from(input@[order[k]]) by {
                assert(items@[k] == unordered@[order[k]]);
            }
        }
        let r = Bvh { nodes, items };
        proof {
            assert(clusters(levels) && morton_seeded(levels[0], input@) && levels.last()[0]
                == r.node_seq()[0].volume);
        }
        r
    }
}

} // verus!
