//! Lazy traversal of the hierarchy under a caller-supplied predicate.
use vstd::prelude::*;

use crate::tree::{
    has_children, in_subtree, lemma_child_in_subtree, lemma_descendant, lemma_node_encloses_items,
    node_ok, subtree_count, tree_ok,
};
use crate::{Bvh, BvhItem, BvhNode, BvhVolume};

verus! {

/// A predicate that decides which subtrees and items a traversal visits.
///
/// It must grow with its argument: a volume that encloses an accepted
/// volume is accepted too, so that pruning a subtree never hides an item
/// the predicate accepts.
pub trait TraverseTest<V: BvhVolume> {
    spec fn accepts(&self, volume: V) -> bool;

    proof fn lemma_accepts_grows(&self, outer: V, inner: V)
        requires
            outer.encloses(inner),
            self.accepts(inner),
        ensures
            self.accepts(outer),
    ;

    fn test(&self, volume: &V) -> (r: bool)
        ensures
            r == self.accepts(*volume),
    ;
}

/// The payloads of items `lo .. hi` whose volumes the predicate accepts,
/// in order.
pub open spec fn scan<V: BvhVolume, T, P: TraverseTest<V>>(
    items: Seq<BvhItem<V, T>>,
    tester: P,
    lo: int,
    hi: int,
) -> Seq<T>
    decreases hi - lo,
{
    if lo >= hi {
        seq![]
    } else {
        (if tester.accepts(items[lo].volume) {
            seq![items[lo].t]
        } else {
            seq![]
        }) + scan(items, tester, lo + 1, hi)
    }
}

/// What a traversal yields below node `i`: nothing where the node's
/// volume is rejected; for a leaf the accepted items of its range; for an
/// interior node the left subtree's yield, then the right one's.
pub open spec fn visit<V: BvhVolume, T, P: TraverseTest<V>>(
    nodes: Seq<BvhNode<V>>,
    items: Seq<BvhItem<V, T>>,
    tester: P,
    i: int,
) -> Seq<T>
    decreases nodes.len() - i,
{
    if 0 <= i < nodes.len() {
        if !tester.accepts(nodes[i].volume) {
            seq![]
        } else if nodes[i].count > 0 {
            scan(
                items,
                tester,
                nodes[i].start_index as int,
                nodes[i].start_index + nodes[i].count,
            )
        } else if has_children(nodes, i) {
            visit(nodes, items, tester, nodes[i].start_index as int) + visit(
                nodes,
                items,
                tester,
                nodes[i].start_index + 1,
            )
        } else {
            seq![]
        }
    } else {
        seq![]
    }
}

/// What a traversal of the whole hierarchy yields.
pub open spec fn query<V: BvhVolume, T, P: TraverseTest<V>>(
    nodes: Seq<BvhNode<V>>,
    items: Seq<BvhItem<V, T>>,
    tester: P,
) -> Seq<T> {
    if nodes.len() == 0 {
        seq![]
    } else {
        visit(nodes, items, tester, 0)
    }
}

/// What the nodes on a stack yield, top (last) first.
pub open spec fn visit_stack<V: BvhVolume, T, P: TraverseTest<V>>(
    nodes: Seq<BvhNode<V>>,
    items: Seq<BvhItem<V, T>>,
    tester: P,
    stack: Seq<u32>,
) -> Seq<T>
    decreases stack.len(),
{
    if stack.len() == 0 {
        seq![]
    } else {
        visit(nodes, items, tester, stack.last() as int) + visit_stack(
            nodes,
            items,
            tester,
            stack.drop_last(),
        )
    }
}

/// A bound on the work left below node `i`: one step per node and one per
/// item of each leaf.
pub open spec fn work<V>(nodes: Seq<BvhNode<V>>, i: int) -> nat
    decreases nodes.len() - i,
{
    if 0 <= i < nodes.len() {
        if nodes[i].count > 0 {
            1 + nodes[i].count as nat
        } else if has_children(nodes, i) {
            1 + work(nodes, nodes[i].start_index as int) + work(nodes, nodes[i].start_index + 1)
        } else {
            1
        }
    } else {
        1
    }
}

pub open spec fn work_stack<V>(nodes: Seq<BvhNode<V>>, stack: Seq<u32>) -> nat
    decreases stack.len(),
{
    if stack.len() == 0 {
        0
    } else {
        work(nodes, stack.last() as int) + work_stack(nodes, stack.drop_last())
    }
}

/// Scanning `a .. c` is scanning `a .. b`, then `b .. c`.
pub proof fn lemma_scan_split<V: BvhVolume, T, P: TraverseTest<V>>(
    items: Seq<BvhItem<V, T>>,
    tester: P,
    a: int,
    b: int,
    c: int,
)
    requires
        a <= b <= c,
    ensures
        scan(items, tester, a, c) == scan(items, tester, a, b) + scan(items, tester, b, c),
    decreases b - a,
{
    if a < b {
        lemma_scan_split(items, tester, a + 1, b, c);
        assert(scan(items, tester, a, c) =~= scan(items, tester, a, b) + scan(items, tester, b, c));
    } else {
        assert(scan(items, tester, a, b) =~= seq![]);
        assert(scan(items, tester, a, c) =~= scan(items, tester, a, b) + scan(items, tester, b, c));
    }
}

/// Where a volume that encloses every item of `lo .. hi` is rejected, no
/// item of the range is accepted.
proof fn lemma_scan_rejected<V: BvhVolume, T, P: TraverseTest<V>>(
    items: Seq<BvhItem<V, T>>,
    tester: P,
    outer: V,
    lo: int,
    hi: int,
)
    requires
        !tester.accepts(outer),
        forall|k: int| lo <= k < hi ==> outer.encloses(#[trigger] items[k].volume),
    ensures
        scan(items, tester, lo, hi) == Seq::<T>::empty(),
    decreases hi - lo,
{
    if lo < hi {
        if tester.accepts(items[lo].volume) {
            tester.lemma_accepts_grows(outer, items[lo].volume);
        }
        lemma_scan_rejected(items, tester, outer, lo + 1, hi);
        assert(scan(items, tester, lo, hi) =~= Seq::<T>::empty());
    }
}

/// Below a well-formed node, a traversal yields exactly the accepted items
/// of the node's range, in order.
pub proof fn lemma_visit_is_scan<V: BvhVolume, T, P: TraverseTest<V>>(
    nodes: Seq<BvhNode<V>>,
    items: Seq<BvhItem<V, T>>,
    tester: P,
    i: int,
    lo: int,
)
    requires
        node_ok(nodes, items, i, lo),
    ensures
        visit(nodes, items, tester, i) == scan(items, tester, lo, lo + subtree_count(nodes, i)),
    decreases nodes.len() - i,
{
    let hi = lo + subtree_count(nodes, i);
    if !tester.accepts(nodes[i].volume) {
        assert forall|k: int| lo <= k < hi implies nodes[i].volume.encloses(#[trigger] items[k].volume) by {
            lemma_node_encloses_items(nodes, items, i, lo, k);
        }
        lemma_scan_rejected(items, tester, nodes[i].volume, lo, hi);
    } else if nodes[i].count == 0 {
        let c = nodes[i].start_index as int;
        let cl = subtree_count(nodes, c);
        lemma_visit_is_scan(nodes, items, tester, c, lo);
        lemma_visit_is_scan(nodes, items, tester, c + 1, lo + cl);
        lemma_scan_split(items, tester, lo, lo + cl, hi);
    }
}

/// A traversal of a well-formed hierarchy yields exactly what an
/// exhaustive scan of its items yields: the payload of every item whose
/// volume the predicate accepts, and nothing else.
pub proof fn lemma_query_is_scan<V: BvhVolume, T, P: TraverseTest<V>>(
    nodes: Seq<BvhNode<V>>,
    items: Seq<BvhItem<V, T>>,
    tester: P,
)
    requires
        tree_ok(nodes, items),
    ensures
        query(nodes, items, tester) == scan(items, tester, 0, items.len() as int),
{
    if items.len() > 0 {
        lemma_visit_is_scan(nodes, items, tester, 0, 0);
    } else {
        assert(scan(items, tester, 0, 0) =~= Seq::<T>::empty());
    }
}

/// The payload of item `k` is yielded exactly when the predicate accepts
/// the item's volume.
pub proof fn lemma_scan_contains<V: BvhVolume, T, P: TraverseTest<V>>(
    items: Seq<BvhItem<V, T>>,
    tester: P,
    lo: int,
    hi: int,
)
    requires
        0 <= lo <= hi <= items.len(),
    ensures
        forall|x: T| scan(items, tester, lo, hi).contains(x) <==> exists|k: int|
            lo <= k < hi && tester.accepts(items[k].volume) && #[trigger] items[k].t == x,
    decreases hi - lo,
{
    if lo < hi {
        lemma_scan_contains(items, tester, lo + 1, hi);
        let head: Seq<T> = if tester.accepts(items[lo].volume) { seq![items[lo].t] } else { seq![] };
        let tail = scan(items, tester, lo + 1, hi);
        assert forall|x: T| scan(items, tester, lo, hi).contains(x) <==> exists|k: int|
            lo <= k < hi && tester.accepts(items[k].volume) && #[trigger] items[k].t == x by {
            assert(scan(items, tester, lo, hi) == head + tail);
            if scan(items, tester, lo, hi).contains(x) {
                let p = choose|p: int| 0 <= p < (head + tail).len() && (head + tail)[p] == x;
                if p < head.len() {
                    assert(lo <= lo < hi && tester.accepts(items[lo].volume) && items[lo].t == x);
                } else {
                    assert(tail[p - head.len()] == x);
                    assert(tail.contains(x));
                }
            }
            if exists|k: int| lo <= k < hi && tester.accepts(items[k].volume) && #[trigger] items[k].t == x {
                let k = choose|k: int| lo <= k < hi && tester.accepts(items[k].volume) && #[trigger] items[k].t == x;
                if k == lo {
                    assert((head + tail)[0] == x);
                } else {
                    assert(tail.contains(x));
                    let p = choose|p: int| 0 <= p < tail.len() && tail[p] == x;
                    assert((head + tail)[head.len() + p] == x);
                }
            }
        }
    } else {
        assert(scan(items, tester, lo, hi) =~= Seq::<T>::empty());
    }
}

/// Two traversals of one hierarchy with one predicate yield the same
/// sequence.
pub proof fn lemma_traversal_repeatable<V: BvhVolume, T, P: TraverseTest<V>>(
    bvh: &Bvh<V, T>,
    tester: P,
    first: Seq<T>,
    second: Seq<T>,
)
    requires
        first == query(bvh.node_seq(), bvh.item_seq(), tester),
        second == query(bvh.node_seq(), bvh.item_seq(), tester),
    ensures
        first == second,
{
}

/// The node indices still to visit, a double-ended queue used as a stack
/// (the top at the back); it can be kept between traversals to reuse its
/// allocation.
pub struct Stack(pub std::collections::VecDeque<u32>);

impl Stack {
    pub fn new() -> (r: Self)
        ensures
            r.0@.len() == 0,
    {
        Stack(std::collections::VecDeque::new())
    }
}

/// Nothing is yielded from an empty node array, whatever the stack holds.
proof fn lemma_visit_stack_no_nodes<V: BvhVolume, T, P: TraverseTest<V>>(
    nodes: Seq<BvhNode<V>>,
    items: Seq<BvhItem<V, T>>,
    tester: P,
    stack: Seq<u32>,
)
    requires
        nodes.len() == 0,
    ensures
        visit_stack(nodes, items, tester, stack) == Seq::<T>::empty(),
    decreases stack.len(),
{
    if stack.len() > 0 {
        lemma_visit_stack_no_nodes(nodes, items, tester, stack.drop_last());
        assert(visit(nodes, items, tester, stack.last() as int) == Seq::<T>::empty());
        assert(visit_stack(nodes, items, tester, stack) =~= Seq::<T>::empty());
    }
}

impl<V: BvhVolume, T: Copy> Bvh<V, T> {
    /// A stack with room for a traversal of this hierarchy.
    pub fn create_stack(&self) -> (r: Stack)
        ensures
            r.0@.len() == 0,
    {
        let n = self.items.len();
        let mut depth: usize = 0;
        let mut reach: usize = 1;
        while reach < n
            invariant
                depth <= 64,
                reach >= 1,
            decreases usize::MAX - reach,
        {
            if reach > usize::MAX / 2 {
                break;
            }
            reach = reach * 2;
            if depth < 64 {
                depth = depth + 1;
            }
        }
        Stack(std::collections::VecDeque::with_capacity(depth + 10))
    }

    /// A traversal that yields, lazily, the payload of each item whose
    /// volume `tester` accepts and whose enclosing nodes it accepts too.
    pub fn traverse<'a, P: TraverseTest<V>>(&'a self, stack: &'a mut Stack, tester: P) -> (r: Traverser<'a, V, T, P>)
        requires
            self.wf(),
        ensures
            r.inv(),
            r.remaining() == query(self.node_seq(), self.item_seq(), tester),
            r.bvh == self,
            r.tester == tester,
            r.current_node is None,
            r.offset == 0,
            r.stack.0@ == seq![0u32],
    {
        stack.0.clear();
        stack.0.push_back(0);
        proof {
            assert(stack.0@ =~= seq![0u32]);
            if self.nodes@.len() > 0 {
                assert(in_subtree(self.nodes@, 0, 0));
            }
            assert(stack.0@.drop_last() =~= Seq::<u32>::empty());
            assert(visit_stack(self.nodes@, self.items@, tester, stack.0@) == visit(self.nodes@, self.items@, tester, 0) + visit_stack(self.nodes@, self.items@, tester, Seq::<u32>::empty()));
            assert(visit_stack(self.nodes@, self.items@, tester, stack.0@) =~= visit(self.nodes@, self.items@, tester, 0));
        }
        let r = Traverser { bvh: self, tester, stack, current_node: None, offset: 0 };
        assert(r.remaining() =~= query(self.node_seq(), self.item_seq(), tester));
        r
    }
}

/// A traversal in progress: the leaf being read, if any, with the offset
/// of the next item to test, and the nodes still to visit.
pub struct Traverser<'a, V, T, P> {
    pub bvh: &'a Bvh<V, T>,
    pub tester: P,
    pub stack: &'a mut Stack,
    pub current_node: Option<u32>,
    pub offset: u32,
}

impl<'a, V: BvhVolume, T: Copy, P: TraverseTest<V>> Traverser<'a, V, T, P> {
    /// The hierarchy is well formed, the stack holds reachable nodes (or
    /// anything, over an empty hierarchy), and the leaf being read is a
    /// reachable leaf with items left.
    pub open spec fn inv(&self) -> bool {
        &&& self.bvh.wf()
        &&& self.bvh.node_seq().len() > 0 ==> forall|k: int|
            0 <= k < self.stack.0@.len() ==> in_subtree(
                self.bvh.node_seq(),
                0,
                #[trigger] self.stack.0@[k] as int,
            )
        &&& self.current_node matches Some(j) ==> {
            &&& in_subtree(self.bvh.node_seq(), 0, j as int)
            &&& self.bvh.node_seq()[j as int].count > 0
            &&& self.offset < self.bvh.node_seq()[j as int].count
        }
    }

    /// The payloads that the traversal will still yield, in order.
    pub open spec fn remaining(&self) -> Seq<T> {
        let nodes = self.bvh.node_seq();
        let items = self.bvh.item_seq();
        (match self.current_node {
            Some(j) => scan(
                items,
                self.tester,
                nodes[j as int].start_index + self.offset,
                nodes[j as int].start_index + nodes[j as int].count,
            ),
            None => seq![],
        }) + visit_stack(nodes, items, self.tester, self.stack.0@)
    }

    /// Item `j0` of the leaf being read is the first one, from the current
    /// offset on, that the predicate accepts.
    pub open spec fn first_hit_at(&self, j0: int) -> bool {
        self.current_node matches Some(k) && {
            let nodes = self.bvh.node_seq();
            let items = self.bvh.item_seq();
            let start = nodes[k as int].start_index as int;
            &&& self.offset <= j0 < nodes[k as int].count
            &&& self.tester.accepts(items[start + j0].volume)
            &&& forall|j: int|
                self.offset <= j < j0 ==> !self.tester.accepts(#[trigger] items[start + j].volume)
        }
    }

    pub open spec fn measure(&self) -> nat {
        let nodes = self.bvh.node_seq();
        (match self.current_node {
            Some(j) => (nodes[j as int].count - self.offset) as nat,
            None => 0,
        }) + work_stack(nodes, self.stack.0@)
    }

    /// Runs the traversal to its end and returns what it yields.
    pub fn collect_remaining(&mut self) -> (r: Vec<T>)
        requires
            old(self).inv(),
        ensures
            final(self).inv(),
            final(self).bvh == old(self).bvh,
            r@ == old(self).remaining(),
            final(self).remaining().len() == 0,
    {
        let mut out: Vec<T> = Vec::new();
        loop
            invariant
                self.inv(),
                self.bvh == old(self).bvh,
                out@ + self.remaining() == old(self).remaining(),
            decreases self.remaining().len(),
        {
            let ghost before = self.remaining();
            match self.next() {
                Some(t) => {
                    out.push(t);
                    proof {
                        assert(before == seq![t] + self.remaining()) by {
                            assert(before =~= seq![before[0]] + before.drop_first());
                        }
                        assert(out@ + self.remaining() =~= old(self).remaining());
                    }
                },
                None => {
                    proof {
                        assert(out@ + self.remaining() =~= out@);
                    }
                    return out;
                },
            }
        }
    }

    /// The next payload, or `None` once the traversal is over.
    pub fn next(&mut self) -> (r: Option<T>)
        requires
            old(self).inv(),
        ensures
            final(self).inv(),
            final(self).bvh == old(self).bvh,
            final(self).tester == old(self).tester,
            old(self).remaining().len() == 0 ==> r is None && final(self).remaining().len() == 0,
            old(self).remaining().len() > 0 ==> r == Some(old(self).remaining()[0])
                && final(self).remaining() == old(self).remaining().drop_first(),
            r is None ==> final(self).current_node is None && final(self).stack.0@.len() == 0,
            forall|j0: int|
                #[trigger] old(self).first_hit_at(j0) ==> {
                    &&& final(self).offset == j0 + 1
                    &&& final(self).stack.0@ == old(self).stack.0@
                    &&& if j0 + 1 == old(self).bvh.node_seq()[old(self).current_node->0 as int].count {
                        final(self).current_node is None
                    } else {
                        final(self).current_node == old(self).current_node
                    }
                },
    {
        let ghost start_rem = self.remaining();
        if self.bvh.items.len() == 0 {
            proof {
                lemma_visit_stack_no_nodes(self.bvh.node_seq(), self.bvh.item_seq(), self.tester, self.stack.0@);
                if self.current_node is Some {
                    assert(!in_subtree(self.bvh.node_seq(), 0, self.current_node->0 as int));
                }
            }
            self.stack.0.clear();
            proof {
                lemma_visit_stack_no_nodes(self.bvh.node_seq(), self.bvh.item_seq(), self.tester, self.stack.0@);
                assert(self.remaining() =~= Seq::<T>::empty());
                assert(start_rem =~= Seq::<T>::empty());
            }
            return None;
        }
        loop
            invariant
                self.inv(),
                self.bvh == old(self).bvh,
                self.tester == old(self).tester,
                self.remaining() == start_rem,
                start_rem == old(self).remaining(),
                self.bvh.item_seq().len() > 0,
                forall|j0: int|
                    #[trigger] old(self).first_hit_at(j0) ==> {
                        &&& self.current_node == old(self).current_node
                        &&& self.stack.0@ == old(self).stack.0@
                        &&& old(self).offset <= self.offset <= j0
                    },
            decreases self.measure(),
        {
            let ghost nodes = self.bvh.node_seq();
            let ghost items = self.bvh.item_seq();
            match self.current_node {
                Some(j) => {
                    proof {
                        if items.len() == 0 {
                            assert(!in_subtree(nodes, 0, j as int));
                        }
                    }
                    proof {
                        let _ = lemma_descendant(nodes, items, 0, 0, j as int);
                    }
                    let node = self.bvh.nodes[j as usize];
                    proof {
                        assert(node == nodes[j as int]);
                        assert(node.start_index + node.count <= items.len());
                        assert(node.start_index + self.offset < items.len());
                    }
                    let n_items = self.bvh.items.len();
                    let idx = node.start_index as usize + self.offset as usize;
                    let item = self.bvh.items[idx];
                    let ghost before = self.remaining();
                    let ghost old_offset = self.offset;
                    self.offset = self.offset + 1;
                    if self.offset == node.count {
                        self.current_node = None;
                    }
                    let hit = self.tester.test(&item.volume);
                    proof {
                        let tail = scan(items, self.tester, idx + 1, node.start_index + node.count);
                        assert(scan(items, self.tester, idx as int, node.start_index + node.count)
                            == (if hit { seq![item.t] } else { seq![] }) + tail);
                        if self.current_node is None {
                            assert(tail =~= seq![]);
                        }
                        if hit {
                            assert(before == seq![item.t] + self.remaining());
                            assert((seq![item.t] + self.remaining()).drop_first() =~= self.remaining());
                        } else {
                            assert(before =~= self.remaining());
                        }
                    }
                    proof {
                        assert(hit == self.tester.accepts(items[node.start_index + old_offset].volume));
                        assert forall|j0: int| #[trigger] old(self).first_hit_at(j0) implies {
                            &&& (hit ==> {
                                &&& self.offset == j0 + 1
                                &&& self.stack.0@ == old(self).stack.0@
                                &&& if j0 + 1 == node.count {
                                    self.current_node is None
                                } else {
                                    self.current_node == old(self).current_node
                                }
                            })
                            &&& (!hit ==> {
                                &&& self.current_node == old(self).current_node
                                &&& self.stack.0@ == old(self).stack.0@
                                &&& old(self).offset <= self.offset <= j0
                            })
                        } by {
                            if old_offset < j0 {
                                assert(!hit);
                            } else {
                                assert(old_offset == j0);
                            }
                        }
                    }
                    if hit {
                        return Some(item.t);
                    }
                },
                None => {
                    let popped = self.stack.0.pop_back();
                    match popped {
                        None => {
                            proof {
                                assert(self.remaining() =~= seq![]);
                                assert(start_rem.len() == 0);
                            }
                            return None;
                        },
                        Some(index) => {
                            let ghost rest = self.stack.0@;
                            proof {
                                assert(in_subtree(nodes, 0, index as int));
                                if items.len() == 0 {
                                    assert(!in_subtree(nodes, 0, index as int));
                                }
                                let _ = lemma_descendant(nodes, items, 0, 0, index as int);
                                assert(work_stack(nodes, self.stack.0@.push(index)) == work(nodes, index as int) + work_stack(nodes, rest)) by {
                                    assert(self.stack.0@.push(index).drop_last() =~= rest);
                                }
                                assert(start_rem == visit(nodes, items, self.tester, index as int)
                                    + visit_stack(nodes, items, self.tester, rest));
                            }
                            let node = self.bvh.nodes[index as usize];
                            if self.tester.test(&node.volume) {
                                if node.count > 0 {
                                    self.current_node = Some(index);
                                    self.offset = 0;
                                } else {
                                    proof {
                                        lemma_child_in_subtree(nodes, 0, index as int);
                                    }
                                    self.stack.0.push_back(node.start_index + 1);
                                    self.stack.0.push_back(node.start_index);
                                    proof {
                                        let s = self.stack.0@;
                                        let c = node.start_index as int;
                                        let tt = self.tester;
                                        assert(s.drop_last() =~= rest.push((node.start_index + 1) as u32));
                                        assert(s.drop_last().drop_last() =~= rest);
                                        assert(visit_stack(nodes, items, tt, s) == visit(nodes, items, tt, c) + visit_stack(nodes, items, tt, s.drop_last()));
                                        assert(visit_stack(nodes, items, tt, s.drop_last()) == visit(nodes, items, tt, c + 1) + visit_stack(nodes, items, tt, rest));
                                        assert(visit(nodes, items, tt, index as int) == visit(nodes, items, tt, c) + visit(nodes, items, tt, c + 1));
                                        assert(self.remaining() =~= start_rem);
                                        assert(work_stack(nodes, s) == work(nodes, c) + work_stack(nodes, s.drop_last()));
                                        assert(work_stack(nodes, s.drop_last()) == work(nodes, c + 1) + work_stack(nodes, rest));
                                    }
                                }
                            } else {
                                assert(self.remaining() =~= start_rem);
                            }
                        },
                    }
                },
            }
        }
    }
}

} // verus!
