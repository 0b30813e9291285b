//! An indented dump of the hierarchy: one line per reachable node, and one
//! per item below each leaf, in depth-first order.
use vstd::prelude::*;

use crate::tree::{has_children, in_subtree, lemma_child_in_subtree, lemma_descendant, lemma_subtree_after};
use crate::{Bvh, BvhNode, BvhVolume};

verus! {

/// A line of the dump, with its depth.
#[derive(Clone, Copy, Debug, PartialEq, Eq, Structural)]
pub enum DumpLine {
    /// An interior node, by its index in the node array.
    Node { level: usize, index: u32 },
    /// A leaf, by its index in the node array.
    Leaf { level: usize, index: u32 },
    /// An item of a leaf, by its index in the item array.
    Item { level: usize, index: u32 },
}

/// The lines for the items `start .. start + count` at depth `level`.
pub open spec fn dump_items(start: int, count: int, level: int) -> Seq<DumpLine> {
    Seq::new(count as nat, |k: int| DumpLine::Item { level: level as usize, index: (start + k) as u32 })
}

/// The lines for the subtree of node `i` at depth `level`: the node, then
/// its children one level deeper, or a leaf and its items.
pub open spec fn dump_node<V>(nodes: Seq<BvhNode<V>>, i: int, level: int) -> Seq<DumpLine>
    decreases nodes.len() - i,
{
    if 0 <= i < nodes.len() {
        if nodes[i].count > 0 {
            seq![DumpLine::Leaf { level: level as usize, index: i as u32 }] + dump_items(
                nodes[i].start_index as int,
                nodes[i].count as int,
                level + 1,
            )
        } else if has_children(nodes, i) {
            seq![DumpLine::Node { level: level as usize, index: i as u32 }] + dump_node(
                nodes,
                nodes[i].start_index as int,
                level + 1,
            ) + dump_node(nodes, nodes[i].start_index + 1, level + 1)
        } else {
            seq![DumpLine::Node { level: level as usize, index: i as u32 }]
        }
    } else {
        seq![]
    }
}

/// Appends the lines of the items `index .. index + count`.
pub fn print_items(out: &mut Vec<DumpLine>, index: u32, count: u32, level: usize)
    requires
        index + count <= u32::MAX,
    ensures
        final(out)@ == old(out)@ + dump_items(index as int, count as int, level as int),
{
    let mut i: u32 = 0;
    while i < count
        invariant
            i <= count,
            index + count <= u32::MAX,
            out@ == old(out)@ + dump_items(index as int, i as int, level as int),
        decreases count - i,
    {
        out.push(DumpLine::Item { level, index: index + i });
        i = i + 1;
        proof {
            assert(out@ =~= old(out)@ + dump_items(index as int, i as int, level as int));
        }
    }
}

/// Appends the lines of the subtree of node `index`.
pub fn print_node<V: BvhVolume, T>(out: &mut Vec<DumpLine>, bvh: &Bvh<V, T>, index: u32, level: usize)
    requires
        bvh.wf(),
        in_subtree(bvh.node_seq(), 0, index as int),
        level + bvh.node_seq().len() - index <= usize::MAX,
    ensures
        final(out)@ == old(out)@ + dump_node(bvh.node_seq(), index as int, level as int),
    decreases bvh.node_seq().len() - index,
{
    let ghost nodes = bvh.node_seq();
    let ghost items = bvh.item_seq();
    proof {
        if items.len() == 0 {
            assert(!in_subtree(nodes, 0, index as int));
        }
        let _ = lemma_descendant(nodes, items, 0, 0, index as int);
    }
    let node = bvh.nodes[index as usize];
    if node.count == 0 {
        out.push(DumpLine::Node { level, index });
        proof {
            lemma_child_in_subtree(nodes, 0, index as int);
            lemma_subtree_after(nodes, 0, node.start_index as int);
        }
        print_node(out, bvh, node.start_index, level + 1);
        print_node(out, bvh, node.start_index + 1, level + 1);
        proof {
            assert(out@ =~= old(out)@ + dump_node(nodes, index as int, level as int));
        }
    } else {
        out.push(DumpLine::Leaf { level, index });
        print_items(out, node.start_index, node.count, level + 1);
        proof {
            assert(out@ =~= old(out)@ + dump_node(nodes, index as int, level as int));
        }
    }
}

impl<V: BvhVolume, T> Bvh<V, T> {
    /// The dump of the whole hierarchy, root first; empty for an empty one.
    pub fn dump(&self) -> (r: Vec<DumpLine>)
        requires
            self.wf(),
        ensures
            self.node_seq().len() == 0 ==> r@.len() == 0,
            self.node_seq().len() > 0 ==> r@ == dump_node(self.node_seq(), 0, 0),
    {
        let mut out: Vec<DumpLine> = Vec::new();
        if self.nodes.len() > 0 {
            proof {
                assert(in_subtree(self.node_seq(), 0, 0));
            }
            print_node(&mut out, self, 0, 0);
            proof {
                assert(out@ =~= dump_node(self.node_seq(), 0, 0));
            }
        }
        out
    }
}

} // verus!
