//! A static bounding volume hierarchy built by locally-ordered clustering
//! of Morton-sorted items, followed by a surface-area-heuristic pass that
//! collapses small subtrees into multi-item leaves.
use vstd::prelude::*;

pub mod morton;
pub mod dim2;
pub mod dim3;
pub mod tree;
pub mod traverse;
pub mod intersect;
pub mod ray;
pub mod shape;
pub mod search;
pub mod construct;
pub mod debug;

verus! {

/// A bounding volume that the hierarchy can be built over.
///
/// `encloses` is the containment order on volumes; `merge` must return a
/// volume enclosing both inputs, and `area` is a cost proxy for the volume.
pub trait BvhVolume: Sized + Copy {
    /// `self` contains all of `inner`.
    spec fn encloses(self, inner: Self) -> bool;

    /// The volume that `merge` returns.
    spec fn spec_merge(self, other: Self) -> Self;

    /// The cost proxy that `area` returns.
    spec fn spec_area(self) -> u64;

    proof fn lemma_encloses_reflexive(a: Self)
        ensures
            a.encloses(a),
    ;

    proof fn lemma_encloses_transitive(a: Self, b: Self, c: Self)
        requires
            a.encloses(b),
            b.encloses(c),
        ensures
            a.encloses(c),
    ;

    proof fn lemma_merge_encloses(a: Self, b: Self)
        ensures
            a.spec_merge(b).encloses(a),
            a.spec_merge(b).encloses(b),
    ;

    /// `self` and `other` share at least one point.
    spec fn spec_intersects(self, other: Self) -> bool;

    /// A volume that meets a part of a larger one meets the larger one.
    proof fn lemma_intersects_grows(query: Self, outer: Self, inner: Self)
        requires
            outer.encloses(inner),
            query.spec_intersects(inner),
        ensures
            query.spec_intersects(outer),
    ;

    /// Whether the two volumes overlap.
    fn intersects(&self, other: &Self) -> (r: bool)
        ensures
            r == self.spec_intersects(*other),
    ;

    /// Merging is commutative.
    proof fn lemma_merge_commutative(a: Self, b: Self)
        ensures
            a.spec_merge(b) == b.spec_merge(a),
    ;

    /// Merging a volume with itself gives it back.
    proof fn lemma_merge_idempotent(a: Self)
        ensures
            a.spec_merge(a) == a,
    ;

    /// A volume that encloses every volume.
    fn infinity() -> (r: Self)
        ensures
            forall|v: Self| #[trigger] r.encloses(v),
    ;

    /// The smallest (or a cheaply computed small) volume enclosing both.
    fn merge(&self, other: &Self) -> (r: Self)
        ensures
            r == self.spec_merge(*other),
    ;

    /// A cost proxy that grows with the size of the volume.
    fn area(&self) -> (r: u64)
        ensures
            r == self.spec_area(),
    ;

    /// The code that `morton_code` returns.
    spec fn spec_morton_code(self) -> usize;

    /// The Morton code of the centre of the volume.
    fn morton_code(&self) -> (r: usize)
        ensures
            r == self.spec_morton_code(),
    ;
}

/// A node of the hierarchy.
///
/// With `count == 0` it is an interior node whose children sit at
/// `start_index` and `start_index + 1`; otherwise it is a leaf holding the
/// items `start_index .. start_index + count`.
#[derive(Clone, Copy, Debug)]
pub struct BvhNode<V> {
    pub volume: V,
    pub count: u32,
    pub start_index: u32,
}

/// An item of the hierarchy: a payload tagged with its volume.
#[derive(Clone, Copy, Debug)]
pub struct BvhItem<V, T> {
    pub volume: V,
    pub t: T,
}

/// A bounding volume hierarchy over items with payloads of type `T`.
///
/// `nodes[0]` is the root whenever there are items; children always sit
/// after their parent. Nodes that leaf merging left behind are unreachable
/// and stay in `nodes`.
pub struct Bvh<V, T> {
    pub(crate) nodes: Vec<BvhNode<V>>,
    pub(crate) items: Vec<BvhItem<V, T>>,
}

impl<V, T> Bvh<V, T> {
    /// The node array.
    pub open(crate) spec fn node_seq(&self) -> Seq<BvhNode<V>> {
        self.nodes@
    }

    /// The item array, in leaf order.
    pub open(crate) spec fn item_seq(&self) -> Seq<BvhItem<V, T>> {
        self.items@
    }
}

impl<V: BvhVolume, T> Bvh<V, T> {
    /// The hierarchy is well formed (see `tree::tree_ok`).
    pub open spec fn wf(&self) -> bool {
        tree::tree_ok(self.node_seq(), self.item_seq())
    }

    /// The empty hierarchy.
    pub fn empty() -> (r: Self)
        ensures
            r.node_seq().len() == 0,
            r.item_seq().len() == 0,
            r.wf(),
    {
        Bvh { nodes: Vec::new(), items: Vec::new() }
    }

    /// The number of nodes, dead ones included: between the number of
    /// items `n` and `2n - 1`.
    pub fn n_nodes(&self) -> (r: usize)
        ensures
            r == self.node_seq().len(),
    {
        self.nodes.len()
    }

    /// The number of items.
    pub fn n_items(&self) -> (r: usize)
        ensures
            r == self.item_seq().len(),
    {
        self.items.len()
    }

    /// The nodes, root first.
    pub fn nodes(&self) -> (r: &[BvhNode<V>])
        ensures
            r@ == self.node_seq(),
    {
        self.nodes.as_slice()
    }

    /// The items, in the order the leaves refer to them.
    pub fn items(&self) -> (r: &[BvhItem<V, T>])
        ensures
            r@ == self.item_seq(),
    {
        self.items.as_slice()
    }
}

impl<V: BvhVolume, T> Default for Bvh<V, T> {
    fn default() -> (r: Self)
        ensures
            r.node_seq().len() == 0,
            r.item_seq().len() == 0,
    {
        Self::empty()
    }
}

} // verus!
