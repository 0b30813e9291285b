//! Traversal by overlap with a query volume.
use vstd::prelude::*;

use crate::traverse::{Stack, TraverseTest, Traverser, query};
use crate::{Bvh, BvhVolume};

verus! {

/// Accepts the volumes that overlap a query volume.
pub struct IntersectTester<V> {
    pub volume: V,
}

impl<V: BvhVolume> IntersectTester<V> {
    pub fn new(volume: V) -> (r: Self)
        ensures
            r.volume == volume,
    {
        IntersectTester { volume }
    }
}

impl<V: BvhVolume> TraverseTest<V> for IntersectTester<V> {
    open spec fn accepts(&self, volume: V) -> bool {
        self.volume.spec_intersects(volume)
    }

    proof fn lemma_accepts_grows(&self, outer: V, inner: V) {
        V::lemma_intersects_grows(self.volume, outer, inner);
    }

    fn test(&self, volume: &V) -> (r: bool) {
        self.volume.intersects(volume)
    }
}

impl<V: BvhVolume, T: Copy> Bvh<V, T> {
    /// A traversal yielding the payloads of the items that overlap `volume`.
    pub fn intersect_aabb<'a>(&'a self, stack: &'a mut Stack, volume: V) -> (r: Traverser<'a, V, T, IntersectTester<V>>)
        requires
            self.wf(),
        ensures
            r.inv(),
            r.bvh == self,
            r.current_node is None,
            r.offset == 0,
            r.stack.0@ == seq![0u32],
            r.remaining() == query(self.node_seq(), self.item_seq(), IntersectTester { volume }),
    {
        self.traverse(stack, IntersectTester::new(volume))
    }
}

} // verus!
