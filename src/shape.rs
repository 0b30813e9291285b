//! Traversal by sweeping a box along a ray: each node box is padded by
//! the swept box (its `min` added to the node's `min`, its `max` to the
//! node's `max`) before the slab test.
use vstd::prelude::*;

use crate::dim2::{Aabb2d, IVec2};
use crate::dim3::{Aabb3d, IVec3};
use crate::ray::{lemma_slab_grows, slab_hit, slab_test, Axis};
use crate::traverse::{query, Stack, TraverseTest, Traverser};
use crate::Bvh;

verus! {

/// The box `shape` swept from `origin` along `direction`, for
/// `0 <= t <= max_num / max_den`.
pub struct ShapeTester<A, P> {
    pub shape: A,
    pub origin: P,
    pub direction: P,
    pub max_num: u32,
    pub max_den: u32,
}

impl<A, P> ShapeTester<A, P> {
    pub fn new(shape: A, origin: P, direction: P, max_num: u32, max_den: u32) -> (r: Self)
        requires
            max_den > 0,
        ensures
            r.shape == shape,
            r.origin == origin,
            r.direction == direction,
            r.max_num == max_num,
            r.max_den == max_den,
    {
        ShapeTester { shape, origin, direction, max_num, max_den }
    }
}

/// The axes of a 2D box padded by `shape`, seen from a ray.
pub open spec fn padded_axes2(v: Aabb2d, shape: Aabb2d, origin: IVec2, direction: IVec2) -> Seq<Axis> {
    seq![
        ((v.min.x + shape.min.x) as i64, (v.max.x + shape.max.x) as i64, origin.x as i64, direction.x as i64),
        ((v.min.y + shape.min.y) as i64, (v.max.y + shape.max.y) as i64, origin.y as i64, direction.y as i64),
    ]
}

/// The axes of a 3D box padded by `shape`, seen from a ray.
pub open spec fn padded_axes3(v: Aabb3d, shape: Aabb3d, origin: IVec3, direction: IVec3) -> Seq<Axis> {
    seq![
        ((v.min.x + shape.min.x) as i64, (v.max.x + shape.max.x) as i64, origin.x as i64, direction.x as i64),
        ((v.min.y + shape.min.y) as i64, (v.max.y + shape.max.y) as i64, origin.y as i64, direction.y as i64),
        ((v.min.z + shape.min.z) as i64, (v.max.z + shape.max.z) as i64, origin.z as i64, direction.z as i64),
    ]
}

impl TraverseTest<Aabb2d> for ShapeTester<Aabb2d, IVec2> {
    open spec fn accepts(&self, volume: Aabb2d) -> bool {
        self.max_den > 0 && slab_hit(
            padded_axes2(volume, self.shape, self.origin, self.direction),
            self.max_num as int,
            self.max_den as int,
        )
    }

    proof fn lemma_accepts_grows(&self, outer: Aabb2d, inner: Aabb2d) {
        lemma_slab_grows(
            padded_axes2(outer, self.shape, self.origin, self.direction),
            padded_axes2(inner, self.shape, self.origin, self.direction),
            self.max_num as int,
            self.max_den as int,
        );
    }

    fn test(&self, volume: &Aabb2d) -> (r: bool) {
        if self.max_den == 0 {
            return false;
        }
        let s = &self.shape;
        let axes = vec![
            (volume.min.x as i64 + s.min.x as i64, volume.max.x as i64 + s.max.x as i64, self.origin.x as i64, self.direction.x as i64),
            (volume.min.y as i64 + s.min.y as i64, volume.max.y as i64 + s.max.y as i64, self.origin.y as i64, self.direction.y as i64),
        ];
        proof {
            assert(axes@ =~= padded_axes2(*volume, self.shape, self.origin, self.direction));
        }
        slab_test(&axes, self.max_num as i64, self.max_den as i64)
    }
}

impl TraverseTest<Aabb3d> for ShapeTester<Aabb3d, IVec3> {
    open spec fn accepts(&self, volume: Aabb3d) -> bool {
        self.max_den > 0 && slab_hit(
            padded_axes3(volume, self.shape, self.origin, self.direction),
            self.max_num as int,
            self.max_den as int,
        )
    }

    proof fn lemma_accepts_grows(&self, outer: Aabb3d, inner: Aabb3d) {
        lemma_slab_grows(
            padded_axes3(outer, self.shape, self.origin, self.direction),
            padded_axes3(inner, self.shape, self.origin, self.direction),
            self.max_num as int,
            self.max_den as int,
        );
    }

    fn test(&self, volume: &Aabb3d) -> (r: bool) {
        if self.max_den == 0 {
            return false;
        }
        let s = &self.shape;
        let axes = vec![
            (volume.min.x as i64 + s.min.x as i64, volume.max.x as i64 + s.max.x as i64, self.origin.x as i64, self.direction.x as i64),
            (volume.min.y as i64 + s.min.y as i64, volume.max.y as i64 + s.max.y as i64, self.origin.y as i64, self.direction.y as i64),
            (volume.min.z as i64 + s.min.z as i64, volume.max.z as i64 + s.max.z as i64, self.origin.z as i64, self.direction.z as i64),
        ];
        proof {
            assert(axes@ =~= padded_axes3(*volume, self.shape, self.origin, self.direction));
        }
        slab_test(&axes, self.max_num as i64, self.max_den as i64)
    }
}

impl<T: Copy> Bvh<Aabb2d, T> {
    /// A traversal yielding the payloads of the items whose boxes, padded
    /// by `shape`, pass the slab test for the ray.
    pub fn cast_shape<'a>(
        &'a self,
        stack: &'a mut Stack,
        shape: Aabb2d,
        origin: IVec2,
        direction: IVec2,
        max_num: u32,
        max_den: u32,
    ) -> (r: Traverser<'a, Aabb2d, T, ShapeTester<Aabb2d, IVec2>>)
        requires
            self.wf(),
            max_den > 0,
        ensures
            r.inv(),
            r.bvh == self,
            r.current_node is None,
            r.offset == 0,
            r.stack.0@ == seq![0u32],
            r.remaining() == query(
                self.node_seq(),
                self.item_seq(),
                ShapeTester { shape, origin, direction, max_num, max_den },
            ),
    {
        self.traverse(stack, ShapeTester::new(shape, origin, direction, max_num, max_den))
    }
}

impl<T: Copy> Bvh<Aabb3d, T> {
    /// A traversal yielding the payloads of the items whose boxes, padded
    /// by `shape`, pass the slab test for the ray.
    pub fn cast_shape<'a>(
        &'a self,
        stack: &'a mut Stack,
        shape: Aabb3d,
        origin: IVec3,
        direction: IVec3,
        max_num: u32,
        max_den: u32,
    ) -> (r: Traverser<'a, Aabb3d, T, ShapeTester<Aabb3d, IVec3>>)
        requires
            self.wf(),
            max_den > 0,
        ensures
            r.inv(),
            r.bvh == self,
            r.current_node is None,
            r.offset == 0,
            r.stack.0@ == seq![0u32],
            r.remaining() == query(
                self.node_seq(),
                self.item_seq(),
                ShapeTester { shape, origin, direction, max_num, max_den },
            ),
    {
        self.traverse(stack, ShapeTester::new(shape, origin, direction, max_num, max_den))
    }
}

} // verus!
