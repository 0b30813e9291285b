//! Axis-aligned boxes on an integer grid in three dimensions.
use vstd::prelude::*;

use crate::dim2::span;
use crate::morton::{cell_of, grid_cell, interleave, morton_encode};
use crate::{Bvh, BvhVolume};

verus! {

/// A point of the integer space.
#[derive(Clone, Copy, Debug, PartialEq, Eq, Structural)]
pub struct IVec3 {
    pub x: i32,
    pub y: i32,
    pub z: i32,
}

impl IVec3 {
    pub fn new(x: i32, y: i32, z: i32) -> (r: Self)
        ensures
            r.x == x,
            r.y == y,
            r.z == z,
    {
        IVec3 { x, y, z }
    }
}

/// A hierarchy over 3D boxes.
pub type BvhAabb3d<T> = Bvh<Aabb3d, T>;

/// An axis-aligned box, closed on all sides.
#[derive(Clone, Copy, Debug, PartialEq, Eq, Structural)]
pub struct Aabb3d {
    pub min: IVec3,
    pub max: IVec3,
}

fn span_of(lo: i32, hi: i32) -> (r: u64)
    ensures
        r == span(lo, hi),
        r < 0x1_0000_0000,
{
    if hi >= lo { (hi as i64 - lo as i64) as u64 } else { 0 }
}

fn min_i32(a: i32, b: i32) -> (r: i32)
    ensures
        r == if a <= b { a } else { b },
{
    if a <= b { a } else { b }
}

fn max_i32(a: i32, b: i32) -> (r: i32)
    ensures
        r == if a >= b { a } else { b },
{
    if a >= b { a } else { b }
}

/// Half the surface area of a box with these side lengths, capped at
/// `u64::MAX`.
pub open spec fn half_surface(wx: int, wy: int, wz: int) -> u64 {
    let s = wx * wy + wy * wz + wz * wx;
    if s > u64::MAX { u64::MAX } else { s as u64 }
}

impl Aabb3d {
    /// The box with corners `min` and `max`.
    pub fn from_min_max(min: IVec3, max: IVec3) -> (r: Self)
        ensures
            r.min == min,
            r.max == max,
    {
        Aabb3d { min, max }
    }

    /// The box `center - half_size ..= center + half_size`.
    pub fn new(center: IVec3, half_size: IVec3) -> (r: Self)
        requires
            i32::MIN <= center.x - half_size.x <= i32::MAX,
            i32::MIN <= center.y - half_size.y <= i32::MAX,
            i32::MIN <= center.z - half_size.z <= i32::MAX,
            i32::MIN <= center.x + half_size.x <= i32::MAX,
            i32::MIN <= center.y + half_size.y <= i32::MAX,
            i32::MIN <= center.z + half_size.z <= i32::MAX,
        ensures
            r.min.x == center.x - half_size.x,
            r.min.y == center.y - half_size.y,
            r.min.z == center.z - half_size.z,
            r.max.x == center.x + half_size.x,
            r.max.y == center.y + half_size.y,
            r.max.z == center.z + half_size.z,
    {
        Aabb3d {
            min: IVec3 {
                x: center.x - half_size.x,
                y: center.y - half_size.y,
                z: center.z - half_size.z,
            },
            max: IVec3 {
                x: center.x + half_size.x,
                y: center.y + half_size.y,
                z: center.z + half_size.z,
            },
        }
    }

    /// Whether the point lies in the box.
    pub open spec fn contains_point(self, x: int, y: int, z: int) -> bool {
        self.min.x <= x <= self.max.x && self.min.y <= y <= self.max.y
        && self.min.z <= z <= self.max.z
    }
}

impl BvhVolume for Aabb3d {
    open spec fn encloses(self, inner: Self) -> bool {
        self.min.x <= inner.min.x && self.min.y <= inner.min.y && self.min.z <= inner.min.z
        && inner.max.x <= self.max.x && inner.max.y <= self.max.y && inner.max.z <= self.max.z
    }

    open spec fn spec_merge(self, other: Self) -> Self {
        Aabb3d {
            min: IVec3 {
                x: if self.min.x <= other.min.x { self.min.x } else { other.min.x },
                y: if self.min.y <= other.min.y { self.min.y } else { other.min.y },
                z: if self.min.z <= other.min.z { self.min.z } else { other.min.z },
            },
            max: IVec3 {
                x: if self.max.x >= other.max.x { self.max.x } else { other.max.x },
                y: if self.max.y >= other.max.y { self.max.y } else { other.max.y },
                z: if self.max.z >= other.max.z { self.max.z } else { other.max.z },
            },
        }
    }

    open spec fn spec_area(self) -> u64 {
        half_surface(
            span(self.min.x, self.max.x) as int,
            span(self.min.y, self.max.y) as int,
            span(self.min.z, self.max.z) as int,
        )
    }

    proof fn lemma_encloses_reflexive(a: Self) {
    }

    proof fn lemma_encloses_transitive(a: Self, b: Self, c: Self) {
    }

    proof fn lemma_merge_encloses(a: Self, b: Self) {
    }

    proof fn lemma_merge_commutative(a: Self, b: Self) {
    }

    proof fn lemma_merge_idempotent(a: Self) {
    }

    open spec fn spec_intersects(self, other: Self) -> bool {
        self.min.x <= other.max.x && other.min.x <= self.max.x
        && self.min.y <= other.max.y && other.min.y <= self.max.y
        && self.min.z <= other.max.z && other.min.z <= self.max.z
    }

    proof fn lemma_intersects_grows(query: Self, outer: Self, inner: Self) {
    }

    fn intersects(&self, other: &Self) -> (r: bool) {
        self.min.x <= other.max.x && other.min.x <= self.max.x
            && self.min.y <= other.max.y && other.min.y <= self.max.y
            && self.min.z <= other.max.z && other.min.z <= self.max.z
    }

    open spec fn spec_morton_code(self) -> usize {
        interleave(
            cell_of(self.min.x + self.max.x) as u64,
            cell_of(self.min.y + self.max.y) as u64,
            cell_of(self.min.z + self.max.z) as u64,
            5,
        ) as usize
    }

    fn infinity() -> (r: Self) {
        Aabb3d {
            min: IVec3 { x: i32::MIN, y: i32::MIN, z: i32::MIN },
            max: IVec3 { x: i32::MAX, y: i32::MAX, z: i32::MAX },
        }
    }

    fn merge(&self, other: &Self) -> (r: Self) {
        Aabb3d {
            min: IVec3 {
                x: min_i32(self.min.x, other.min.x),
                y: min_i32(self.min.y, other.min.y),
                z: min_i32(self.min.z, other.min.z),
            },
            max: IVec3 {
                x: max_i32(self.max.x, other.max.x),
                y: max_i32(self.max.y, other.max.y),
                z: max_i32(self.max.z, other.max.z),
            },
        }
    }

    fn area(&self) -> (r: u64) {
        let sx = span_of(self.min.x, self.max.x);
        let sy = span_of(self.min.y, self.max.y);
        let sz = span_of(self.min.z, self.max.z);
        let wx = sx as u128;
        let wy = sy as u128;
        let wz = sz as u128;
        proof {
            assert(wx * wy <= 0xFFFF_FFFF * 0xFFFF_FFFF) by (nonlinear_arith)
                requires
                    wx < 0x1_0000_0000,
                    wy < 0x1_0000_0000,
            ;
            assert(wy * wz <= 0xFFFF_FFFF * 0xFFFF_FFFF) by (nonlinear_arith)
                requires
                    wy < 0x1_0000_0000,
                    wz < 0x1_0000_0000,
            ;
            assert(wz * wx <= 0xFFFF_FFFF * 0xFFFF_FFFF) by (nonlinear_arith)
                requires
                    wz < 0x1_0000_0000,
                    wx < 0x1_0000_0000,
            ;
        }
        let s: u128 = wx * wy + wy * wz + wz * wx;
        if s > u64::MAX as u128 {
            u64::MAX
        } else {
            s as u64
        }
    }

    fn morton_code(&self) -> (r: usize) {
        let cx = grid_cell(self.min.x as i64 + self.max.x as i64);
        let cy = grid_cell(self.min.y as i64 + self.max.y as i64);
        let cz = grid_cell(self.min.z as i64 + self.max.z as i64);
        morton_encode(cx as usize, cy as usize, cz as usize, 5)
    }
}

} // verus!
