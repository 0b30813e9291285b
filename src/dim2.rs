//! Axis-aligned boxes on an integer grid in two dimensions.
use vstd::prelude::*;

use crate::morton::{cell_of, grid_cell, interleave, morton_encode};
use crate::{Bvh, BvhVolume};

verus! {

/// A point of the integer plane.
#[derive(Clone, Copy, Debug, PartialEq, Eq, Structural)]
pub struct IVec2 {
    pub x: i32,
    pub y: i32,
}

impl IVec2 {
    pub fn new(x: i32, y: i32) -> (r: Self)
        ensures
            r.x == x,
            r.y == y,
    {
        IVec2 { x, y }
    }
}

/// A hierarchy over 2D boxes.
pub type BvhAabb2d<T> = Bvh<Aabb2d, T>;

/// An axis-aligned box, closed on all sides.
#[derive(Clone, Copy, Debug, PartialEq, Eq, Structural)]
pub struct Aabb2d {
    pub min: IVec2,
    pub max: IVec2,
}

/// The width of `[lo, hi]`, zero for an empty span.
pub open spec fn span(lo: i32, hi: i32) -> u64 {
    if hi >= lo { (hi - lo) as u64 } else { 0 }
}

fn span_of(lo: i32, hi: i32) -> (r: u64)
    ensures
        r == span(lo, hi),
        r < 0x1_0000_0000,
{
    if hi >= lo { (hi as i64 - lo as i64) as u64 } else { 0 }
}

fn min_i32(a: i32, b: i32) -> (r: i32)
    ensures
        r == if a <= b { a } else { b },
{
    if a <= b { a } else { b }
}

fn max_i32(a: i32, b: i32) -> (r: i32)
    ensures
        r == if a >= b { a } else { b },
{
    if a >= b { a } else { b }
}

impl Aabb2d {
    /// The box with corners `min` and `max`.
    pub fn from_min_max(min: IVec2, max: IVec2) -> (r: Self)
        ensures
            r.min == min,
            r.max == max,
    {
        Aabb2d { min, max }
    }

    /// The box `center - half_size ..= center + half_size`.
    pub fn new(center: IVec2, half_size: IVec2) -> (r: Self)
        requires
            i32::MIN <= center.x - half_size.x && center.x + half_size.x <= i32::MAX,
            i32::MIN <= center.y - half_size.y && center.y + half_size.y <= i32::MAX,
            i32::MIN <= center.x + half_size.x && center.x - half_size.x <= i32::MAX,
            i32::MIN <= center.y + half_size.y && center.y - half_size.y <= i32::MAX,
        ensures
            r.min.x == center.x - half_size.x,
            r.min.y == center.y - half_size.y,
            r.max.x == center.x + half_size.x,
            r.max.y == center.y + half_size.y,
    {
        Aabb2d {
            min: IVec2 { x: center.x - half_size.x, y: center.y - half_size.y },
            max: IVec2 { x: center.x + half_size.x, y: center.y + half_size.y },
        }
    }

    /// Whether the point lies in the box.
    pub open spec fn contains_point(self, x: int, y: int) -> bool {
        self.min.x <= x <= self.max.x && self.min.y <= y <= self.max.y
    }
}

impl BvhVolume for Aabb2d {
    open spec fn encloses(self, inner: Self) -> bool {
        self.min.x <= inner.min.x && self.min.y <= inner.min.y
        && inner.max.x <= self.max.x && inner.max.y <= self.max.y
    }

    open spec fn spec_merge(self, other: Self) -> Self {
        Aabb2d {
            min: IVec2 {
                x: if self.min.x <= other.min.x { self.min.x } else { other.min.x },
                y: if self.min.y <= other.min.y { self.min.y } else { other.min.y },
            },
            max: IVec2 {
                x: if self.max.x >= other.max.x { self.max.x } else { other.max.x },
                y: if self.max.y >= other.max.y { self.max.y } else { other.max.y },
            },
        }
    }

    open spec fn spec_area(self) -> u64 {
        (span(self.min.x, self.max.x) * span(self.min.y, self.max.y)) as u64
    }

    proof fn lemma_encloses_reflexive(a: Self) {
    }

    proof fn lemma_encloses_transitive(a: Self, b: Self, c: Self) {
    }

    proof fn lemma_merge_encloses(a: Self, b: Self) {
    }

    proof fn lemma_merge_commutative(a: Self, b: Self) {
    }

    proof fn lemma_merge_idempotent(a: Self) {
    }

    open spec fn spec_intersects(self, other: Self) -> bool {
        self.min.x <= other.max.x && other.min.x <= self.max.x
        && self.min.y <= other.max.y && other.min.y <= self.max.y
    }

    proof fn lemma_intersects_grows(query: Self, outer: Self, inner: Self) {
    }

    fn intersects(&self, other: &Self) -> (r: bool) {
        self.min.x <= other.max.x && other.min.x <= self.max.x
            && self.min.y <= other.max.y && other.min.y <= self.max.y
    }

    open spec fn spec_morton_code(self) -> usize {
        interleave(
            cell_of(self.min.x + self.max.x) as u64,
            cell_of(self.min.y + self.max.y) as u64,
            0,
            5,
        ) as usize
    }

    fn infinity() -> (r: Self) {
        Aabb2d { min: IVec2 { x: i32::MIN, y: i32::MIN }, max: IVec2 { x: i32::MAX, y: i32::MAX } }
    }

    fn merge(&self, other: &Self) -> (r: Self) {
        Aabb2d {
            min: IVec2 { x: min_i32(self.min.x, other.min.x), y: min_i32(self.min.y, other.min.y) },
            max: IVec2 { x: max_i32(self.max.x, other.max.x), y: max_i32(self.max.y, other.max.y) },
        }
    }

    fn area(&self) -> (r: u64) {
        let w = span_of(self.min.x, self.max.x);
        let h = span_of(self.min.y, self.max.y);
        proof {
            assert(w * h <= 0xFFFF_FFFF * 0xFFFF_FFFF) by (nonlinear_arith)
                requires
                    w < 0x1_0000_0000,
                    h < 0x1_0000_0000,
            ;
        }
        w * h
    }

    fn morton_code(&self) -> (r: usize) {
        let cx = grid_cell(self.min.x as i64 + self.max.x as i64);
        let cy = grid_cell(self.min.y as i64 + self.max.y as i64);
        morton_encode(cx as usize, cy as usize, 0, 5)
    }
}

} // verus!
