//! Traversal along a ray: the slab test on axis-aligned boxes, in exact
//! rational arithmetic.
//!
//! A ray is `origin + t * direction` for `t` from `0` to
//! `max_num / max_den`. Along each axis with a non-zero direction the box
//! admits an interval of `t`; the ray meets the box when the intervals and
//! `[0, t_max]` share a point, and no axis with a zero direction leaves the
//! origin outside the box.
use vstd::prelude::*;

use crate::dim2::{Aabb2d, IVec2};
use crate::dim3::{Aabb3d, IVec3};
use crate::traverse::{lemma_query_is_scan, lemma_scan_contains, query, Stack, TraverseTest, Traverser};
use crate::Bvh;

verus! {

/// One axis of a box seen from a ray: `(min, max, origin, direction)`.
pub type Axis = (i64, i64, i64, i64);

/// `a.0 / a.1 <= b.0 / b.1` for positive denominators.
pub open spec fn frac_le(a: (int, int), b: (int, int)) -> bool {
    a.0 * b.1 <= b.0 * a.1
}

/// Whether bound `i` exists: `-1` stands for `0 <= t <= t_max`, the others
/// for the axes that the ray crosses.
pub open spec fn active(axes: Seq<Axis>, i: int) -> bool {
    i < 0 || axes[i].3 != 0
}

/// The lowest `t` that bound `i` admits.
pub open spec fn lo_of(axes: Seq<Axis>, i: int) -> (int, int) {
    if i < 0 {
        (0, 1)
    } else if axes[i].3 > 0 {
        (axes[i].0 - axes[i].2, axes[i].3 as int)
    } else {
        (axes[i].2 - axes[i].1, -axes[i].3)
    }
}

/// The highest `t` that bound `i` admits.
pub open spec fn up_of(axes: Seq<Axis>, i: int, num: int, den: int) -> (int, int) {
    if i < 0 {
        (num, den)
    } else if axes[i].3 > 0 {
        (axes[i].1 - axes[i].2, axes[i].3 as int)
    } else {
        (axes[i].2 - axes[i].0, -axes[i].3)
    }
}

/// The slab test: the origin lies within the box on every axis the ray
/// does not cross, and every lower bound on `t` is at most every upper one.
pub open spec fn slab_hit(axes: Seq<Axis>, num: int, den: int) -> bool {
    &&& forall|a: int| 0 <= a < axes.len() && axes[a].3 == 0 ==> axes[a].0 <= axes[a].2 <= axes[a].1
    &&& forall|i: int, j: int|
        -1 <= i < axes.len() && -1 <= j < axes.len() && active(axes, i) && active(axes, j)
            ==> #[trigger] frac_le(lo_of(axes, i), #[trigger] up_of(axes, j, num, den))
}

/// The point at `t = p / q` lies in the box on axis `a`.
pub open spec fn point_in_axis(ax: Axis, p: int, q: int) -> bool {
    ax.0 * q <= ax.2 * q + p * ax.3 <= ax.1 * q
}

/// At `t = p / q`, within `[0, t_max]`, the ray is inside the box.
pub open spec fn hit_at(axes: Seq<Axis>, num: int, den: int, p: int, q: int) -> bool {
    q > 0 && p >= 0 && p * den <= num * q && forall|a: int|
        0 <= a < axes.len() ==> point_in_axis(#[trigger] axes[a], p, q)
}

/// The ray meets the box: some `t = p / q` in `[0, t_max]` gives a point of
/// the box.
pub open spec fn ray_hits(axes: Seq<Axis>, num: int, den: int) -> bool {
    exists|p: int, q: int| #[trigger] hit_at(axes, num, den, p, q)
}

/// Components small enough for exact products in 128 bits.
pub open spec fn axes_bounded(axes: Seq<Axis>) -> bool {
    forall|a: int|
        0 <= a < axes.len() ==> -0x2_0000_0000 <= (#[trigger] axes[a]).0 <= 0x2_0000_0000
            && -0x2_0000_0000 <= axes[a].1 <= 0x2_0000_0000 && -0x2_0000_0000 <= axes[a].2
            <= 0x2_0000_0000 && -0x1_0000_0000 <= axes[a].3 <= 0x1_0000_0000
}

proof fn lemma_frac_trans(a: (int, int), b: (int, int), c: (int, int))
    requires
        a.1 > 0,
        b.1 > 0,
        c.1 > 0,
        frac_le(a, b),
        frac_le(b, c),
    ensures
        frac_le(a, c),
{
    assert(a.0 * c.1 <= c.0 * a.1) by (nonlinear_arith)
        requires
            a.1 > 0,
            b.1 > 0,
            c.1 > 0,
            a.0 * b.1 <= b.0 * a.1,
            b.0 * c.1 <= c.0 * b.1,
    {
        assert(a.0 * b.1 * c.1 <= b.0 * a.1 * c.1);
        assert(b.0 * c.1 * a.1 <= c.0 * b.1 * a.1);
    }
}

proof fn lemma_axis_bounds(ax: Axis, p: int, q: int)
    requires
        q > 0,
        p >= 0,
        point_in_axis(ax, p, q),
    ensures
        ax.3 == 0 ==> ax.0 <= ax.2 <= ax.1,
        ax.3 > 0 ==> frac_le((ax.0 - ax.2, ax.3 as int), (p, q)) && frac_le(
            (p, q),
            (ax.1 - ax.2, ax.3 as int),
        ),
        ax.3 < 0 ==> frac_le((ax.2 - ax.1, -ax.3), (p, q)) && frac_le((p, q), (ax.2 - ax.0, -ax.3)),
{
    let (mn, mx, o, d) = (ax.0 as int, ax.1 as int, ax.2 as int, ax.3 as int);
    assert(d == 0 ==> mn <= o <= mx) by (nonlinear_arith)
        requires
            q > 0,
            mn * q <= o * q + p * d <= mx * q,
    ;
    assert((mn - o) * q <= p * d && p * d <= (mx - o) * q) by (nonlinear_arith)
        requires
            mn * q <= o * q + p * d <= mx * q,
    ;
    assert((o - mx) * q <= p * (-d) && p * (-d) <= (o - mn) * q) by (nonlinear_arith)
        requires
            mn * q <= o * q + p * d <= mx * q,
    ;
}

/// The slab test misses no box that the ray meets.
pub proof fn lemma_hit_passes_slab(axes: Seq<Axis>, num: int, den: int)
    requires
        den > 0,
        num >= 0,
        ray_hits(axes, num, den),
    ensures
        slab_hit(axes, num, den),
{
    let (p, q) = choose|p: int, q: int| #[trigger] hit_at(axes, num, den, p, q);
    assert forall|a: int| 0 <= a < axes.len() && axes[a].3 == 0 implies axes[a].0 <= axes[a].2
        <= axes[a].1 by {
        lemma_axis_bounds(axes[a], p, q);
    }
    assert forall|i: int, j: int|
        -1 <= i < axes.len() && -1 <= j < axes.len() && active(axes, i) && active(axes, j)
            implies #[trigger] frac_le(lo_of(axes, i), #[trigger] up_of(axes, j, num, den)) by {
        let lo = lo_of(axes, i);
        let up = up_of(axes, j, num, den);
        if i >= 0 {
            lemma_axis_bounds(axes[i], p, q);
        } else {
            assert(0 * q <= p * 1) by (nonlinear_arith)
                requires
                    p >= 0,
                    q > 0,
            ;
        }
        if j >= 0 {
            lemma_axis_bounds(axes[j], p, q);
        }
        assert(frac_le(lo, (p, q)));
        assert(frac_le((p, q), up));
        lemma_frac_trans(lo, (p, q), up);
    }
}

/// Among the bounds `-1 .. k - 1`, one whose lower end is greatest.
proof fn lemma_greatest_lower(axes: Seq<Axis>, k: int) -> (m: int)
    requires
        0 <= k <= axes.len(),
    ensures
        -1 <= m < k,
        active(axes, m),
        forall|i: int| -1 <= i < k && active(axes, i) ==> frac_le(lo_of(axes, i), lo_of(axes, m)),
    decreases k,
{
    if k == 0 {
        assert forall|i: int| -1 <= i < k && active(axes, i) implies frac_le(lo_of(axes, i), lo_of(axes, -1)) by {
            assert(i == -1);
        }
        -1
    } else {
        let m = lemma_greatest_lower(axes, k - 1);
        let c = k - 1;
        if active(axes, c) && frac_le(lo_of(axes, m), lo_of(axes, c)) {
            assert forall|i: int| -1 <= i < k && active(axes, i) implies frac_le(lo_of(axes, i), lo_of(axes, c)) by {
                if i < c {
                    lemma_frac_trans(lo_of(axes, i), lo_of(axes, m), lo_of(axes, c));
                } else {
                    let a = lo_of(axes, c);
                    assert(a.0 * a.1 <= a.0 * a.1);
                }
            }
            c
        } else {
            assert forall|i: int| -1 <= i < k && active(axes, i) implies frac_le(lo_of(axes, i), lo_of(axes, m)) by {
                if i == c {
                    let a = lo_of(axes, m);
                    let b = lo_of(axes, c);
                    assert(!(a.0 * b.1 <= b.0 * a.1));
                }
            }
            m
        }
    }
}

/// The slab test accepts exactly the boxes that the ray meets.
pub proof fn lemma_slab_is_exact(axes: Seq<Axis>, num: int, den: int)
    requires
        den > 0,
        num >= 0,
    ensures
        slab_hit(axes, num, den) <==> ray_hits(axes, num, den),
{
    if ray_hits(axes, num, den) {
        lemma_hit_passes_slab(axes, num, den);
    }
    if slab_hit(axes, num, den) {
        let m = lemma_greatest_lower(axes, axes.len() as int);
        let top = lo_of(axes, m);
        let p = top.0;
        let q = top.1;
        assert(top == (p, q));
        assert(q > 0);
        assert(active(axes, -1));
        assert(frac_le(lo_of(axes, -1), top));
        assert(p >= 0) by (nonlinear_arith)
            requires
                0 * q <= p * 1,
        ;
        assert(frac_le((p, q), up_of(axes, -1, num, den)));
        assert forall|a: int| 0 <= a < axes.len() implies point_in_axis(#[trigger] axes[a], p, q) by {
            let (mn, mx, o, d) = (axes[a].0 as int, axes[a].1 as int, axes[a].2 as int, axes[a].3 as int);
            if d == 0 {
                assert(mn * q <= o * q + p * d <= mx * q) by (nonlinear_arith)
                    requires
                        d == 0,
                        mn <= o <= mx,
                        q > 0,
                ;
            } else {
                assert(active(axes, a));
                assert(frac_le(lo_of(axes, a), top));
                assert(frac_le((p, q), up_of(axes, a, num, den)));
                if d > 0 {
                    assert(mn * q <= o * q + p * d <= mx * q) by (nonlinear_arith)
                        requires
                            (mn - o) * q <= p * d,
                            p * d <= (mx - o) * q,
                    ;
                } else {
                    assert(mn * q <= o * q + p * d <= mx * q) by (nonlinear_arith)
                        requires
                            (o - mx) * q <= p * (-d),
                            p * (-d) <= (o - mn) * q,
                    ;
                }
            }
        }
        assert(hit_at(axes, num, den, p, q));
    }
}

/// Box `outer` contains box `inner`, axis by axis, for the same ray.
pub open spec fn axes_enclose(outer: Seq<Axis>, inner: Seq<Axis>) -> bool {
    &&& outer.len() == inner.len()
    &&& forall|a: int|
        0 <= a < outer.len() ==> (#[trigger] outer[a]).0 <= inner[a].0 && inner[a].1 <= outer[a].1
            && outer[a].2 == inner[a].2 && outer[a].3 == inner[a].3
}

/// A box that contains one that passes the slab test passes it too.
pub proof fn lemma_slab_grows(outer: Seq<Axis>, inner: Seq<Axis>, num: int, den: int)
    requires
        den > 0,
        axes_enclose(outer, inner),
        slab_hit(inner, num, den),
    ensures
        slab_hit(outer, num, den),
{
    assert forall|a: int| 0 <= a < outer.len() && outer[a].3 == 0 implies outer[a].0 <= outer[a].2
        <= outer[a].1 by {
        assert(inner[a].3 == 0);
    }
    assert forall|i: int, j: int|
        -1 <= i < outer.len() && -1 <= j < outer.len() && active(outer, i) && active(outer, j)
            implies #[trigger] frac_le(lo_of(outer, i), #[trigger] up_of(outer, j, num, den)) by {
        let lo_o = lo_of(outer, i);
        let lo_i = lo_of(inner, i);
        let up_o = up_of(outer, j, num, den);
        let up_i = up_of(inner, j, num, den);
        assert(active(inner, i) && active(inner, j));
        assert(frac_le(lo_i, up_i));
        assert(lo_o.1 == lo_i.1 && lo_o.0 <= lo_i.0 && lo_o.1 > 0);
        assert(up_o.1 == up_i.1 && up_i.0 <= up_o.0 && up_o.1 > 0);
        assert(lo_o.0 * up_o.1 <= up_o.0 * lo_o.1) by (nonlinear_arith)
            requires
                lo_o.1 == lo_i.1,
                lo_o.0 <= lo_i.0,
                lo_o.1 > 0,
                up_o.1 == up_i.1,
                up_i.0 <= up_o.0,
                up_o.1 > 0,
                lo_i.0 * up_i.1 <= up_i.0 * lo_i.1,
        ;
    }
}

fn bound_of(ax: Axis, lower: bool, num: i64, den: i64) -> (r: (bool, i128, i128))
    requires
        -0x2_0000_0000 <= ax.0 <= 0x2_0000_0000,
        -0x2_0000_0000 <= ax.1 <= 0x2_0000_0000,
        -0x2_0000_0000 <= ax.2 <= 0x2_0000_0000,
        -0x1_0000_0000 <= ax.3 <= 0x1_0000_0000,
    ensures
        r.0 == (ax.3 != 0),
        ax.3 != 0 && lower ==> (r.1 as int, r.2 as int) == lo_of(seq![ax], 0),
        ax.3 != 0 && !lower ==> (r.1 as int, r.2 as int) == up_of(seq![ax], 0, num as int, den as int),
        -0x4_0000_0000 <= r.1 <= 0x4_0000_0000,
        0 <= r.2 <= 0x1_0000_0000,
{
    let (mn, mx, o, d) = (ax.0 as i128, ax.1 as i128, ax.2 as i128, ax.3 as i128);
    if d > 0 {
        if lower { (true, mn - o, d) } else { (true, mx - o, d) }
    } else if d < 0 {
        if lower { (true, o - mx, -d) } else { (true, o - mn, -d) }
    } else {
        (false, 0, 1)
    }
}

/// The slab test over the axes of a box.
pub fn slab_test(axes: &Vec<Axis>, num: i64, den: i64) -> (r: bool)
    requires
        axes_bounded(axes@),
        0 <= num <= 0x1_0000_0000,
        0 < den <= 0x1_0000_0000,
        axes@.len() <= 3,
    ensures
        r == slab_hit(axes@, num as int, den as int),
{
    let len = axes.len();
    let mut a: usize = 0;
    while a < len
        invariant
            a <= len,
            len == axes@.len(),
            forall|b: int| 0 <= b < a && axes@[b].3 == 0 ==> axes@[b].0 <= axes@[b].2 <= axes@[b].1,
        decreases len - a,
    {
        let ax = axes[a];
        if ax.3 == 0 && !(ax.0 <= ax.2 && ax.2 <= ax.1) {
            return false;
        }
        a = a + 1;
    }
    let mut i: usize = 0;
    while i <= len
        invariant
            i <= len + 1,
            len == axes@.len(),
            len <= 3,
            axes_bounded(axes@),
            0 <= num <= 0x1_0000_0000,
            0 < den <= 0x1_0000_0000,
            forall|b: int| 0 <= b < len && axes@[b].3 == 0 ==> axes@[b].0 <= axes@[b].2 <= axes@[b].1,
            forall|x: int, y: int|
                -1 <= x < i - 1 && -1 <= y < len && active(axes@, x) && active(axes@, y)
                    ==> #[trigger] frac_le(lo_of(axes@, x), #[trigger] up_of(axes@, y, num as int, den as int)),
        decreases len + 1 - i,
    {
        let lo: (bool, i128, i128) = if i == 0 {
            (true, 0, 1)
        } else {
            let b = bound_of(axes[i - 1], true, num, den);
            proof {
                assert(seq![axes@[i - 1]][0] == axes@[i - 1]);
            }
            b
        };
        let mut j: usize = 0;
        while j <= len
            invariant
                j <= len + 1,
                1 <= i <= len + 1 || i == 0,
                i <= len,
                len == axes@.len(),
                len <= 3,
                axes_bounded(axes@),
                0 <= num <= 0x1_0000_0000,
                0 < den <= 0x1_0000_0000,
                lo.0 == active(axes@, i - 1),
                lo.0 ==> (lo.1 as int, lo.2 as int) == lo_of(axes@, i - 1),
                -0x4_0000_0000 <= lo.1 <= 0x4_0000_0000,
                0 <= lo.2 <= 0x1_0000_0000,
                forall|x: int, y: int|
                    -1 <= x < i - 1 && -1 <= y < len && active(axes@, x) && active(axes@, y)
                        ==> #[trigger] frac_le(lo_of(axes@, x), #[trigger] up_of(axes@, y, num as int, den as int)),
                forall|y: int|
                    -1 <= y < j - 1 && active(axes@, i - 1) && active(axes@, y) ==> #[trigger] frac_le(
                        lo_of(axes@, i - 1),
                        up_of(axes@, y, num as int, den as int),
                    ),
            decreases len + 1 - j,
        {
            let up: (bool, i128, i128) = if j == 0 {
                (true, num as i128, den as i128)
            } else {
                let b = bound_of(axes[j - 1], false, num, den);
                proof {
                    assert(seq![axes@[j - 1]][0] == axes@[j - 1]);
                }
                b
            };
            if lo.0 && up.0 {
                proof {
                    assert(lo.1 * up.2 <= 0x4_0000_0000 * 0x1_0000_0000 && lo.1 * up.2 >= -0x4_0000_0000 * 0x1_0000_0000) by (nonlinear_arith)
                        requires
                            -0x4_0000_0000 <= lo.1 <= 0x4_0000_0000,
                            0 <= up.2 <= 0x1_0000_0000,
                    ;
                    assert(up.1 * lo.2 <= 0x4_0000_0000 * 0x1_0000_0000 && up.1 * lo.2 >= -0x4_0000_0000 * 0x1_0000_0000) by (nonlinear_arith)
                        requires
                            -0x4_0000_0000 <= up.1 <= 0x4_0000_0000,
                            0 <= lo.2 <= 0x1_0000_0000,
                    ;
                }
                if lo.1 * up.2 > up.1 * lo.2 {
                    proof {
                        assert(!frac_le(lo_of(axes@, i - 1), up_of(axes@, j - 1, num as int, den as int)));
                    }
                    return false;
                }
            }
            j = j + 1;
        }
        i = i + 1;
    }
    true
}

/// A ray `origin + t * direction`, `0 <= t <= max_num / max_den`.
pub struct RayTester<P> {
    pub origin: P,
    pub direction: P,
    pub max_num: u32,
    pub max_den: u32,
}

impl<P> RayTester<P> {
    pub fn new(origin: P, direction: P, max_num: u32, max_den: u32) -> (r: Self)
        requires
            max_den > 0,
        ensures
            r.origin == origin,
            r.direction == direction,
            r.max_num == max_num,
            r.max_den == max_den,
    {
        RayTester { origin, direction, max_num, max_den }
    }
}

/// The axes of a 2D box seen from a ray.
pub open spec fn axes2(v: Aabb2d, origin: IVec2, direction: IVec2) -> Seq<Axis> {
    seq![
        (v.min.x as i64, v.max.x as i64, origin.x as i64, direction.x as i64),
        (v.min.y as i64, v.max.y as i64, origin.y as i64, direction.y as i64),
    ]
}

/// The axes of a 3D box seen from a ray.
pub open spec fn axes3(v: Aabb3d, origin: IVec3, direction: IVec3) -> Seq<Axis> {
    seq![
        (v.min.x as i64, v.max.x as i64, origin.x as i64, direction.x as i64),
        (v.min.y as i64, v.max.y as i64, origin.y as i64, direction.y as i64),
        (v.min.z as i64, v.max.z as i64, origin.z as i64, direction.z as i64),
    ]
}

impl TraverseTest<Aabb2d> for RayTester<IVec2> {
    open spec fn accepts(&self, volume: Aabb2d) -> bool {
        self.max_den > 0 && slab_hit(
            axes2(volume, self.origin, self.direction),
            self.max_num as int,
            self.max_den as int,
        )
    }

    proof fn lemma_accepts_grows(&self, outer: Aabb2d, inner: Aabb2d) {
        lemma_slab_grows(
            axes2(outer, self.origin, self.direction),
            axes2(inner, self.origin, self.direction),
            self.max_num as int,
            self.max_den as int,
        );
    }

    fn test(&self, volume: &Aabb2d) -> (r: bool) {
        if self.max_den == 0 {
            return false;
        }
        let axes = vec![
            (volume.min.x as i64, volume.max.x as i64, self.origin.x as i64, self.direction.x as i64),
            (volume.min.y as i64, volume.max.y as i64, self.origin.y as i64, self.direction.y as i64),
        ];
        proof {
            assert(axes@ =~= axes2(*volume, self.origin, self.direction));
        }
        slab_test(&axes, self.max_num as i64, self.max_den as i64)
    }
}

impl TraverseTest<Aabb3d> for RayTester<IVec3> {
    open spec fn accepts(&self, volume: Aabb3d) -> bool {
        self.max_den > 0 && slab_hit(
            axes3(volume, self.origin, self.direction),
            self.max_num as int,
            self.max_den as int,
        )
    }

    proof fn lemma_accepts_grows(&self, outer: Aabb3d, inner: Aabb3d) {
        lemma_slab_grows(
            axes3(outer, self.origin, self.direction),
            axes3(inner, self.origin, self.direction),
            self.max_num as int,
            self.max_den as int,
        );
    }

    fn test(&self, volume: &Aabb3d) -> (r: bool) {
        if self.max_den == 0 {
            return false;
        }
        let axes = vec![
            (volume.min.x as i64, volume.max.x as i64, self.origin.x as i64, self.direction.x as i64),
            (volume.min.y as i64, volume.max.y as i64, self.origin.y as i64, self.direction.y as i64),
            (volume.min.z as i64, volume.max.z as i64, self.origin.z as i64, self.direction.z as i64),
        ];
        proof {
            assert(axes@ =~= axes3(*volume, self.origin, self.direction));
        }
        slab_test(&axes, self.max_num as i64, self.max_den as i64)
    }
}

/// A ray traversal of a well-formed 3D hierarchy yields every item whose
/// box the ray meets within `[0, t_max]`, and the payload of no other item.
pub proof fn lemma_ray_finds_hits_3d<T>(bvh: &Bvh<Aabb3d, T>, ray: RayTester<IVec3>)
    requires
        bvh.wf(),
        ray.max_den > 0,
    ensures
        forall|x: T|
            query(bvh.node_seq(), bvh.item_seq(), ray).contains(x) <==> exists|k: int|
                0 <= k < bvh.item_seq().len() && #[trigger] bvh.item_seq()[k].t == x && ray_hits(
                    axes3(bvh.item_seq()[k].volume, ray.origin, ray.direction),
                    ray.max_num as int,
                    ray.max_den as int,
                ),
{
    let items = bvh.item_seq();
    assert forall|k: int| 0 <= k < items.len() implies ray.accepts(#[trigger] items[k].volume)
        == ray_hits(axes3(items[k].volume, ray.origin, ray.direction), ray.max_num as int, ray.max_den as int) by {
        lemma_slab_is_exact(axes3(items[k].volume, ray.origin, ray.direction), ray.max_num as int, ray.max_den as int);
    }
    lemma_query_is_scan(bvh.node_seq(), items, ray);
    lemma_scan_contains(items, ray, 0, items.len() as int);
}

/// A ray traversal of a well-formed 2D hierarchy yields every item whose
/// box the ray meets within `[0, t_max]`, and the payload of no other item.
pub proof fn lemma_ray_finds_hits_2d<T>(bvh: &Bvh<Aabb2d, T>, ray: RayTester<IVec2>)
    requires
        bvh.wf(),
        ray.max_den > 0,
    ensures
        forall|x: T|
            query(bvh.node_seq(), bvh.item_seq(), ray).contains(x) <==> exists|k: int|
                0 <= k < bvh.item_seq().len() && #[trigger] bvh.item_seq()[k].t == x && ray_hits(
                    axes2(bvh.item_seq()[k].volume, ray.origin, ray.direction),
                    ray.max_num as int,
                    ray.max_den as int,
                ),
{
    let items = bvh.item_seq();
    assert forall|k: int| 0 <= k < items.len() implies ray.accepts(#[trigger] items[k].volume)
        == ray_hits(axes2(items[k].volume, ray.origin, ray.direction), ray.max_num as int, ray.max_den as int) by {
        lemma_slab_is_exact(axes2(items[k].volume, ray.origin, ray.direction), ray.max_num as int, ray.max_den as int);
    }
    lemma_query_is_scan(bvh.node_seq(), items, ray);
    lemma_scan_contains(items, ray, 0, items.len() as int);
}

impl<T: Copy> Bvh<Aabb2d, T> {
    /// A traversal yielding the payloads of the items whose boxes pass the
    /// slab test for the ray.
    pub fn cast_ray<'a>(
        &'a self,
        stack: &'a mut Stack,
        origin: IVec2,
        direction: IVec2,
        max_num: u32,
        max_den: u32,
    ) -> (r: Traverser<'a, Aabb2d, T, RayTester<IVec2>>)
        requires
            self.wf(),
            max_den > 0,
        ensures
            r.inv(),
            r.bvh == self,
            r.current_node is None,
            r.offset == 0,
            r.stack.0@ == seq![0u32],
            r.remaining() == query(
                self.node_seq(),
                self.item_seq(),
                RayTester { origin, direction, max_num, max_den },
            ),
    {
        self.traverse(stack, RayTester::new(origin, direction, max_num, max_den))
    }
}

impl<T: Copy> Bvh<Aabb3d, T> {
    /// A traversal yielding the payloads of the items whose boxes pass the
    /// slab test for the ray.
    pub fn cast_ray<'a>(
        &'a self,
        stack: &'a mut Stack,
        origin: IVec3,
        direction: IVec3,
        max_num: u32,
        max_den: u32,
    ) -> (r: Traverser<'a, Aabb3d, T, RayTester<IVec3>>)
        requires
            self.wf(),
            max_den > 0,
        ensures
            r.inv(),
            r.bvh == self,
            r.current_node is None,
            r.offset == 0,
            r.stack.0@ == seq![0u32],
            r.remaining() == query(
                self.node_seq(),
                self.item_seq(),
                RayTester { origin, direction, max_num, max_den },
            ),
    {
        self.traverse(stack, RayTester::new(origin, direction, max_num, max_den))
    }
}

} // verus!
