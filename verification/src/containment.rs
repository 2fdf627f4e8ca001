//! Why a bounding box bounds: every point of a placed shape lies in the
//! shape's bounding box.
//!
//! Points are taken with rational coordinates, so that the statement covers
//! the inside of a shape and not only the points of the integer grid.

use vstd::prelude::*;
use crate::aabb::Aabb;
use crate::isometry::{dot, norm2, Isometry, Point};
use crate::shape::{mesh_leaves, spread, ColliderShape, Triangle};
use crate::tree::lemma_enclosure_exists;
use crate::vector::{abs, Vec3, COORD_MAX, ONE};

verus! {

/// The point `p` is the mean of the corners of `t` with the weights `wa`,
/// `wb` and `wc`, none of them negative: a point of the triangle.
pub open spec fn on_triangle(t: Triangle, wa: int, wb: int, wc: int, p: Point) -> bool {
    &&& wa >= 0 && wb >= 0 && wc >= 0
    &&& p.den == wa + wb + wc
    &&& p.x == wa * t.a.x + wb * t.b.x + wc * t.c.x
    &&& p.y == wa * t.a.y + wb * t.b.y + wc * t.c.y
    &&& p.z == wa * t.a.z + wb * t.b.z + wc * t.c.z
}

/// The point `p`, in the shape's own frame, belongs to the shape: it is no
/// farther from the origin than the radius of a sphere, within the
/// half-extents of a cuboid, or on a triangle of a mesh.
pub open spec fn has_point(shape: ColliderShape, p: Point) -> bool {
    match shape {
        ColliderShape::Sphere(radius) => p.x * p.x + p.y * p.y + p.z * p.z <= (p.den * radius) * (
        p.den * radius),
        ColliderShape::Cuboid(half) => {
            &&& abs(p.x) <= p.den * half.x
            &&& abs(p.y) <= p.den * half.y
            &&& abs(p.z) <= p.den * half.z
        },
        ColliderShape::Mesh(mesh) => exists|k: int, wa: int, wb: int, wc: int|
            0 <= k < mesh@.len() && #[trigger] on_triangle(mesh@[k], wa, wb, wc, p),
    }
}

/// The point `p` lies in the box.
pub open spec fn box_holds(bounds: Aabb, p: Point) -> bool {
    &&& p.den * bounds.mins.x <= p.x <= p.den * bounds.maxs.x
    &&& p.den * bounds.mins.y <= p.y <= p.den * bounds.maxs.y
    &&& p.den * bounds.mins.z <= p.z <= p.den * bounds.maxs.z
}

/// The product of two vectors is at most the product of their lengths.
proof fn lemma_product_bound(a: Vec3, p: Point, la: int, lp: int)
    requires
        la >= 0,
        lp >= 0,
        norm2(a) <= la * la,
        p.x * p.x + p.y * p.y + p.z * p.z <= lp * lp,
    ensures
        -(la * lp) <= dot(a, p) <= la * lp,
{
    let s = dot(a, p);
    let na = norm2(a);
    let np = p.x * p.x + p.y * p.y + p.z * p.z;
    let c1 = a.x * p.y - a.y * p.x;
    let c2 = a.x * p.z - a.z * p.x;
    let c3 = a.y * p.z - a.z * p.y;
    lemma_square_of_sum(a.x * p.x, a.y * p.y, a.z * p.z);
    lemma_square_of_product(a.x as int, p.x);
    lemma_square_of_product(a.y as int, p.y);
    lemma_square_of_product(a.z as int, p.z);
    lemma_square_of_cross(a.x as int, a.y as int, p.x, p.y);
    lemma_square_of_cross(a.x as int, a.z as int, p.x, p.z);
    lemma_square_of_cross(a.y as int, a.z as int, p.y, p.z);
    lemma_product_of_sums(a.x * a.x, a.y * a.y, a.z * a.z, p.x * p.x, p.y * p.y, p.z * p.z);
    assert(s * s + c1 * c1 + c2 * c2 + c3 * c3 == na * np);
    assert(c1 * c1 >= 0 && c2 * c2 >= 0 && c3 * c3 >= 0) by (nonlinear_arith);
    assert(na >= 0 && np >= 0) by (nonlinear_arith)
        requires
            na == a.x * a.x + a.y * a.y + a.z * a.z,
            np == p.x * p.x + p.y * p.y + p.z * p.z,
    ;
    assert(na * np <= (la * la) * (lp * lp)) by (nonlinear_arith)
        requires
            0 <= na <= la * la,
            0 <= np <= lp * lp,
    ;
    assert((la * la) * (lp * lp) == (la * lp) * (la * lp)) by (nonlinear_arith);
    assert(-(la * lp) <= s <= la * lp) by (nonlinear_arith)
        requires
            s * s <= (la * lp) * (la * lp),
            la >= 0,
            lp >= 0,
    ;
}

proof fn lemma_square_of_sum(u: int, v: int, w: int)
    ensures
        (u + v + w) * (u + v + w) == u * u + v * v + w * w + 2 * (u * v) + 2 * (u * w) + 2 * (v
            * w),
{
    assert((u + v + w) * (u + v + w) == u * u + v * v + w * w + 2 * (u * v) + 2 * (u * w) + 2 * (v
        * w)) by (nonlinear_arith);
}

proof fn lemma_square_of_product(a: int, p: int)
    ensures
        (a * p) * (a * p) == (a * a) * (p * p),
{
    assert((a * p) * (a * p) == (a * a) * (p * p)) by (nonlinear_arith);
}

proof fn lemma_square_of_cross(a: int, b: int, p: int, q: int)
    ensures
        (a * q - b * p) * (a * q - b * p) + 2 * ((a * p) * (b * q)) == (a * a) * (q * q) + (b * b)
            * (p * p),
{
    let x = a * q;
    let y = b * p;
    assert((x - y) * (x - y) == x * x - 2 * (x * y) + y * y) by (nonlinear_arith);
    lemma_square_of_product(a, q);
    lemma_square_of_product(b, p);
    assert((a * q) * (b * p) == (a * p) * (b * q)) by (nonlinear_arith);
}

proof fn lemma_product_of_sums(ax: int, ay: int, az: int, bx: int, by: int, bz: int)
    ensures
        (ax + ay + az) * (bx + by + bz) == ax * bx + ax * by + ax * bz + ay * bx + ay * by + ay
            * bz + az * bx + az * by + az * bz,
{
    assert((ax + ay + az) * (bx + by + bz) == ax * bx + ax * by + ax * bz + ay * bx + ay * by + ay
        * bz + az * bx + az * by + az * bz) by (nonlinear_arith);
}

/// A point that is turned and moved stays within `reach` of where the
/// origin is moved to, if its turned coordinate is within `reach`.
proof fn lemma_between(den: int, t: int, reach: int, turned: int)
    requires
        den > 0,
        -(ONE * (den * reach)) <= turned <= ONE * (den * reach),
    ensures
        (ONE * den) * (t - reach) <= ONE * den * t + turned <= (ONE * den) * (t + reach),
{
    assert((ONE * den) * (t - reach) == ONE * den * t - ONE * (den * reach)) by (nonlinear_arith);
    assert((ONE * den) * (t + reach) == ONE * den * t + ONE * (den * reach)) by (nonlinear_arith);
}

/// A point within the half-extents of a cuboid, once turned, is within the
/// reach that the cuboid's bounding box has along the row's axis.
proof fn lemma_turned_within_spread(row: Vec3, half: Vec3, p: Point)
    requires
        p.den > 0,
        half.non_negative(),
        abs(p.x) <= p.den * half.x,
        abs(p.y) <= p.den * half.y,
        abs(p.z) <= p.den * half.z,
    ensures
        -(ONE * (p.den * spread(row, half))) <= dot(row, p) <= ONE * (p.den * spread(row, half)),
{
    let d = p.den;
    let sx = abs(row.x as int) * half.x;
    let sy = abs(row.y as int) * half.y;
    let sz = abs(row.z as int) * half.z;
    lemma_term_bound(row.x as int, p.x, d, half.x as int);
    lemma_term_bound(row.y as int, p.y, d, half.y as int);
    lemma_term_bound(row.z as int, p.z, d, half.z as int);
    let total = sx + sy + sz;
    assert(d * total == d * sx + d * sy + d * sz) by (nonlinear_arith)
        requires
            total == sx + sy + sz,
    ;
    assert(-(d * total) <= dot(row, p) <= d * total);
    let reach = spread(row, half);
    assert(ONE * reach >= total);
    assert(d * (ONE * reach) >= d * total) by (nonlinear_arith)
        requires
            d > 0,
            ONE * reach >= total,
    ;
    assert(d * (ONE * reach) == ONE * (d * reach)) by (nonlinear_arith);
}

proof fn lemma_term_bound(r: int, c: int, den: int, half: int)
    requires
        den > 0,
        half >= 0,
        abs(c) <= den * half,
    ensures
        -(den * (abs(r) * half)) <= r * c <= den * (abs(r) * half),
{
    assert(-(abs(r) * (den * half)) <= r * c <= abs(r) * (den * half)) by (nonlinear_arith)
        requires
            abs(c) <= den * half,
            abs(r) >= 0,
            abs(r) == r || abs(r) == -r,
            abs(c) == c || abs(c) == -c,
            abs(c) >= 0,
    ;
    assert(abs(r) * (den * half) == den * (abs(r) * half)) by (nonlinear_arith);
}

/// A weighted mean of three numbers between `low` and `high` lies between
/// `low` and `high`.
proof fn lemma_mean_between(wa: int, wb: int, wc: int, a: int, b: int, c: int, low: int, high: int)
    requires
        wa >= 0 && wb >= 0 && wc >= 0,
        low <= a <= high,
        low <= b <= high,
        low <= c <= high,
    ensures
        (ONE * (wa + wb + wc)) * low <= ONE * (wa * a + wb * b + wc * c) <= (ONE * (wa + wb + wc))
            * high,
{
    assert(wa * low <= wa * a <= wa * high) by (nonlinear_arith)
        requires
            wa >= 0,
            low <= a <= high,
    ;
    assert(wb * low <= wb * b <= wb * high) by (nonlinear_arith)
        requires
            wb >= 0,
            low <= b <= high,
    ;
    assert(wc * low <= wc * c <= wc * high) by (nonlinear_arith)
        requires
            wc >= 0,
            low <= c <= high,
    ;
    assert((ONE * (wa + wb + wc)) * low == ONE * (wa * low + wb * low + wc * low))
        by (nonlinear_arith);
    assert((ONE * (wa + wb + wc)) * high == ONE * (wa * high + wb * high + wc * high))
        by (nonlinear_arith);
}

/// Every point of a placed sphere or cuboid lies in the bounding box that
/// the shape has under that placement.
///
/// A mesh has the box of its own hierarchy, which is not moved with the
/// mesh; of a mesh the same holds where it is placed by the identity.
pub proof fn lemma_aabb_containment(shape: ColliderShape, m: Isometry, p: Point)
    requires
        shape.valid(),
        m.wf(),
        p.den > 0,
        has_point(shape, p),
        shape is Mesh ==> m == Isometry::spec_identity(),
    ensures
        box_holds(shape.spec_aabb(m), m.spec_apply(p)),
{
    let t = m.translation;
    let b = shape.spec_aabb(m);
    let q = m.spec_apply(p);
    match shape {
        ColliderShape::Sphere(radius) => {
            let lp = p.den * radius;
            assert(lp >= 0) by (nonlinear_arith)
                requires
                    lp == p.den * radius,
                    p.den > 0,
                    radius >= 0,
            ;
            assert(ONE * ONE == (ONE as int) * (ONE as int));
            lemma_product_bound(m.rotation.x, p, ONE as int, lp);
            lemma_product_bound(m.rotation.y, p, ONE as int, lp);
            lemma_product_bound(m.rotation.z, p, ONE as int, lp);
            lemma_between(p.den, t.x as int, radius as int, dot(m.rotation.x, p));
            lemma_between(p.den, t.y as int, radius as int, dot(m.rotation.y, p));
            lemma_between(p.den, t.z as int, radius as int, dot(m.rotation.z, p));
        },
        ColliderShape::Cuboid(half) => {
            lemma_spread_range(m.rotation.x, half);
            lemma_spread_range(m.rotation.y, half);
            lemma_spread_range(m.rotation.z, half);
            lemma_turned_within_spread(m.rotation.x, half, p);
            lemma_turned_within_spread(m.rotation.y, half, p);
            lemma_turned_within_spread(m.rotation.z, half, p);
            lemma_between(p.den, t.x as int, spread(m.rotation.x, half), dot(m.rotation.x, p));
            lemma_between(p.den, t.y as int, spread(m.rotation.y, half), dot(m.rotation.y, p));
            lemma_between(p.den, t.z as int, spread(m.rotation.z, half), dot(m.rotation.z, p));
        },
        ColliderShape::Mesh(mesh) => {
            lemma_enclosure_exists(mesh_leaves(mesh@));
            let (k, wa, wb, wc) = choose|k: int, wa: int, wb: int, wc: int|
                0 <= k < mesh@.len() && #[trigger] on_triangle(mesh@[k], wa, wb, wc, p);
            let tri = mesh@[k];
            let leaves = mesh_leaves(mesh@);
            assert(b.encloses(leaves[k].aabb));
            assert(leaves[k].aabb == tri.spec_bounds());
            lemma_mean_between(
                wa,
                wb,
                wc,
                tri.a.x as int,
                tri.b.x as int,
                tri.c.x as int,
                b.mins.x as int,
                b.maxs.x as int,
            );
            lemma_mean_between(
                wa,
                wb,
                wc,
                tri.a.y as int,
                tri.b.y as int,
                tri.c.y as int,
                b.mins.y as int,
                b.maxs.y as int,
            );
            lemma_mean_between(
                wa,
                wb,
                wc,
                tri.a.z as int,
                tri.b.z as int,
                tri.c.z as int,
                b.mins.z as int,
                b.maxs.z as int,
            );
            lemma_axis_row(m.rotation.x, p);
            lemma_axis_row(m.rotation.y, p);
            lemma_axis_row(m.rotation.z, p);
        },
    }
}

proof fn lemma_axis_row(row: Vec3, p: Point)
    ensures
        row.y == 0 && row.z == 0 ==> dot(row, p) == row.x * p.x,
        row.x == 0 && row.z == 0 ==> dot(row, p) == row.y * p.y,
        row.x == 0 && row.y == 0 ==> dot(row, p) == row.z * p.z,
{
    assert(0 * p.x == 0 && 0 * p.y == 0 && 0 * p.z == 0) by (nonlinear_arith);
}

/// The reach of a cuboid along an axis is not negative and at most three
/// times the greatest half-extent.
proof fn lemma_spread_range(row: Vec3, half: Vec3)
    requires
        row.within(ONE as int),
        half.non_negative(),
        half.within(COORD_MAX as int),
    ensures
        0 <= spread(row, half) <= 3 * COORD_MAX,
{
    let rx = abs(row.x as int);
    let ry = abs(row.y as int);
    let rz = abs(row.z as int);
    assert(0 <= rx * half.x <= ONE * COORD_MAX && 0 <= ry * half.y <= ONE * COORD_MAX && 0 <= rz
        * half.z <= ONE * COORD_MAX) by (nonlinear_arith)
        requires
            0 <= rx <= ONE,
            0 <= ry <= ONE,
            0 <= rz <= ONE,
            0 <= half.x <= COORD_MAX,
            0 <= half.y <= COORD_MAX,
            0 <= half.z <= COORD_MAX,
    ;
}

} // verus!
