//! Dropping vertices leaves a line the same.
use vstd::prelude::*;

use crate::lowmem_tile::{
    bends, cross_product, kept_before, onward, without_collinear,
};

verus! {

/// A point of the plane with rational coordinates: `x / d` and `y / d`.
#[verifier::ext_equal]
pub struct PlanePoint {
    pub x: int,
    pub y: int,
    pub d: int,
}

/// The cross product of two vectors.
pub open spec fn cross(u: (int, int), w: (int, int)) -> int {
    u.0 * w.1 - u.1 * w.0
}

/// The inner product of two vectors.
pub open spec fn dot(u: (int, int), w: (int, int)) -> int {
    u.0 * w.0 + u.1 * w.1
}

/// The vector from `a` to `b`.
pub open spec fn vector(a: (i32, i32), b: (i32, i32)) -> (int, int) {
    (b.0 - a.0, b.1 - a.1)
}

/// The vector from `a` to `p`, times `p.d`.
pub open spec fn scaled_vector(a: (i32, i32), p: PlanePoint) -> (int, int) {
    (p.x - p.d * a.0, p.y - p.d * a.1)
}

/// Whether `p` lies on the straight way from `a` to `b`: on one line with them, and seen
/// from `p` they do not lie on one side.
pub open spec fn on_way(a: (i32, i32), b: (i32, i32), p: PlanePoint) -> bool {
    &&& cross(vector(a, b), scaled_vector(a, p)) == 0
    &&& dot(scaled_vector(a, p), scaled_vector(b, p)) <= 0
}

/// Whether `p` lies on the line through the vertices `pts`.
pub open spec fn on_line(pts: Seq<(i32, i32)>, p: PlanePoint) -> bool {
    exists|i: int| 0 <= i < pts.len() - 1 && #[trigger] on_way(pts[i], pts[i + 1], p)
}

/// What is said of vectors along `s`, where the first coordinate of `s` is not zero: they
/// are as their first coordinates are.
proof fn lemma_along(s: (int, int), x: (int, int), y: (int, int))
    requires
        s.0 != 0,
        cross(s, x) == 0,
        cross(s, y) == 0,
    ensures
        dot(x, y) <= 0 <==> x.0 * y.0 <= 0,
        dot(x, y) >= 0 <==> x.0 * y.0 >= 0,
        x.0 == 0 ==> x.1 == 0,
        cross(x, y) == 0,
{
    let (s0, s1) = s;
    let (x0, x1) = x;
    let (y0, y1) = y;
    let q = s0 * s0 + s1 * s1;
    assert(s0 * s0 > 0 && q > 0) by (nonlinear_arith)
        requires
            s0 != 0,
            q == s0 * s0 + s1 * s1,
    ;
    assert((s0 * s0) * (x0 * y0 + x1 * y1) == (x0 * y0) * q) by (nonlinear_arith)
        requires
            s0 * x1 - s1 * x0 == 0,
            s0 * y1 - s1 * y0 == 0,
            q == s0 * s0 + s1 * s1,
    ;
    lemma_same_sign(s0 * s0, x0 * y0 + x1 * y1, q, x0 * y0);
    if x0 == 0 {
        assert(x1 == 0) by (nonlinear_arith)
            requires
                s0 != 0,
                x0 == 0,
                s0 * x1 - s1 * x0 == 0,
        ;
    }
    assert(s0 * (x0 * y1 - x1 * y0) == 0) by (nonlinear_arith)
        requires
            s0 * x1 - s1 * x0 == 0,
            s0 * y1 - s1 * y0 == 0,
    ;
    assert(x0 * y1 - x1 * y0 == 0) by (nonlinear_arith)
        requires
            s0 != 0,
            s0 * (x0 * y1 - x1 * y0) == 0,
    ;
}

proof fn lemma_same_sign(m: int, v: int, n: int, w: int)
    requires
        m > 0,
        n > 0,
        m * v == w * n,
    ensures
        v <= 0 <==> w <= 0,
        v >= 0 <==> w >= 0,
{
    assert((v <= 0 <==> w <= 0) && (v >= 0 <==> w >= 0)) by (nonlinear_arith)
        requires
            m > 0,
            n > 0,
            m * v == w * n,
    ;
}

/// Two vectors along a third one that is not zero are along each other.
proof fn lemma_parallel(s: (int, int), x: (int, int), y: (int, int))
    requires
        x.0 != 0,
        cross(s, x) == 0,
        cross(x, y) == 0,
    ensures
        cross(s, y) == 0,
{
    let (s0, s1) = s;
    let (x0, x1) = x;
    let (y0, y1) = y;
    assert(x0 * (s0 * y1 - s1 * y0) == 0) by (nonlinear_arith)
        requires
            s0 * x1 - s1 * x0 == 0,
            x0 * y1 - x1 * y0 == 0,
    ;
    assert(s0 * y1 - s1 * y0 == 0) by (nonlinear_arith)
        requires
            x0 != 0,
            x0 * (s0 * y1 - s1 * y0) == 0,
    ;
}

/// A number lies between 0 and `d * (u + v)` just where it lies between 0 and `d * u`, or
/// between `d * u` and `d * (u + v)`.
proof fn lemma_between(u: int, v: int, w: int, d: int)
    requires
        d > 0,
        u * v > 0,
    ensures
        w * (w - d * (u + v)) <= 0 <==> w * (w - d * u) <= 0 || (w - d * u) * (w - d * (u + v))
            <= 0,
{
    let a = d * u;
    let b = d * (u + v);
    if u > 0 {
        assert(v > 0) by (nonlinear_arith)
            requires
                u > 0,
                u * v > 0,
        ;
        assert(0 < a < b) by (nonlinear_arith)
            requires
                d > 0,
                u > 0,
                v > 0,
                a == d * u,
                b == d * (u + v),
        ;
        assert((w * (w - b) <= 0 <==> 0 <= w <= b) && (w * (w - a) <= 0 <==> 0 <= w <= a) && ((w
            - a) * (w - b) <= 0 <==> a <= w <= b)) by (nonlinear_arith)
            requires
                0 < a < b,
        ;
    } else {
        assert(u < 0 && v < 0) by (nonlinear_arith)
            requires
                u <= 0,
                u * v > 0,
        ;
        assert(b < a < 0) by (nonlinear_arith)
            requires
                d > 0,
                u < 0,
                v < 0,
                a == d * u,
                b == d * (u + v),
        ;
        assert((w * (w - b) <= 0 <==> b <= w <= 0) && (w * (w - a) <= 0 <==> a <= w <= 0) && ((w
            - a) * (w - b) <= 0 <==> b <= w <= a)) by (nonlinear_arith)
            requires
                b < a < 0,
        ;
    }
}

spec fn plus(u: (int, int), v: (int, int)) -> (int, int) {
    (u.0 + v.0, u.1 + v.1)
}

spec fn less(w: (int, int), d: int, u: (int, int)) -> (int, int) {
    (w.0 - d * u.0, w.1 - d * u.1)
}

/// Whether `w` is on the way from the origin to `d * u`.
spec fn reached(u: (int, int), w: (int, int), d: int) -> bool {
    cross(u, w) == 0 && dot(w, less(w, d, u)) <= 0
}

spec fn swapped(u: (int, int)) -> (int, int) {
    (u.1, u.0)
}

proof fn lemma_less_along(s: (int, int), w: (int, int), d: int, u: (int, int))
    requires
        cross(s, w) == 0,
        cross(s, u) == 0,
    ensures
        cross(s, less(w, d, u)) == 0,
{
    let z = less(w, d, u);
    assert(cross(s, z) == cross(s, w) - d * cross(s, u)) by (nonlinear_arith)
        requires
            z.0 == w.0 - d * u.0,
            z.1 == w.1 - d * u.1,
            cross(s, z) == s.0 * z.1 - s.1 * z.0,
            cross(s, w) == s.0 * w.1 - s.1 * w.0,
            cross(s, u) == s.0 * u.1 - s.1 * u.0,
    ;
    assert(d * cross(s, u) == 0) by (nonlinear_arith)
        requires
            cross(s, u) == 0,
    ;
}

proof fn lemma_split_first(u: (int, int), v: (int, int), w: (int, int), d: int)
    requires
        d > 0,
        cross(u, v) == 0,
        dot(u, v) >= 0,
        u != (0int, 0int),
        v != (0int, 0int),
        plus(u, v).0 != 0,
    ensures
        reached(plus(u, v), w, d) <==> reached(u, w, d) || reached(v, less(w, d, u), d),
{
    let s = plus(u, v);
    let z = less(w, d, u);
    assert(cross(s, u) == 0 && cross(s, v) == 0) by (nonlinear_arith)
        requires
            s.0 == u.0 + v.0,
            s.1 == u.1 + v.1,
            cross(s, u) == s.0 * u.1 - s.1 * u.0,
            cross(s, v) == s.0 * v.1 - s.1 * v.0,
            u.0 * v.1 - u.1 * v.0 == 0,
    ;
    lemma_along(s, u, v);
    lemma_along(s, v, u);
    assert(u.0 * v.0 > 0) by (nonlinear_arith)
        requires
            u.0 * v.0 >= 0,
            u.0 != 0,
            v.0 != 0,
    ;
    lemma_between(u.0, v.0, w.0, d);
    // All three speak of a `w` along `s`.
    if cross(u, w) == 0 {
        lemma_parallel(s, u, w);
    }
    if cross(v, z) == 0 {
        lemma_parallel(s, v, z);
        assert(cross(s, w) == cross(s, z) + d * cross(s, u)) by (nonlinear_arith)
            requires
                z.0 == w.0 - d * u.0,
                z.1 == w.1 - d * u.1,
                cross(s, w) == s.0 * w.1 - s.1 * w.0,
                cross(s, z) == s.0 * z.1 - s.1 * z.0,
                cross(s, u) == s.0 * u.1 - s.1 * u.0,
        ;
        assert(d * cross(s, u) == 0) by (nonlinear_arith)
            requires
                cross(s, u) == 0,
        ;
    }
    if cross(s, w) == 0 {
        let whole = less(w, d, s);
        let rest = less(z, d, v);
        lemma_square(s);
        lemma_less_along(s, w, d, u);
        lemma_less_along(s, w, d, s);
        lemma_less_along(s, z, d, v);
        lemma_along(s, w, whole);
        lemma_along(s, w, z);
        lemma_along(s, z, rest);
        lemma_along(s, u, w);
        lemma_along(s, v, z);
        assert(rest.0 == w.0 - d * (u.0 + v.0)) by (nonlinear_arith)
            requires
                rest.0 == z.0 - d * v.0,
                z.0 == w.0 - d * u.0,
        ;
    }
}

proof fn lemma_split(u: (int, int), v: (int, int), w: (int, int), d: int)
    requires
        d > 0,
        cross(u, v) == 0,
        dot(u, v) >= 0,
    ensures
        reached(plus(u, v), w, d) <==> reached(u, w, d) || reached(v, less(w, d, u), d),
{
    let z = less(w, d, u);
    let s = plus(u, v);
    if u == (0int, 0int) {
        assert(d * 0 == 0);
        assert(z == w && s == v);
        lemma_origin(u, w, d);
        assert(dot((0int, 0int), less((0int, 0int), d, v)) == 0);
    } else if v == (0int, 0int) {
        assert(s == u);
        lemma_origin(v, z, d);
        if z == (0int, 0int) {
            assert(w.0 == d * u.0 && w.1 == d * u.1);
            assert(cross(u, w) == 0) by (nonlinear_arith)
                requires
                    w.0 == d * u.0,
                    w.1 == d * u.1,
                    cross(u, w) == u.0 * w.1 - u.1 * w.0,
            ;
            assert(dot(w, z) == 0) by (nonlinear_arith)
                requires
                    z.0 == 0,
                    z.1 == 0,
                    dot(w, z) == w.0 * z.0 + w.1 * z.1,
            ;
        }
    } else if s.0 != 0 {
        lemma_split_first(u, v, w, d);
    } else if s.1 != 0 {
        assert(cross(swapped(u), swapped(v)) == 0) by (nonlinear_arith)
            requires
                u.0 * v.1 - u.1 * v.0 == 0,
                cross(swapped(u), swapped(v)) == u.1 * v.0 - u.0 * v.1,
        ;
        lemma_split_first(swapped(u), swapped(v), swapped(w), d);
        assert(less(swapped(w), d, swapped(u)) == swapped(z));
        assert(plus(swapped(u), swapped(v)) == swapped(s));
        lemma_swapped(s, w, d);
        lemma_swapped(u, w, d);
        lemma_swapped(v, z, d);
    } else {
        assert(v.0 == -u.0 && v.1 == -u.1);
        assert(false) by (nonlinear_arith)
            requires
                v.0 == -u.0,
                v.1 == -u.1,
                u.0 * v.0 + u.1 * v.1 >= 0,
                u.0 != 0 || u.1 != 0,
        ;
    }
}

proof fn lemma_swapped(u: (int, int), w: (int, int), d: int)
    ensures
        reached(swapped(u), swapped(w), d) == reached(u, w, d),
{
    assert(less(swapped(w), d, swapped(u)) == swapped(less(w, d, u)));
    assert(cross(swapped(u), swapped(w)) == -cross(u, w)) by (nonlinear_arith)
        requires
            cross(swapped(u), swapped(w)) == u.1 * w.0 - u.0 * w.1,
            cross(u, w) == u.0 * w.1 - u.1 * w.0,
    ;
}

/// Only the origin is on the way from the origin to itself.
proof fn lemma_origin(u: (int, int), w: (int, int), d: int)
    requires
        u == (0int, 0int),
    ensures
        reached(u, w, d) <==> w == (0int, 0int),
{
    let y = less(w, d, u);
    assert(y == w) by (nonlinear_arith)
        requires
            u.0 == 0,
            u.1 == 0,
            y.0 == w.0 - d * u.0,
            y.1 == w.1 - d * u.1,
    ;
    assert(dot(w, w) <= 0 <==> w.0 == 0 && w.1 == 0) by (nonlinear_arith)
        requires
            dot(w, w) == w.0 * w.0 + w.1 * w.1,
    ;
    assert(cross(u, w) == 0);
}

proof fn lemma_way_is_reached(a: (i32, i32), b: (i32, i32), p: PlanePoint)
    ensures
        on_way(a, b, p) == reached(vector(a, b), scaled_vector(a, p), p.d),
        less(scaled_vector(a, p), p.d, vector(a, b)) == scaled_vector(b, p),
{
    let w = scaled_vector(a, p);
    let u = vector(a, b);
    let d = p.d;
    assert(w.0 - d * u.0 == p.x - d * b.0 && w.1 - d * u.1 == p.y - d * b.1) by (nonlinear_arith)
        requires
            w.0 == p.x - d * a.0,
            w.1 == p.y - d * a.1,
            u.0 == b.0 - a.0,
            u.1 == b.1 - a.1,
    ;
}

proof fn lemma_cross_product(a: (i32, i32), b: (i32, i32), c: (i32, i32))
    ensures
        cross_product(a, b, c) == cross(vector(a, b), vector(b, c)),
        onward(a, b, c) == dot(vector(a, b), vector(b, c)),
{
    assert((b.0 - a.0) * (c.1 - a.1) - (b.1 - a.1) * (c.0 - a.0) == (b.0 - a.0) * (c.1 - b.1) - (
    b.1 - a.1) * (c.0 - b.0)) by (nonlinear_arith);
}

/// Where `b` lies between `a` and `c`, the way from `a` to `c` is the two ways by `b`.
proof fn lemma_way_by(a: (i32, i32), b: (i32, i32), c: (i32, i32), p: PlanePoint)
    requires
        p.d > 0,
        !bends(a, b, c),
    ensures
        on_way(a, c, p) <==> on_way(a, b, p) || on_way(b, c, p),
{
    lemma_cross_product(a, b, c);
    lemma_way_is_reached(a, b, p);
    lemma_way_is_reached(b, c, p);
    lemma_way_is_reached(a, c, p);
    assert(plus(vector(a, b), vector(b, c)) == vector(a, c));
    lemma_split(vector(a, b), vector(b, c), scaled_vector(a, p), p.d);
}

proof fn lemma_on_line_push(pts: Seq<(i32, i32)>, c: (i32, i32), p: PlanePoint)
    requires
        pts.len() > 0,
    ensures
        on_line(pts.push(c), p) <==> on_line(pts, p) || on_way(pts.last(), c, p),
{
    let all = pts.push(c);
    let n = pts.len() as int;
    if on_line(pts, p) {
        let i = choose|i: int| 0 <= i < pts.len() - 1 && #[trigger] on_way(pts[i], pts[i + 1], p);
        assert(on_way(all[i], all[i + 1], p));
    }
    if on_way(pts.last(), c, p) {
        assert(on_way(all[n - 1], all[n - 1 + 1], p));
    }
    if on_line(all, p) {
        let i = choose|i: int| 0 <= i < all.len() - 1 && #[trigger] on_way(all[i], all[i + 1], p);
        if i < n - 1 {
            assert(on_way(pts[i], pts[i + 1], p));
        }
    }
}

proof fn lemma_kept_len(pts: Seq<(i32, i32)>, n: int)
    requires
        1 <= n < pts.len(),
    ensures
        1 <= kept_before(pts, n).len() <= n,
    decreases n,
{
    if n > 1 {
        lemma_kept_len(pts, n - 1);
    }
}

proof fn lemma_kept_is_lossless(pts: Seq<(i32, i32)>, n: int, p: PlanePoint)
    requires
        1 <= n < pts.len(),
        p.d > 0,
    ensures
        on_line(kept_before(pts, n).push(pts[n]), p) <==> on_line(pts.take(n + 1), p),
    decreases n,
{
    if n <= 1 {
        assert(kept_before(pts, n).push(pts[n]) =~= pts.take(n + 1));
    } else {
        let kept = kept_before(pts, n - 1);
        let b = pts[n - 1];
        let c = pts[n];
        lemma_kept_len(pts, n - 1);
        lemma_kept_is_lossless(pts, n - 1, p);
        lemma_on_line_push(kept, b, p);
        lemma_on_line_push(pts.take(n), c, p);
        assert(pts.take(n).push(c) =~= pts.take(n + 1));
        assert(pts.take(n).last() == b);
        if bends(kept.last(), b, c) {
            lemma_on_line_push(kept.push(b), c, p);
        } else {
            lemma_on_line_push(kept, c, p);
            lemma_way_by(kept.last(), b, c, p);
        }
    }
}

/// Dropping vertices is lossless: the line runs through the same points as before.
pub proof fn law_collinear_removal_is_lossless(pts: Seq<(i32, i32)>, p: PlanePoint)
    requires
        p.d > 0,
    ensures
        on_line(without_collinear(pts), p) <==> on_line(pts, p),
{
    if pts.len() > 2 {
        let n = pts.len() - 1;
        lemma_kept_is_lossless(pts, n, p);
        assert(pts.take(n + 1) =~= pts);
    }
}

/// Whether every inner vertex of a line is one that it bends at.
pub open spec fn all_bend(pts: Seq<(i32, i32)>) -> bool {
    forall|i: int| 0 < i < pts.len() - 1 ==> bends(pts[i - 1], #[trigger] pts[i], pts[i + 1])
}

/// What a vector `f` in the direction of `e` is: a positive multiple of `e`.
proof fn lemma_same_direction(u: (int, int), e: (int, int), f: (int, int))
    requires
        e != (0int, 0int),
        cross(e, f) == 0,
        dot(e, f) > 0,
    ensures
        cross(u, e) == 0 <==> cross(u, f) == 0,
        dot(u, e) < 0 <==> dot(u, f) < 0,
        dot(u, e) > 0 <==> dot(u, f) > 0,
{
    let (u0, u1) = u;
    let (e0, e1) = e;
    let (f0, f1) = f;
    let m = e0 * e0 + e1 * e1;
    let n = e0 * f0 + e1 * f1;
    assert(m > 0) by (nonlinear_arith)
        requires
            e0 != 0 || e1 != 0,
            m == e0 * e0 + e1 * e1,
    ;
    assert(m * f0 == n * e0 && m * f1 == n * e1) by (nonlinear_arith)
        requires
            m == e0 * e0 + e1 * e1,
            n == e0 * f0 + e1 * f1,
            e0 * f1 - e1 * f0 == 0,
    ;
    assert(m * (u0 * f1 - u1 * f0) == (u0 * e1 - u1 * e0) * n) by (nonlinear_arith)
        requires
            m * f0 == n * e0,
            m * f1 == n * e1,
    ;
    assert(m * (u0 * f0 + u1 * f1) == (u0 * e0 + u1 * e1) * n) by (nonlinear_arith)
        requires
            m * f0 == n * e0,
            m * f1 == n * e1,
    ;
    lemma_same_sign(m, u0 * f1 - u1 * f0, n, u0 * e1 - u1 * e0);
    lemma_same_sign(m, u0 * f0 + u1 * f1, n, u0 * e0 + u1 * e1);
}

proof fn lemma_square(e: (int, int))
    ensures
        dot(e, e) >= 0,
        dot(e, e) == 0 ==> e == (0int, 0int),
        cross(e, e) == 0,
{
    assert(e.0 * e.0 + e.1 * e.1 >= 0 && (e.0 * e.0 + e.1 * e.1 == 0 ==> e.0 == 0 && e.1 == 0)
        && e.0 * e.1 - e.1 * e.0 == 0) by (nonlinear_arith);
}

/// Where `b` lies between `a` and `c` and is not `a`, `c` lies in the direction of `b`.
proof fn lemma_ahead(a: (i32, i32), b: (i32, i32), c: (i32, i32))
    requires
        !bends(a, b, c),
        a != b,
    ensures
        cross(vector(a, b), vector(a, c)) == 0,
        dot(vector(a, b), vector(a, c)) > 0,
{
    let u = vector(a, b);
    let v = vector(b, c);
    let f = vector(a, c);
    lemma_cross_product(a, b, c);
    lemma_square(u);
    assert(cross(u, f) == cross(u, v) + cross(u, u) && dot(u, f) == dot(u, v) + dot(u, u))
        by (nonlinear_arith)
        requires
            f.0 == u.0 + v.0,
            f.1 == u.1 + v.1,
            cross(u, f) == u.0 * f.1 - u.1 * f.0,
            cross(u, v) == u.0 * v.1 - u.1 * v.0,
            cross(u, u) == u.0 * u.1 - u.1 * u.0,
            dot(u, f) == u.0 * f.0 + u.1 * f.1,
            dot(u, v) == u.0 * v.0 + u.1 * v.1,
            dot(u, u) == u.0 * u.0 + u.1 * u.1,
    ;
}

proof fn lemma_still_bends(z: (i32, i32), a: (i32, i32), b: (i32, i32), c: (i32, i32))
    requires
        bends(z, a, b),
        !bends(a, b, c),
    ensures
        bends(z, a, c),
        cross_product(z, a, b) != 0 ==> cross_product(z, a, c) != 0,
{
    lemma_cross_product(z, a, b);
    lemma_cross_product(z, a, c);
    let u = vector(z, a);
    if a == b {
        let e = vector(a, b);
        assert(cross(u, e) == 0 && dot(u, e) == 0) by (nonlinear_arith)
            requires
                e.0 == 0,
                e.1 == 0,
                cross(u, e) == u.0 * e.1 - u.1 * e.0,
                dot(u, e) == u.0 * e.0 + u.1 * e.1,
        ;
        assert(false);
    }
    lemma_ahead(a, b, c);
    lemma_same_direction(u, vector(a, b), vector(a, c));
}

proof fn lemma_kept_bend(pts: Seq<(i32, i32)>, n: int)
    requires
        1 <= n < pts.len(),
    ensures
        all_bend(kept_before(pts, n).push(pts[n])),
    decreases n,
{
    if n > 1 {
        let kept = kept_before(pts, n - 1);
        let b = pts[n - 1];
        let c = pts[n];
        lemma_kept_len(pts, n - 1);
        lemma_kept_bend(pts, n - 1);
        let before = kept.push(b);
        let now = kept_before(pts, n).push(c);
        let k = kept.len() as int;
        assert forall|i: int| 0 < i < now.len() - 1 implies bends(
            now[i - 1],
            #[trigger] now[i],
            now[i + 1],
        ) by {
            if bends(kept.last(), b, c) {
                if i < k {
                    assert(bends(before[i - 1], before[i], before[i + 1]));
                } else {
                    assert(now[i - 1] == kept.last() && now[i] == b && now[i + 1] == c);
                }
            } else {
                assert(bends(before[i - 1], before[i], before[i + 1]));
                if i == k - 1 {
                    lemma_still_bends(kept[k - 2], kept.last(), b, c);
                }
            }
        }
    }
}

proof fn lemma_all_kept(pts: Seq<(i32, i32)>, n: int)
    requires
        all_bend(pts),
        1 <= n < pts.len(),
    ensures
        kept_before(pts, n) == pts.take(n),
    decreases n,
{
    if n > 1 {
        lemma_all_kept(pts, n - 1);
        assert(bends(pts[n - 2], pts[n - 1], pts[n]));
        assert(pts.take(n - 1).push(pts[n - 1]) =~= pts.take(n));
    }
}

/// The line bends at every inner vertex that is left, so dropping vertices once more
/// changes nothing.
pub proof fn law_collinear_removal_is_idempotent(pts: Seq<(i32, i32)>)
    ensures
        all_bend(without_collinear(pts)),
        without_collinear(without_collinear(pts)) == without_collinear(pts),
{
    let r = without_collinear(pts);
    if pts.len() > 2 {
        lemma_kept_bend(pts, pts.len() - 1);
        if r.len() > 2 {
            let n = r.len() - 1;
            lemma_all_kept(r, n);
            assert(r.take(n).push(r.last()) =~= r);
        }
    }
}

/// Whether consecutive vertices of a line differ, and it turns straight back at none.
pub open spec fn never_turns_back(pts: Seq<(i32, i32)>) -> bool {
    &&& forall|i: int| 0 < i < pts.len() ==> pts[i - 1] != #[trigger] pts[i]
    &&& forall|i: int|
        0 < i < pts.len() - 1 && cross_product(pts[i - 1], #[trigger] pts[i], pts[i + 1]) == 0
            ==> onward(pts[i - 1], pts[i], pts[i + 1]) > 0
}

/// Whether no three consecutive vertices are on one line.
pub open spec fn none_collinear(pts: Seq<(i32, i32)>) -> bool {
    forall|i: int|
        0 < i < pts.len() - 1 ==> cross_product(pts[i - 1], #[trigger] pts[i], pts[i + 1]) != 0
}

proof fn lemma_kept_not_collinear(pts: Seq<(i32, i32)>, n: int)
    requires
        1 <= n < pts.len(),
        never_turns_back(pts),
    ensures
        none_collinear(kept_before(pts, n).push(pts[n])),
        cross(vector(pts[n - 1], pts[n]), vector(kept_before(pts, n).last(), pts[n])) == 0,
        dot(vector(pts[n - 1], pts[n]), vector(kept_before(pts, n).last(), pts[n])) > 0,
    decreases n,
{
    let e = vector(pts[n - 1], pts[n]);
    assert(pts[n - 1] != pts[n]);
    lemma_square(e);
    if n > 1 {
        let kept = kept_before(pts, n - 1);
        let b = pts[n - 1];
        let c = pts[n];
        lemma_kept_len(pts, n - 1);
        lemma_kept_not_collinear(pts, n - 1);
        lemma_kept_bend(pts, n - 1);
        let a = kept.last();
        let before = kept.push(b);
        let now = kept_before(pts, n).push(c);
        let k = kept.len() as int;
        lemma_cross_product(a, b, c);
        lemma_cross_product(pts[n - 2], b, c);
        if bends(a, b, c) {
            if cross_product(a, b, c) == 0 {
                let d = vector(pts[n - 2], b);
                assert(pts[n - 2] != pts[n - 1]);
                lemma_turned(e, d);
                lemma_turned(e, vector(a, b));
                lemma_same_direction(e, d, vector(a, b));
                assert(cross_product(pts[n - 2], pts[n - 1], pts[n]) == 0);
                assert(false);
            }
        } else {
            let u = vector(a, b);
            let f = vector(a, c);
            assert(cross(e, f) == -cross(u, e) + cross(e, e) && dot(e, f) == dot(u, e) + dot(
                e,
                e,
            )) by (nonlinear_arith)
                requires
                    f.0 == u.0 + e.0,
                    f.1 == u.1 + e.1,
                    cross(e, f) == e.0 * f.1 - e.1 * f.0,
                    cross(u, e) == u.0 * e.1 - u.1 * e.0,
                    cross(e, e) == e.0 * e.1 - e.1 * e.0,
                    dot(e, f) == e.0 * f.0 + e.1 * f.1,
                    dot(u, e) == u.0 * e.0 + u.1 * e.1,
                    dot(e, e) == e.0 * e.0 + e.1 * e.1,
            ;
        }
        assert forall|i: int| 0 < i < now.len() - 1 implies cross_product(
            now[i - 1],
            #[trigger] now[i],
            now[i + 1],
        ) != 0 by {
            if bends(a, b, c) {
                if i < k {
                    assert(cross_product(before[i - 1], before[i], before[i + 1]) != 0);
                } else {
                    assert(now[i - 1] == a && now[i] == b && now[i + 1] == c);
                }
            } else {
                assert(cross_product(before[i - 1], before[i], before[i + 1]) != 0);
                assert(bends(before[i - 1], before[i], before[i + 1]));
                if i == k - 1 {
                    lemma_still_bends(kept[k - 2], a, b, c);
                }
            }
        }
    }
}

proof fn lemma_turned(u: (int, int), e: (int, int))
    ensures
        cross(u, e) == -cross(e, u),
        dot(u, e) == dot(e, u),
{
    assert(u.0 * e.1 - u.1 * e.0 == -(e.0 * u.1 - e.1 * u.0) && u.0 * e.0 + u.1 * e.1 == e.0 * u.0
        + e.1 * u.1) by (nonlinear_arith);
}

/// Of a line that never turns straight back no three consecutive vertices that are left
/// are on one line.
pub proof fn law_no_collinear_vertices_are_left(pts: Seq<(i32, i32)>)
    requires
        never_turns_back(pts),
    ensures
        none_collinear(without_collinear(pts)),
{
    if pts.len() > 2 {
        lemma_kept_not_collinear(pts, pts.len() - 1);
    }
}

} // verus!
