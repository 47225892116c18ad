//! Integer points on the screen and the edge function that orients them.

use vstd::prelude::*;

verus! {

/// A pixel position, or a vertex snapped to the pixel grid.
#[derive(Clone, Copy, Debug, PartialEq, Eq, Structural)]
pub struct PointI32 {
    pub x: i32,
    pub y: i32,
}

/// The edge function of the directed edge `a -> b` at `(cx, cy)`: twice the
/// signed area of the triangle `(a, b, c)`.
pub open spec fn edge(a: PointI32, b: PointI32, cx: int, cy: int) -> int {
    (b.x - a.x) * (cy - a.y) - (b.y - a.y) * (cx - a.x)
}

/// Twice the signed area of the triangle `(v0, v1, v2)`.
pub open spec fn signed_area(v0: PointI32, v1: PointI32, v2: PointI32) -> int {
    (v1.x - v0.x) * (v2.y - v0.y) - (v0.x - v2.x) * (v0.y - v1.y)
}

/// Every edge value of 32-bit points stays far inside 128 bits.
pub proof fn lemma_edge_bound(a: PointI32, b: PointI32, cx: int, cy: int)
    requires
        -0x1_0000_0000 <= cx <= 0x1_0000_0000,
        -0x1_0000_0000 <= cy <= 0x1_0000_0000,
    ensures
        -0x8_0000_0000_0000_0000 <= (b.x - a.x) * (cy - a.y) <= 0x8_0000_0000_0000_0000,
        -0x8_0000_0000_0000_0000 <= (b.y - a.y) * (cx - a.x) <= 0x8_0000_0000_0000_0000,
        -0x10_0000_0000_0000_0000 <= edge(a, b, cx, cy) <= 0x10_0000_0000_0000_0000,
{
    let p: int = b.x - a.x;
    let q: int = cy - a.y;
    let r: int = b.y - a.y;
    let s: int = cx - a.x;
    assert(-0x8_0000_0000_0000_0000 <= p * q <= 0x8_0000_0000_0000_0000) by (nonlinear_arith)
        requires
            -0x1_0000_0000 <= p <= 0x1_0000_0000,
            -0x2_0000_0000 <= q <= 0x2_0000_0000,
    ;
    assert(-0x8_0000_0000_0000_0000 <= r * s <= 0x8_0000_0000_0000_0000) by (nonlinear_arith)
        requires
            -0x1_0000_0000 <= r <= 0x1_0000_0000,
            -0x2_0000_0000 <= s <= 0x2_0000_0000,
    ;
}

/// The edge function of `a -> b` at the pixel `(cx, cy)`.
pub fn orient2d(a: &PointI32, b: &PointI32, cx: i32, cy: i32) -> (r: i128)
    ensures
        r == edge(*a, *b, cx as int, cy as int),
{
    proof {
        lemma_edge_bound(*a, *b, cx as int, cy as int);
    }
    let bax: i128 = b.x as i128 - a.x as i128;
    let bay: i128 = b.y as i128 - a.y as i128;
    let dx: i128 = cx as i128 - a.x as i128;
    let dy: i128 = cy as i128 - a.y as i128;
    bax * dy - bay * dx
}

/// One pixel to the right the edge function of `a -> b` has grown by
/// `a.y - b.y`, and one pixel down by `b.x - a.x`.
pub proof fn lemma_edge_steps(a: PointI32, b: PointI32, cx: int, cy: int)
    ensures
        edge(a, b, cx + 1, cy) == edge(a, b, cx, cy) + (a.y - b.y),
        edge(a, b, cx, cy + 1) == edge(a, b, cx, cy) + (b.x - a.x),
{
    let p: int = b.x - a.x;
    let q: int = b.y - a.y;
    let dx: int = cx - a.x;
    let dy: int = cy - a.y;
    assert(q * (dx + 1) == q * dx + q) by (nonlinear_arith);
    assert(p * (dy + 1) == p * dy + p) by (nonlinear_arith);
    assert(cx + 1 - a.x == dx + 1 && cy + 1 - a.y == dy + 1);
}

/// The edge values of a triangle moved so that its first vertex is the
/// origin: `(a, b)` and `(c, d)` are the other two vertices, `(p, q)` the point.
proof fn lemma_edges_from_origin(a: int, b: int, c: int, d: int, p: int, q: int)
    ensures
        (c - a) * (q - b) - (d - b) * (p - a) == (a * d - c * b) - (d * p - c * q) - (a * q - b
            * p),
        (0 - c) * (q - d) - (0 - d) * (p - c) == d * p - c * q,
        (d * p - c * q) * a + (a * q - b * p) * c == p * (a * d - c * b),
        (d * p - c * q) * b + (a * q - b * p) * d == q * (a * d - c * b),
{
    assert((c - a) * (q - b) == c * q - c * b - a * q + a * b) by (nonlinear_arith);
    assert((d - b) * (p - a) == d * p - d * a - b * p + b * a) by (nonlinear_arith);
    assert(a * b == b * a && d * a == a * d) by (nonlinear_arith);
    assert((0 - c) * (q - d) == c * d - c * q) by (nonlinear_arith);
    assert((0 - d) * (p - c) == d * c - d * p) by (nonlinear_arith);
    assert(c * d == d * c) by (nonlinear_arith);
    assert((d * p - c * q) * a + (a * q - b * p) * c == p * (a * d - c * b)) by (nonlinear_arith);
    assert((d * p - c * q) * b + (a * q - b * p) * d == q * (a * d - c * b)) by (nonlinear_arith);
}

/// The edge values and the area of a triangle, written from its first vertex.
proof fn lemma_edges_translated(v0: PointI32, v1: PointI32, v2: PointI32, x: int, y: int)
    ensures
        ({
            let (a, b, c, d, p, q) = (
                v1.x - v0.x,
                v1.y - v0.y,
                v2.x - v0.x,
                v2.y - v0.y,
                x - v0.x,
                y - v0.y,
            );
            &&& signed_area(v0, v1, v2) == a * d - c * b
            &&& edge(v1, v2, x, y) == (a * d - c * b) - (d * p - c * q) - (a * q - b * p)
            &&& edge(v2, v0, x, y) == d * p - c * q
            &&& edge(v0, v1, x, y) == a * q - b * p
        }),
{
    let (a, b, c, d, p, q) = (
        v1.x - v0.x,
        v1.y - v0.y,
        v2.x - v0.x,
        v2.y - v0.y,
        x - v0.x,
        y - v0.y,
    );
    lemma_edges_from_origin(a, b, c, d, p, q);
    assert((v0.x - v2.x) * (v0.y - v1.y) == c * b) by (nonlinear_arith)
        requires
            c == v2.x - v0.x,
            b == v1.y - v0.y,
    ;
    assert(v2.x - v1.x == c - a && y - v1.y == q - b && v2.y - v1.y == d - b && x - v1.x == p - a);
    assert(v0.x - v2.x == 0 - c && y - v2.y == q - d && v0.y - v2.y == 0 - d && x - v2.x == p - c);
}

/// The three edge values of a point sum to the triangle's signed area,
/// wherever the point lies.
pub proof fn lemma_edges_sum_to_area(v0: PointI32, v1: PointI32, v2: PointI32, x: int, y: int)
    ensures
        edge(v1, v2, x, y) + edge(v2, v0, x, y) + edge(v0, v1, x, y) == signed_area(v0, v1, v2),
{
    lemma_edges_translated(v0, v1, v2, x, y);
}

/// A point weighted by the area is the three vertices weighted by its edge
/// values: the edge values are barycentric coordinates scaled by the area.
pub proof fn lemma_barycentric(v0: PointI32, v1: PointI32, v2: PointI32, x: int, y: int)
    ensures
        x * signed_area(v0, v1, v2) == edge(v1, v2, x, y) * v0.x + edge(v2, v0, x, y) * v1.x
            + edge(v0, v1, x, y) * v2.x,
        y * signed_area(v0, v1, v2) == edge(v1, v2, x, y) * v0.y + edge(v2, v0, x, y) * v1.y
            + edge(v0, v1, x, y) * v2.y,
{
    let (a, b, c, d, p, q) = (
        v1.x - v0.x,
        v1.y - v0.y,
        v2.x - v0.x,
        v2.y - v0.y,
        x - v0.x,
        y - v0.y,
    );
    lemma_edges_translated(v0, v1, v2, x, y);
    lemma_edges_from_origin(a, b, c, d, p, q);
    let area = signed_area(v0, v1, v2);
    let e0 = edge(v1, v2, x, y);
    let e1 = edge(v2, v0, x, y);
    let e2 = edge(v0, v1, x, y);
    let (x0, y0) = (v0.x as int, v0.y as int);
    assert(e0 == area - e1 - e2);
    assert(e1 * a + e2 * c == p * area);
    assert(e1 * b + e2 * d == q * area);
    assert(x * area == e0 * x0 + e1 * (a + x0) + e2 * (c + x0)) by (nonlinear_arith)
        requires
            e0 == area - e1 - e2,
            e1 * a + e2 * c == p * area,
            x == p + x0,
    ;
    assert(y * area == e0 * y0 + e1 * (b + y0) + e2 * (d + y0)) by (nonlinear_arith)
        requires
            e0 == area - e1 - e2,
            e1 * b + e2 * d == q * area,
            y == q + y0,
    ;
    assert(a + x0 == v1.x && c + x0 == v2.x && b + y0 == v1.y && d + y0 == v2.y);
}

/// The signed area is the edge value of the first edge at the third vertex.
pub proof fn lemma_area_is_edge(v0: PointI32, v1: PointI32, v2: PointI32)
    ensures
        signed_area(v0, v1, v2) == edge(v0, v1, v2.x as int, v2.y as int),
{
    lemma_edges_translated(v0, v1, v2, v2.x as int, v2.y as int);
    let (a, b, c, d) = (v1.x - v0.x, v1.y - v0.y, v2.x - v0.x, v2.y - v0.y);
    assert(c * b == b * c) by (nonlinear_arith);
}

/// The least of three coordinates.
pub open spec fn min3(a: int, b: int, c: int) -> int {
    if a <= b && a <= c {
        a
    } else if b <= c {
        b
    } else {
        c
    }
}

/// The greatest of three coordinates.
pub open spec fn max3(a: int, b: int, c: int) -> int {
    if a >= b && a >= c {
        a
    } else if b >= c {
        b
    } else {
        c
    }
}

proof fn lemma_weighted_bounds(e0: int, e1: int, e2: int, c0: int, c1: int, c2: int, t: int)
    requires
        e0 >= 0,
        e1 >= 0,
        e2 >= 0,
        e0 + e1 + e2 > 0,
        t * (e0 + e1 + e2) == e0 * c0 + e1 * c1 + e2 * c2,
    ensures
        min3(c0, c1, c2) <= t <= max3(c0, c1, c2),
{
    let lo = min3(c0, c1, c2);
    let hi = max3(c0, c1, c2);
    let sum = e0 + e1 + e2;
    assert(e0 * lo <= e0 * c0 <= e0 * hi) by (nonlinear_arith)
        requires
            e0 >= 0,
            lo <= c0 <= hi,
    ;
    assert(e1 * lo <= e1 * c1 <= e1 * hi) by (nonlinear_arith)
        requires
            e1 >= 0,
            lo <= c1 <= hi,
    ;
    assert(e2 * lo <= e2 * c2 <= e2 * hi) by (nonlinear_arith)
        requires
            e2 >= 0,
            lo <= c2 <= hi,
    ;
    assert(e0 * lo + e1 * lo + e2 * lo == lo * sum && e0 * hi + e1 * hi + e2 * hi == hi * sum)
        by (nonlinear_arith)
        requires
            sum == e0 + e1 + e2,
    ;
    assert(lo <= t <= hi) by (nonlinear_arith)
        requires
            lo * sum <= t * sum <= hi * sum,
            sum > 0,
    ;
}

/// A point at which no edge value is negative, of a triangle whose area is
/// not zero, lies within the box of the three vertices.
pub proof fn lemma_inside_is_boxed(v0: PointI32, v1: PointI32, v2: PointI32, x: int, y: int)
    requires
        signed_area(v0, v1, v2) != 0,
        edge(v1, v2, x, y) >= 0,
        edge(v2, v0, x, y) >= 0,
        edge(v0, v1, x, y) >= 0,
    ensures
        signed_area(v0, v1, v2) > 0,
        min3(v0.x as int, v1.x as int, v2.x as int) <= x <= max3(
            v0.x as int,
            v1.x as int,
            v2.x as int,
        ),
        min3(v0.y as int, v1.y as int, v2.y as int) <= y <= max3(
            v0.y as int,
            v1.y as int,
            v2.y as int,
        ),
{
    lemma_edges_sum_to_area(v0, v1, v2, x, y);
    lemma_barycentric(v0, v1, v2, x, y);
    let e0 = edge(v1, v2, x, y);
    let e1 = edge(v2, v0, x, y);
    let e2 = edge(v0, v1, x, y);
    lemma_weighted_bounds(e0, e1, e2, v0.x as int, v1.x as int, v2.x as int, x);
    lemma_weighted_bounds(e0, e1, e2, v0.y as int, v1.y as int, v2.y as int, y);
}

/// At a vertex of the triangle the edge function of the opposite edge is
/// the whole signed area and the other two are zero: a fragment at a vertex
/// has the attributes of that vertex alone.
pub proof fn lemma_edges_at_vertices(v0: PointI32, v1: PointI32, v2: PointI32)
    ensures
        edge(v1, v2, v0.x as int, v0.y as int) == signed_area(v0, v1, v2),
        edge(v2, v0, v0.x as int, v0.y as int) == 0,
        edge(v0, v1, v0.x as int, v0.y as int) == 0,
        edge(v1, v2, v1.x as int, v1.y as int) == 0,
        edge(v2, v0, v1.x as int, v1.y as int) == signed_area(v0, v1, v2),
        edge(v0, v1, v1.x as int, v1.y as int) == 0,
        edge(v1, v2, v2.x as int, v2.y as int) == 0,
        edge(v2, v0, v2.x as int, v2.y as int) == 0,
        edge(v0, v1, v2.x as int, v2.y as int) == signed_area(v0, v1, v2),
{
    lemma_edges_sum_to_area(v0, v1, v2, v0.x as int, v0.y as int);
    lemma_edges_sum_to_area(v0, v1, v2, v1.x as int, v1.y as int);
    lemma_edges_sum_to_area(v0, v1, v2, v2.x as int, v2.y as int);
    let (x0, y0, x1, y1, x2, y2) = (
        v0.x as int,
        v0.y as int,
        v1.x as int,
        v1.y as int,
        v2.x as int,
        v2.y as int,
    );
    assert((x0 - x2) * (y0 - y0) == 0 && (y0 - y2) * (x0 - x0) == 0) by (nonlinear_arith);
    assert((x1 - x0) * (y0 - y0) == 0 && (y1 - y0) * (x0 - x0) == 0) by (nonlinear_arith);
    assert((x2 - x1) * (y1 - y1) == 0 && (y2 - y1) * (x1 - x1) == 0) by (nonlinear_arith);
    assert((x1 - x0) * (y1 - y0) - (y1 - y0) * (x1 - x0) == 0) by (nonlinear_arith);
    assert((x2 - x1) * (y2 - y1) - (y2 - y1) * (x2 - x1) == 0) by (nonlinear_arith);
    assert((x0 - x2) * (y2 - y2) == 0 && (y0 - y2) * (x2 - x2) == 0) by (nonlinear_arith);
}

} // verus!
