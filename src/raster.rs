use vstd::prelude::*;
use vstd::arithmetic::div_mod::lemma_fundamental_div_mod;

use crate::color::Color;

verus! {

/// Sub-pixel steps per pixel: screen coordinates are fixed-point numbers in
/// units of 1/256 of a pixel.
pub const SUBPIXELS: i64 = 256;

/// Half a pixel, in sub-pixel units: pixels are sampled at their centres.
pub const HALF_PIXEL: i64 = 128;

/// Largest magnitude of a vertex coordinate (x, y and depth).
pub const COORD_LIMIT: i64 = 268435456;

/// A vertex after the transform stage: screen position and depth, in
/// sub-pixel units.
#[derive(Clone, Copy, Debug, PartialEq, Eq, Structural)]
pub struct ScreenVertex {
    pub x: i64,
    pub y: i64,
    pub z: i64,
}

/// One covered pixel of a triangle, with the unnormalised barycentric weights
/// of its centre: the weights proper are `w1 / area`, `w2 / area`, `w3 / area`.
#[derive(Clone, Copy, Debug, PartialEq, Eq, Structural)]
pub struct Sample {
    pub x: i64,
    pub y: i64,
    pub w1: i64,
    pub w2: i64,
    pub w3: i64,
    pub area: i64,
    pub depth: i64,
}

/// A shaded candidate pixel: integer pixel coordinates, colour and depth.
#[derive(Clone, Copy, Debug, PartialEq, Eq, Structural)]
pub struct Fragment {
    pub x: i64,
    pub y: i64,
    pub color: Color,
    pub depth: i64,
}

impl ScreenVertex {
    pub open spec fn wf(&self) -> bool {
        -COORD_LIMIT <= self.x <= COORD_LIMIT && -COORD_LIMIT <= self.y <= COORD_LIMIT
            && -COORD_LIMIT <= self.z <= COORD_LIMIT
    }

    pub fn new(x: i64, y: i64, z: i64) -> (v: ScreenVertex)
        ensures
            v.x == x && v.y == y && v.z == z,
    {
        ScreenVertex { x, y, z }
    }
}

impl Fragment {
    pub fn new(x: i64, y: i64, color: Color, depth: i64) -> (f: Fragment)
        ensures
            f.x == x && f.y == y && f.color == color && f.depth == depth,
    {
        Fragment { x, y, color, depth }
    }
}

/// The 2D edge function: twice the signed area of the triangle `a, b, c`.
pub open spec fn edge(ax: int, ay: int, bx: int, by: int, cx: int, cy: int) -> int {
    (cx - ax) * (by - ay) - (cy - ay) * (bx - ax)
}

pub open spec fn signed_area(a: ScreenVertex, b: ScreenVertex, c: ScreenVertex) -> int {
    edge(a.x as int, a.y as int, b.x as int, b.y as int, c.x as int, c.y as int)
}

/// The centre of pixel `p` along one axis, in sub-pixel units.
pub open spec fn pixel_center(p: int) -> int {
    p * 256 + 128
}

/// Unnormalised weight of `a` at the centre of pixel `(px, py)`.
pub open spec fn weight1(a: ScreenVertex, b: ScreenVertex, c: ScreenVertex, px: int, py: int) -> int {
    edge(b.x as int, b.y as int, c.x as int, c.y as int, pixel_center(px), pixel_center(py))
}

/// Unnormalised weight of `b` at the centre of pixel `(px, py)`.
pub open spec fn weight2(a: ScreenVertex, b: ScreenVertex, c: ScreenVertex, px: int, py: int) -> int {
    edge(c.x as int, c.y as int, a.x as int, a.y as int, pixel_center(px), pixel_center(py))
}

/// Unnormalised weight of `c` at the centre of pixel `(px, py)`.
pub open spec fn weight3(a: ScreenVertex, b: ScreenVertex, c: ScreenVertex, px: int, py: int) -> int {
    edge(a.x as int, a.y as int, b.x as int, b.y as int, pixel_center(px), pixel_center(py))
}

/// The ratio `n / d` is defined and lies in the closed interval `[0, 1]`.
pub open spec fn unit_ratio(n: int, d: int) -> bool {
    if d > 0 {
        0 <= n <= d
    } else {
        d < 0 && d <= n <= 0
    }
}

/// The centre of pixel `(px, py)` lies in the closed triangle: all three
/// barycentric weights are in `[0, 1]`. A triangle of zero area covers nothing.
pub open spec fn covers(a: ScreenVertex, b: ScreenVertex, c: ScreenVertex, px: int, py: int) -> bool {
    let d = signed_area(a, b, c);
    unit_ratio(weight1(a, b, c, px, py), d) && unit_ratio(weight2(a, b, c, px, py), d)
        && unit_ratio(weight3(a, b, c, px, py), d)
}

/// The interpolated depth at the centre of pixel `(px, py)`, rounded down.
pub open spec fn depth_at(a: ScreenVertex, b: ScreenVertex, c: ScreenVertex, px: int, py: int) -> int {
    let d = signed_area(a, b, c);
    let n = a.z * weight1(a, b, c, px, py) + b.z * weight2(a, b, c, px, py) + c.z * weight3(
        a,
        b,
        c,
        px,
        py,
    );
    if d > 0 {
        n / d
    } else {
        (-n) / (-d)
    }
}

pub open spec fn min3(a: int, b: int, c: int) -> int {
    if a <= b && a <= c {
        a
    } else if b <= c {
        b
    } else {
        c
    }
}

pub open spec fn max3(a: int, b: int, c: int) -> int {
    if a >= b && a >= c {
        a
    } else if b >= c {
        b
    } else {
        c
    }
}

/// The pixel that holds sub-pixel coordinate `v` (rounding down).
pub open spec fn floor_pixel(v: int) -> int {
    v / 256
}

/// The least pixel index `p` with `p * 256 >= v` (rounding up).
pub open spec fn ceil_pixel(v: int) -> int {
    -((-v) / 256)
}

/// Pixel `(x1, y1)` comes before `(x2, y2)` in row-major scan order.
pub open spec fn scan_before(x1: int, y1: int, x2: int, y2: int) -> bool {
    y1 < y2 || (y1 == y2 && x1 < x2)
}

/// `pix` lists, in row-major scan order and each once, exactly the pixels
/// that the triangle covers.
pub open spec fn exact_cover(
    a: ScreenVertex,
    b: ScreenVertex,
    c: ScreenVertex,
    pix: Seq<(int, int)>,
) -> bool {
    &&& forall|i: int| 0 <= i < pix.len() ==> #[trigger] covers(a, b, c, pix[i].0, pix[i].1)
    &&& forall|i: int, j: int|
        0 <= i < j < pix.len() ==> scan_before(pix[i].0, pix[i].1, pix[j].0, pix[j].1)
    &&& forall|x: int, y: int| #[trigger]
        covers(a, b, c, x, y) ==> exists|i: int| 0 <= i < pix.len() && pix[i] == (x, y)
}

pub open spec fn sample_pixels(s: Seq<Sample>) -> Seq<(int, int)> {
    s.map_values(|t: Sample| (t.x as int, t.y as int))
}

pub open spec fn fragment_pixels(s: Seq<Fragment>) -> Seq<(int, int)> {
    s.map_values(|t: Fragment| (t.x as int, t.y as int))
}

proof fn lemma_mul_bound(p: int, q: int, k: int, l: int)
    requires
        -k <= p <= k,
        -l <= q <= l,
    ensures
        -(k * l) <= p * q <= k * l,
{
    assert(-(k * l) <= p * q <= k * l) by (nonlinear_arith)
        requires
            -k <= p <= k,
            -l <= q <= l,
    ;
}

/// The three weights of any point add up to the triangle's signed area, and
/// weigh the vertices to the point scaled by that area.
proof fn lemma_weight_identities(a: ScreenVertex, b: ScreenVertex, c: ScreenVertex, px: int, py: int)
    ensures
        weight1(a, b, c, px, py) + weight2(a, b, c, px, py) + weight3(a, b, c, px, py)
            == signed_area(a, b, c),
        weight1(a, b, c, px, py) * a.x + weight2(a, b, c, px, py) * b.x + weight3(a, b, c, px, py)
            * c.x == signed_area(a, b, c) * pixel_center(px),
        weight1(a, b, c, px, py) * a.y + weight2(a, b, c, px, py) * b.y + weight3(a, b, c, px, py)
            * c.y == signed_area(a, b, c) * pixel_center(py),
{
    let (ax, ay) = (a.x as int, a.y as int);
    let (bx, by) = (b.x - ax, b.y - ay);
    let (cx, cy) = (c.x - ax, c.y - ay);
    let (qx, qy) = (pixel_center(px) - ax, pixel_center(py) - ay);
    let w1 = weight1(a, b, c, px, py);
    let w2 = weight2(a, b, c, px, py);
    let w3 = weight3(a, b, c, px, py);
    let d = signed_area(a, b, c);
    lemma_edge_translated(b.x as int, b.y as int, c.x as int, c.y as int, pixel_center(px), pixel_center(py), ax, ay);
    lemma_edge_translated(c.x as int, c.y as int, ax, ay, pixel_center(px), pixel_center(py), ax, ay);
    lemma_edge_translated(ax, ay, b.x as int, b.y as int, pixel_center(px), pixel_center(py), ax, ay);
    lemma_edge_translated(ax, ay, b.x as int, b.y as int, c.x as int, c.y as int, ax, ay);
    lemma_origin_edges(bx, by, cx, cy, qx, qy);
    lemma_spread(w1, w2, w3, d, ax, bx, cx, qx);
    lemma_spread(w1, w2, w3, d, ay, by, cy, qy);
}

/// The edge function does not change when all three points move by `(tx, ty)`.
proof fn lemma_edge_translated(ax: int, ay: int, bx: int, by: int, cx: int, cy: int, tx: int, ty: int)
    ensures
        edge(ax, ay, bx, by, cx, cy) == edge(ax - tx, ay - ty, bx - tx, by - ty, cx - tx, cy - ty),
{
}

/// The weight identities for a triangle with its first vertex at the origin.
proof fn lemma_origin_edges(bx: int, by: int, cx: int, cy: int, qx: int, qy: int)
    ensures
        edge(bx, by, cx, cy, qx, qy) + edge(cx, cy, 0, 0, qx, qy) + edge(0, 0, bx, by, qx, qy)
            == edge(0, 0, bx, by, cx, cy),
        edge(cx, cy, 0, 0, qx, qy) * bx + edge(0, 0, bx, by, qx, qy) * cx == edge(0, 0, bx, by, cx, cy)
            * qx,
        edge(cx, cy, 0, 0, qx, qy) * by + edge(0, 0, bx, by, qx, qy) * cy == edge(0, 0, bx, by, cx, cy)
            * qy,
{
    assert(edge(cx, cy, 0, 0, qx, qy) == qy * cx - qx * cy) by (nonlinear_arith);
    assert(edge(0, 0, bx, by, qx, qy) == qx * by - qy * bx) by (nonlinear_arith);
    assert(edge(0, 0, bx, by, cx, cy) == cx * by - cy * bx) by (nonlinear_arith);
    assert(edge(bx, by, cx, cy, qx, qy) == (qx - bx) * (cy - by) - (qy - by) * (cx - bx));
    assert((qx - bx) * (cy - by) - (qy - by) * (cx - bx) + (qy * cx - qx * cy) + (qx * by - qy * bx)
        == cx * by - cy * bx) by (nonlinear_arith);
    assert((qy * cx - qx * cy) * bx + (qx * by - qy * bx) * cx == (cx * by - cy * bx) * qx)
        by (nonlinear_arith);
    assert((qy * cx - qx * cy) * by + (qx * by - qy * bx) * cy == (cx * by - cy * bx) * qy)
        by (nonlinear_arith);
}

/// Moves the identity `w2 * b + w3 * c == d * q`, stated relative to `a`,
/// back to absolute coordinates.
proof fn lemma_spread(w1: int, w2: int, w3: int, d: int, a: int, b: int, c: int, q: int)
    requires
        w1 + w2 + w3 == d,
        w2 * b + w3 * c == d * q,
    ensures
        w1 * a + w2 * (b + a) + w3 * (c + a) == d * (q + a),
{
    assert(w1 * a + w2 * (b + a) + w3 * (c + a) == (w1 + w2 + w3) * a + (w2 * b + w3 * c))
        by (nonlinear_arith);
    assert(d * (q + a) == d * q + d * a) by (nonlinear_arith);
}

/// A weighted sum with non-negative weights of total `d` lies between `d`
/// times the least and `d` times the greatest of the values.
proof fn lemma_weighted_sum_between(e1: int, e2: int, e3: int, v1: int, v2: int, v3: int)
    requires
        e1 >= 0,
        e2 >= 0,
        e3 >= 0,
    ensures
        min3(v1, v2, v3) * (e1 + e2 + e3) <= e1 * v1 + e2 * v2 + e3 * v3,
        e1 * v1 + e2 * v2 + e3 * v3 <= max3(v1, v2, v3) * (e1 + e2 + e3),
{
    let lo = min3(v1, v2, v3);
    let hi = max3(v1, v2, v3);
    assert(lo * (e1 + e2 + e3) <= e1 * v1 + e2 * v2 + e3 * v3) by (nonlinear_arith)
        requires
            e1 >= 0,
            e2 >= 0,
            e3 >= 0,
            lo <= v1,
            lo <= v2,
            lo <= v3,
    ;
    assert(e1 * v1 + e2 * v2 + e3 * v3 <= hi * (e1 + e2 + e3)) by (nonlinear_arith)
        requires
            e1 >= 0,
            e2 >= 0,
            e3 >= 0,
            hi >= v1,
            hi >= v2,
            hi >= v3,
    ;
}

/// Weights flipped to the sign that makes the area positive.
pub open spec fn oriented(w: int, d: int) -> int {
    if d > 0 {
        w
    } else {
        -w
    }
}

/// The flipped weights of a pixel are non-negative where it is covered, sum
/// to the flipped area, and weigh the vertices to the pixel centre.
proof fn lemma_oriented_weights(a: ScreenVertex, b: ScreenVertex, c: ScreenVertex, px: int, py: int)
    ensures
        ({
            let d = signed_area(a, b, c);
            let (e1, e2, e3) = (
                oriented(weight1(a, b, c, px, py), d),
                oriented(weight2(a, b, c, px, py), d),
                oriented(weight3(a, b, c, px, py), d),
            );
            &&& covers(a, b, c, px, py) ==> oriented(d, d) > 0 && e1 >= 0 && e2 >= 0 && e3 >= 0
            &&& e1 + e2 + e3 == oriented(d, d)
            &&& e1 * a.x + e2 * b.x + e3 * c.x == oriented(d, d) * pixel_center(px)
            &&& e1 * a.y + e2 * b.y + e3 * c.y == oriented(d, d) * pixel_center(py)
        }),
{
    lemma_weight_identities(a, b, c, px, py);
    let d = signed_area(a, b, c);
    if d <= 0 {
        let (w1, w2, w3) = (weight1(a, b, c, px, py), weight2(a, b, c, px, py), weight3(a, b, c, px, py));
        lemma_negated_sum(w1, w2, w3, a.x as int, b.x as int, c.x as int);
        lemma_negated_sum(w1, w2, w3, a.y as int, b.y as int, c.y as int);
        assert((-d) * pixel_center(px) == -(d * pixel_center(px))) by (nonlinear_arith);
        assert((-d) * pixel_center(py) == -(d * pixel_center(py))) by (nonlinear_arith);
    }
}

proof fn lemma_negated_sum(w1: int, w2: int, w3: int, v1: int, v2: int, v3: int)
    ensures
        (-w1) * v1 + (-w2) * v2 + (-w3) * v3 == -(w1 * v1 + w2 * v2 + w3 * v3),
{
    assert((-w1) * v1 + (-w2) * v2 + (-w3) * v3 == -(w1 * v1 + w2 * v2 + w3 * v3))
        by (nonlinear_arith);
}

/// A covered pixel lies in the triangle's bounding box.
proof fn lemma_covered_in_box(a: ScreenVertex, b: ScreenVertex, c: ScreenVertex, px: int, py: int)
    requires
        covers(a, b, c, px, py),
    ensures
        floor_pixel(min3(a.x as int, b.x as int, c.x as int)) <= px <= ceil_pixel(
            max3(a.x as int, b.x as int, c.x as int),
        ),
        floor_pixel(min3(a.y as int, b.y as int, c.y as int)) <= py <= ceil_pixel(
            max3(a.y as int, b.y as int, c.y as int),
        ),
{
    let d = signed_area(a, b, c);
    lemma_oriented_weights(a, b, c, px, py);
    let (e1, e2, e3) = (
        oriented(weight1(a, b, c, px, py), d),
        oriented(weight2(a, b, c, px, py), d),
        oriented(weight3(a, b, c, px, py), d),
    );
    lemma_point_between(e1, e2, e3, oriented(d, d), a.x as int, b.x as int, c.x as int, pixel_center(px));
    lemma_point_between(e1, e2, e3, oriented(d, d), a.y as int, b.y as int, c.y as int, pixel_center(py));
    lemma_center_in_pixel_box(px, min3(a.x as int, b.x as int, c.x as int), max3(a.x as int, b.x as int, c.x as int));
    lemma_center_in_pixel_box(py, min3(a.y as int, b.y as int, c.y as int), max3(a.y as int, b.y as int, c.y as int));
}

proof fn lemma_point_between(e1: int, e2: int, e3: int, sd: int, v1: int, v2: int, v3: int, q: int)
    requires
        sd > 0,
        e1 >= 0,
        e2 >= 0,
        e3 >= 0,
        e1 + e2 + e3 == sd,
        e1 * v1 + e2 * v2 + e3 * v3 == sd * q,
    ensures
        min3(v1, v2, v3) <= q <= max3(v1, v2, v3),
{
    lemma_weighted_sum_between(e1, e2, e3, v1, v2, v3);
    let lo = min3(v1, v2, v3);
    let hi = max3(v1, v2, v3);
    assert(lo <= q) by (nonlinear_arith)
        requires
            lo * sd <= sd * q,
            sd > 0,
    ;
    assert(q <= hi) by (nonlinear_arith)
        requires
            sd * q <= hi * sd,
            sd > 0,
    ;
}

proof fn lemma_center_in_pixel_box(p: int, lo: int, hi: int)
    requires
        lo <= pixel_center(p) <= hi,
    ensures
        floor_pixel(lo) <= p <= ceil_pixel(hi),
{
    lemma_fundamental_div_mod(lo, 256);
    lemma_fundamental_div_mod(-hi, 256);
}

/// Limit on the magnitude of the points that the edge function is applied to.
pub const EDGE_LIMIT: i64 = 536870912;

/// Largest magnitude of a pixel index of a bounding box.
pub const PIXEL_LIMIT: i64 = 1048576;

/// `s` carries the weights, area and depth of its pixel in triangle `a, b, c`.
pub open spec fn sample_of(a: ScreenVertex, b: ScreenVertex, c: ScreenVertex, s: Sample) -> bool {
    &&& s.w1 == weight1(a, b, c, s.x as int, s.y as int)
    &&& s.w2 == weight2(a, b, c, s.x as int, s.y as int)
    &&& s.w3 == weight3(a, b, c, s.x as int, s.y as int)
    &&& s.area == signed_area(a, b, c)
    &&& s.depth == depth_at(a, b, c, s.x as int, s.y as int)
}

/// The interpolated depth of a covered pixel lies between the least and the
/// greatest vertex depth.
proof fn lemma_depth_between(a: ScreenVertex, b: ScreenVertex, c: ScreenVertex, px: int, py: int)
    requires
        covers(a, b, c, px, py),
    ensures
        min3(a.z as int, b.z as int, c.z as int) <= depth_at(a, b, c, px, py) <= max3(
            a.z as int,
            b.z as int,
            c.z as int,
        ),
{
    let d = signed_area(a, b, c);
    let (w1, w2, w3) = (weight1(a, b, c, px, py), weight2(a, b, c, px, py), weight3(a, b, c, px, py));
    lemma_oriented_weights(a, b, c, px, py);
    let (e1, e2, e3) = (oriented(w1, d), oriented(w2, d), oriented(w3, d));
    let sd = oriented(d, d);
    let n = a.z * w1 + b.z * w2 + c.z * w3;
    let m = e1 * a.z + e2 * b.z + e3 * c.z;
    let (z1, z2, z3) = (a.z as int, b.z as int, c.z as int);
    if d <= 0 {
        assert(m == -n) by (nonlinear_arith)
            requires
                m == e1 * z1 + e2 * z2 + e3 * z3,
                n == z1 * w1 + z2 * w2 + z3 * w3,
                e1 == -w1,
                e2 == -w2,
                e3 == -w3,
        ;
    } else {
        assert(m == n) by (nonlinear_arith)
            requires
                m == e1 * z1 + e2 * z2 + e3 * z3,
                n == z1 * w1 + z2 * w2 + z3 * w3,
                e1 == w1,
                e2 == w2,
                e3 == w3,
        ;
    }
    assert(depth_at(a, b, c, px, py) == m / sd);
    lemma_weighted_sum_between(e1, e2, e3, a.z as int, b.z as int, c.z as int);
    let lo = min3(a.z as int, b.z as int, c.z as int);
    let hi = max3(a.z as int, b.z as int, c.z as int);
    lemma_fundamental_div_mod(m, sd);
    let q = m / sd;
    let r = m % sd;
    assert(lo <= q) by (nonlinear_arith)
        requires
            lo * sd <= m,
            m == sd * q + r,
            0 <= r < sd,
    ;
    assert(q <= hi) by (nonlinear_arith)
        requires
            m <= hi * sd,
            m == sd * q + r,
            0 <= r,
            sd > 0,
    ;
}

fn edge_function(ax: i64, ay: i64, bx: i64, by: i64, cx: i64, cy: i64) -> (r: i64)
    requires
        -EDGE_LIMIT <= ax <= EDGE_LIMIT,
        -EDGE_LIMIT <= ay <= EDGE_LIMIT,
        -EDGE_LIMIT <= bx <= EDGE_LIMIT,
        -EDGE_LIMIT <= by <= EDGE_LIMIT,
        -EDGE_LIMIT <= cx <= EDGE_LIMIT,
        -EDGE_LIMIT <= cy <= EDGE_LIMIT,
    ensures
        r == edge(ax as int, ay as int, bx as int, by as int, cx as int, cy as int),
{
    proof {
        lemma_mul_bound(cx - ax, by - ay, 1073741824, 1073741824);
        lemma_mul_bound(cy - ay, bx - ax, 1073741824, 1073741824);
        assert(1073741824int * 1073741824int == 1152921504606846976int);
    }
    (cx - ax) * (by - ay) - (cy - ay) * (bx - ax)
}

fn floor_to_pixel(v: i64) -> (p: i64)
    requires
        -COORD_LIMIT <= v <= COORD_LIMIT,
    ensures
        p == floor_pixel(v as int),
        -PIXEL_LIMIT <= p <= PIXEL_LIMIT,
{
    proof {
        lemma_fundamental_div_mod(v as int, 256);
    }
    match v.checked_div_euclid(SUBPIXELS) {
        Some(q) => q,
        None => 0,
    }
}

fn ceil_to_pixel(v: i64) -> (p: i64)
    requires
        -COORD_LIMIT <= v <= COORD_LIMIT,
    ensures
        p == ceil_pixel(v as int),
        -PIXEL_LIMIT <= p <= PIXEL_LIMIT,
{
    -floor_to_pixel(-v)
}

fn min_of3(a: i64, b: i64, c: i64) -> (r: i64)
    ensures
        r == min3(a as int, b as int, c as int),
{
    if a <= b && a <= c {
        a
    } else if b <= c {
        b
    } else {
        c
    }
}

fn max_of3(a: i64, b: i64, c: i64) -> (r: i64)
    ensures
        r == max3(a as int, b as int, c as int),
{
    if a >= b && a >= c {
        a
    } else if b >= c {
        b
    } else {
        c
    }
}

/// The closed inside test: all three weights divided by the area lie in `[0, 1]`.
fn is_inside(w1: i64, w2: i64, w3: i64, area: i64) -> (r: bool)
    ensures
        r == (unit_ratio(w1 as int, area as int) && unit_ratio(w2 as int, area as int) && unit_ratio(
            w3 as int,
            area as int,
        )),
{
    if area > 0 {
        0 <= w1 && w1 <= area && 0 <= w2 && w2 <= area && 0 <= w3 && w3 <= area
    } else if area < 0 {
        area <= w1 && w1 <= 0 && area <= w2 && w2 <= 0 && area <= w3 && w3 <= 0
    } else {
        false
    }
}

fn interpolate_depth(
    a: &ScreenVertex,
    b: &ScreenVertex,
    c: &ScreenVertex,
    px: i64,
    py: i64,
    w1: i64,
    w2: i64,
    w3: i64,
    area: i64,
) -> (r: i64)
    requires
        a.wf() && b.wf() && c.wf(),
        covers(*a, *b, *c, px as int, py as int),
        w1 == weight1(*a, *b, *c, px as int, py as int),
        w2 == weight2(*a, *b, *c, px as int, py as int),
        w3 == weight3(*a, *b, *c, px as int, py as int),
        area == signed_area(*a, *b, *c),
    ensures
        r == depth_at(*a, *b, *c, px as int, py as int),
{
    proof {
        let big: int = 9223372036854775808;
        lemma_mul_bound(a.z as int, w1 as int, COORD_LIMIT as int, big);
        lemma_mul_bound(b.z as int, w2 as int, COORD_LIMIT as int, big);
        lemma_mul_bound(c.z as int, w3 as int, COORD_LIMIT as int, big);
        assert(268435456int * 9223372036854775808int == 2475880078570760549798248448int);
        lemma_depth_between(*a, *b, *c, px as int, py as int);
    }
    let n: i128 = (a.z as i128) * (w1 as i128) + (b.z as i128) * (w2 as i128) + (c.z as i128) * (
    w3 as i128);
    let (num, den): (i128, i128) = if area > 0 {
        (n, area as i128)
    } else {
        (-n, -(area as i128))
    };
    proof {
        lemma_fundamental_div_mod(num as int, den as int);
    }
    match num.checked_div_euclid(den) {
        Some(q) => q as i64,
        None => 0,
    }
}

/// Scans the bounding box of the triangle `v1, v2, v3` row by row and lists
/// each pixel whose centre lies in the closed triangle, with the barycentric
/// weights and the interpolated depth there. A triangle of zero area yields
/// nothing; one of either winding is rasterized.
pub fn rasterize(v1: &ScreenVertex, v2: &ScreenVertex, v3: &ScreenVertex) -> (r: Vec<Sample>)
    requires
        v1.wf() && v2.wf() && v3.wf(),
    ensures
        exact_cover(*v1, *v2, *v3, sample_pixels(r@)),
        forall|i: int| 0 <= i < r@.len() ==> #[trigger] sample_of(*v1, *v2, *v3, r@[i]),
        signed_area(*v1, *v2, *v3) == 0 ==> r@.len() == 0,
{
    let (a, b, c) = (*v1, *v2, *v3);
    let min_x = floor_to_pixel(min_of3(a.x, b.x, c.x));
    let min_y = floor_to_pixel(min_of3(a.y, b.y, c.y));
    let max_x = ceil_to_pixel(max_of3(a.x, b.x, c.x));
    let max_y = ceil_to_pixel(max_of3(a.y, b.y, c.y));
    let area = edge_function(a.x, a.y, b.x, b.y, c.x, c.y);
    let mut out: Vec<Sample> = Vec::new();
    let mut y: i64 = min_y;
    proof {
        assert forall|xx: int, yy: int|
            #[trigger] covers(a, b, c, xx, yy) && yy < y implies exists|i: int|
            0 <= i < out@.len() && out@[i].x == xx && out@[i].y == yy by {
            lemma_covered_in_box(a, b, c, xx, yy);
        }
    }
    while y <= max_y
        invariant
            a == *v1 && b == *v2 && c == *v3,
            a.wf() && b.wf() && c.wf(),
            area == signed_area(a, b, c),
            min_x == floor_pixel(min3(a.x as int, b.x as int, c.x as int)),
            max_x == ceil_pixel(max3(a.x as int, b.x as int, c.x as int)),
            min_y == floor_pixel(min3(a.y as int, b.y as int, c.y as int)),
            max_y == ceil_pixel(max3(a.y as int, b.y as int, c.y as int)),
            -PIXEL_LIMIT <= min_x && max_x <= PIXEL_LIMIT,
            -PIXEL_LIMIT <= min_y && max_y <= PIXEL_LIMIT,
            min_y <= y <= max_y + 1 || (y == min_y && min_y > max_y),
            forall|i: int|
                0 <= i < out@.len() ==> sample_of(a, b, c, #[trigger] out@[i]) && covers(
                    a,
                    b,
                    c,
                    out@[i].x as int,
                    out@[i].y as int,
                ) && out@[i].y < y,
            forall|i: int, j: int|
                0 <= i < j < out@.len() ==> scan_before(
                    out@[i].x as int,
                    out@[i].y as int,
                    out@[j].x as int,
                    out@[j].y as int,
                ),
            forall|xx: int, yy: int|
                #[trigger] covers(a, b, c, xx, yy) && yy < y ==> exists|i: int|
                    0 <= i < out@.len() && out@[i].x == xx && out@[i].y == yy,
        decreases max_y + 1 - y,
    {
        let mut x: i64 = min_x;
        while x <= max_x
            invariant
                a == *v1 && b == *v2 && c == *v3,
                a.wf() && b.wf() && c.wf(),
                area == signed_area(a, b, c),
                -PIXEL_LIMIT <= min_x && max_x <= PIXEL_LIMIT,
                -PIXEL_LIMIT <= min_y && max_y <= PIXEL_LIMIT,
                min_y <= y <= max_y,
                min_x <= x <= max_x + 1 || (x == min_x && min_x > max_x),
                forall|i: int|
                    0 <= i < out@.len() ==> sample_of(a, b, c, #[trigger] out@[i]) && covers(
                        a,
                        b,
                        c,
                        out@[i].x as int,
                        out@[i].y as int,
                    ) && scan_before(out@[i].x as int, out@[i].y as int, x as int, y as int),
                forall|i: int, j: int|
                    0 <= i < j < out@.len() ==> scan_before(
                        out@[i].x as int,
                        out@[i].y as int,
                        out@[j].x as int,
                        out@[j].y as int,
                    ),
                forall|xx: int, yy: int|
                    #[trigger] covers(a, b, c, xx, yy) && scan_before(xx, yy, x as int, y as int)
                        && min_x <= xx ==> exists|i: int|
                        0 <= i < out@.len() && out@[i].x == xx && out@[i].y == yy,
            decreases max_x + 1 - x,
        {
            let px = x * SUBPIXELS + HALF_PIXEL;
            let py = y * SUBPIXELS + HALF_PIXEL;
            let w1 = edge_function(b.x, b.y, c.x, c.y, px, py);
            let w2 = edge_function(c.x, c.y, a.x, a.y, px, py);
            let w3 = edge_function(a.x, a.y, b.x, b.y, px, py);
            if is_inside(w1, w2, w3, area) {
                let depth = interpolate_depth(&a, &b, &c, x, y, w1, w2, w3, area);
                let s = Sample { x, y, w1, w2, w3, area, depth };
                let ghost old_out = out@;
                out.push(s);
                proof {
                    assert forall|xx: int, yy: int|
                        #[trigger] covers(a, b, c, xx, yy) && scan_before(xx, yy, x + 1, y as int)
                            && min_x <= xx implies exists|i: int|
                        0 <= i < out@.len() && out@[i].x == xx && out@[i].y == yy by {
                        if xx == x && yy == y {
                            assert(out@[old_out.len() as int] == s);
                        } else {
                            assert(scan_before(xx, yy, x as int, y as int));
                            let i = choose|i: int|
                                0 <= i < old_out.len() && old_out[i].x == xx && old_out[i].y == yy;
                            assert(out@[i] == old_out[i]);
                        }
                    }
                }
            } else {
                proof {
                    assert forall|xx: int, yy: int|
                        #[trigger] covers(a, b, c, xx, yy) && scan_before(xx, yy, x + 1, y as int)
                            && min_x <= xx implies exists|i: int|
                        0 <= i < out@.len() && out@[i].x == xx && out@[i].y == yy by {
                        if xx == x && yy == y {
                        } else {
                            assert(scan_before(xx, yy, x as int, y as int));
                        }
                    }
                }
            }
            x = x + 1;
        }
        proof {
            assert forall|xx: int, yy: int|
                #[trigger] covers(a, b, c, xx, yy) && yy < y + 1 implies exists|i: int|
                0 <= i < out@.len() && out@[i].x == xx && out@[i].y == yy by {
                lemma_covered_in_box(a, b, c, xx, yy);
                assert(scan_before(xx, yy, x as int, y as int));
            }
        }
        y = y + 1;
    }
    proof {
        assert forall|xx: int, yy: int| #[trigger]
            covers(a, b, c, xx, yy) implies exists|i: int|
            0 <= i < sample_pixels(out@).len() && sample_pixels(out@)[i] == (xx, yy) by {
            lemma_covered_in_box(a, b, c, xx, yy);
            let i = choose|i: int| 0 <= i < out@.len() && out@[i].x == xx && out@[i].y == yy;
            assert(sample_pixels(out@)[i] == (xx, yy));
        }
        if area == 0 && out@.len() > 0 {
            assert(covers(a, b, c, out@[0].x as int, out@[0].y as int));
        }
    }
    out
}

/// What the rasterizer hands the shader for pixel `(px, py)` of triangle
/// `a, b, c`: its coordinates, weights, area and depth.
pub open spec fn sample_at(a: ScreenVertex, b: ScreenVertex, c: ScreenVertex, px: int, py: int) -> Sample {
    Sample {
        x: px as i64,
        y: py as i64,
        w1: weight1(a, b, c, px, py) as i64,
        w2: weight2(a, b, c, px, py) as i64,
        w3: weight3(a, b, c, px, py) as i64,
        area: signed_area(a, b, c) as i64,
        depth: depth_at(a, b, c, px, py) as i64,
    }
}

/// Rasterizes the triangle `v1, v2, v3` and shades each covered pixel:
/// one fragment per covered pixel, in scan order, in the colour that
/// `fragment_shader` gives for that pixel's sample, at the interpolated depth.
pub fn triangle_with_shader<F: Fn(Sample) -> Color>(
    v1: &ScreenVertex,
    v2: &ScreenVertex,
    v3: &ScreenVertex,
    fragment_shader: F,
) -> (r: Vec<Fragment>)
    requires
        v1.wf() && v2.wf() && v3.wf(),
        forall|s: Sample| fragment_shader.requires((s,)),
    ensures
        exact_cover(*v1, *v2, *v3, fragment_pixels(r@)),
        forall|i: int|
            0 <= i < r@.len() ==> fragment_shader.ensures(
                (sample_at(*v1, *v2, *v3, r@[i].x as int, r@[i].y as int),),
                (#[trigger] r@[i]).color,
            ) && r@[i].depth == depth_at(*v1, *v2, *v3, r@[i].x as int, r@[i].y as int),
        signed_area(*v1, *v2, *v3) == 0 ==> r@.len() == 0,
{
    let samples = rasterize(v1, v2, v3);
    let mut out: Vec<Fragment> = Vec::new();
    let mut i: usize = 0;
    while i < samples.len()
        invariant
            i <= samples@.len(),
            out@.len() == i,
            forall|s: Sample| fragment_shader.requires((s,)),
            forall|j: int|
                0 <= j < i ==> (#[trigger] out@[j]).x == samples@[j].x && out@[j].y == samples@[j].y
                    && fragment_shader.ensures((samples@[j],), out@[j].color) && out@[j].depth
                    == samples@[j].depth,
        decreases samples@.len() - i,
    {
        let s = samples[i];
        let color = fragment_shader(s);
        out.push(Fragment::new(s.x, s.y, color, s.depth));
        i = i + 1;
    }
    proof {
        assert(fragment_pixels(out@) =~= sample_pixels(samples@));
        assert forall|j: int| 0 <= j < out@.len() implies fragment_shader.ensures(
            (sample_at(*v1, *v2, *v3, out@[j].x as int, out@[j].y as int),),
            (#[trigger] out@[j]).color,
        ) && out@[j].depth == depth_at(*v1, *v2, *v3, out@[j].x as int, out@[j].y as int) by {
            assert(sample_of(*v1, *v2, *v3, samples@[j]));
            assert(samples@[j] == sample_at(*v1, *v2, *v3, out@[j].x as int, out@[j].y as int));
        }
    }
    out
}

/// Rasterizes the triangle `v1, v2, v3` in the flat grey `(100, 100, 100)`:
/// one fragment per covered pixel, in scan order, at the interpolated depth.
pub fn triangle(v1: &ScreenVertex, v2: &ScreenVertex, v3: &ScreenVertex) -> (r: Vec<Fragment>)
    requires
        v1.wf() && v2.wf() && v3.wf(),
    ensures
        exact_cover(*v1, *v2, *v3, fragment_pixels(r@)),
        forall|i: int|
            0 <= i < r@.len() ==> (#[trigger] r@[i]).color == (Color { r: 100, g: 100, b: 100 })
                && r@[i].depth == depth_at(*v1, *v2, *v3, r@[i].x as int, r@[i].y as int),
        signed_area(*v1, *v2, *v3) == 0 ==> r@.len() == 0,
{
    let flat = |_s: Sample| -> (c: Color)
        ensures
            c == (Color { r: 100, g: 100, b: 100 }),
        { Color::new(100, 100, 100) };
    triangle_with_shader(v1, v2, v3, flat)
}

/// At every sample point the three barycentric weights sum to one: their
/// numerators add up to the signed area. Where the area is not zero, a pixel
/// is covered exactly when all three weights lie in `[0, 1]`, so a pixel that
/// is not covered has a weight outside that interval.
pub proof fn lemma_weights_partition_unity(
    a: ScreenVertex,
    b: ScreenVertex,
    c: ScreenVertex,
    px: int,
    py: int,
)
    ensures
        weight1(a, b, c, px, py) + weight2(a, b, c, px, py) + weight3(a, b, c, px, py)
            == signed_area(a, b, c),
        signed_area(a, b, c) != 0 ==> (covers(a, b, c, px, py) <==> (unit_ratio(
            weight1(a, b, c, px, py),
            signed_area(a, b, c),
        ) && unit_ratio(weight2(a, b, c, px, py), signed_area(a, b, c)) && unit_ratio(
            weight3(a, b, c, px, py),
            signed_area(a, b, c),
        ))),
{
    lemma_weight_identities(a, b, c, px, py);
}

/// A triangle whose vertices are collinear (zero signed area) covers no pixel.
pub proof fn lemma_degenerate_covers_nothing(a: ScreenVertex, b: ScreenVertex, c: ScreenVertex)
    requires
        signed_area(a, b, c) == 0,
    ensures
        forall|px: int, py: int| !#[trigger] covers(a, b, c, px, py),
{
}

} // verus!
