//! Triangle coverage.
//!
//! A triangle is given by three screen positions in whole pixels. Pixel
//! `(x, y)` is sampled at its center `(x + 1/2, y + 1/2)`; it is covered
//! where all three barycentric weights of the center are at least zero, so
//! that edges count as inside. To stay in the integers every weight is kept
//! as a numerator over a denominator common to the triangle, its area.

use vstd::prelude::*;

verus! {

/// A position on the screen, in whole pixels.
#[derive(Clone, Copy, Debug, PartialEq, Eq, Structural)]
pub struct ScreenPoint {
    pub x: i32,
    pub y: i32,
}

/// One covered pixel of a triangle with vertices `a`, `b` and `c`, and the
/// weights of the three vertices at its center. The weights are at least
/// zero and add up to `area(a, b, c)`; divided by it they are the
/// barycentric coordinates of the center.
#[derive(Clone, Copy, Debug, PartialEq, Eq, Structural)]
pub struct Sample {
    pub x: i32,
    pub y: i32,
    pub weight_a: i128,
    pub weight_b: i128,
    pub weight_c: i128,
}

/// The side of the directed edge from `from` to `to` on which the center of
/// pixel `(x, y)` lies, as twice the cross product of the edge with the
/// vector from `from` to the center. It is zero exactly on the line of the
/// edge.
pub open spec fn edge_weight(from: ScreenPoint, to: ScreenPoint, x: int, y: int) -> int {
    (to.x - from.x) * (2 * (y - from.y) + 1) - (to.y - from.y) * (2 * (x - from.x) + 1)
}

/// Four times the signed area of the triangle: positive for one winding,
/// negative for the other, zero where the three vertices lie on one line.
pub open spec fn signed_area(a: ScreenPoint, b: ScreenPoint, c: ScreenPoint) -> int {
    2 * ((b.x - a.x) * (c.y - a.y) - (b.y - a.y) * (c.x - a.x))
}

/// Four times the area of the triangle: the absolute value of
/// `signed_area`, and the common denominator of the weights.
pub open spec fn area(a: ScreenPoint, b: ScreenPoint, c: ScreenPoint) -> int {
    if signed_area(a, b, c) < 0 {
        -signed_area(a, b, c)
    } else {
        signed_area(a, b, c)
    }
}

/// The weight of the vertex opposite the edge from `from` to `to` at the
/// center of `(x, y)`: the edge weight, with its sign turned so that the
/// inside of the triangle is the side that is not negative.
pub open spec fn weight(
    a: ScreenPoint,
    b: ScreenPoint,
    c: ScreenPoint,
    from: ScreenPoint,
    to: ScreenPoint,
    x: int,
    y: int,
) -> int {
    if signed_area(a, b, c) < 0 {
        -edge_weight(from, to, x, y)
    } else {
        edge_weight(from, to, x, y)
    }
}

/// Whether the triangle covers pixel `(x, y)`: it has an area, and no
/// weight of the pixel's center is negative.
pub open spec fn covers(a: ScreenPoint, b: ScreenPoint, c: ScreenPoint, x: int, y: int) -> bool {
    &&& signed_area(a, b, c) != 0
    &&& weight(a, b, c, b, c, x, y) >= 0
    &&& weight(a, b, c, c, a, x, y) >= 0
    &&& weight(a, b, c, a, b, x, y) >= 0
}

/// Whether `s` is the sample of the triangle at the pixel it names.
pub open spec fn is_sample_of(s: Sample, a: ScreenPoint, b: ScreenPoint, c: ScreenPoint) -> bool {
    &&& covers(a, b, c, s.x as int, s.y as int)
    &&& s.weight_a == weight(a, b, c, b, c, s.x as int, s.y as int)
    &&& s.weight_b == weight(a, b, c, c, a, s.x as int, s.y as int)
    &&& s.weight_c == weight(a, b, c, a, b, s.x as int, s.y as int)
}

/// Whether `samples` holds a sample at pixel `(x, y)`.
pub open spec fn sampled(samples: Seq<Sample>, x: int, y: int) -> bool {
    exists|k: int| 0 <= k < samples.len() && #[trigger] samples[k].x == x && samples[k].y == y
}

/// Row by row from the top, and from left to right within a row.
pub open spec fn row_major_before(p: Sample, q: Sample) -> bool {
    p.y < q.y || (p.y == q.y && p.x < q.x)
}

/// The product of two differences, the second against a doubled term.
proof fn lemma_mul_diff(p: int, q: int, u: int, s: int, v: int, t: int)
    by (nonlinear_arith)
    requires
        p == u - s,
        q == v - 2 * t,
    ensures
        p * q == u * v - 2 * (u * t) - s * v + 2 * (s * t),
{
}

/// A factor distributes over a difference.
proof fn lemma_mul_sub(p: int, u: int, v: int)
    by (nonlinear_arith)
    ensures
        p * (u - v) == p * u - p * v,
{
}

/// Three factors may be multiplied in any grouping and order.
proof fn lemma_mul_rotate(p: int, q: int, r: int)
    by (nonlinear_arith)
    ensures
        p * (q * r) == r * (p * q),
        p * (q * r) == q * (p * r),
{
}

/// Two cross products with a common point, combined along the first axis
/// and along the second.
proof fn lemma_cross_combine(p: int, q: int, r: int, s: int, x: int, y: int)
    ensures
        p * (s * x - r * y) + r * (p * y - q * x) == x * (p * s - q * r),
        q * (s * x - r * y) + s * (p * y - q * x) == y * (p * s - q * r),
{
    lemma_mul_sub(p, s * x, r * y);
    lemma_mul_sub(r, p * y, q * x);
    lemma_mul_sub(q, s * x, r * y);
    lemma_mul_sub(s, p * y, q * x);
    lemma_mul_sub(x, p * s, q * r);
    lemma_mul_sub(y, p * s, q * r);
    lemma_mul_rotate(p, s, x);
    lemma_mul_rotate(p, r, y);
    lemma_mul_rotate(r, q, x);
    lemma_mul_rotate(q, s, x);
    lemma_mul_rotate(q, r, y);
    lemma_mul_rotate(s, p, y);
    assert(q * r == r * q);
    assert(s * p == p * s);
    assert(r * (q * x) == x * (q * r)) by {
        lemma_mul_rotate(r, q, x);
        assert(r * q == q * r);
    }
    assert(s * (p * y) == y * (p * s)) by {
        lemma_mul_rotate(s, p, y);
        assert(s * p == p * s);
    }
}

/// A combination of `0`, `p` and `r` with weights that are not negative
/// lies between the least and the greatest of the three, times the sum of
/// the weights.
proof fn lemma_weighted_between(lo: int, hi: int, p: int, r: int, wa: int, wb: int, wc: int)
    by (nonlinear_arith)
    requires
        lo <= 0 <= hi,
        lo <= p <= hi,
        lo <= r <= hi,
        wa >= 0,
        wb >= 0,
        wc >= 0,
    ensures
        lo * (wa + wb + wc) <= p * wb + r * wc <= hi * (wa + wb + wc),
{
}

/// Cancels a positive factor on both sides of two inequalities.
proof fn lemma_cancel_positive(x: int, lo: int, hi: int, s: int)
    by (nonlinear_arith)
    requires
        s > 0,
        2 * (lo * s) <= x * s <= 2 * (hi * s),
    ensures
        2 * lo <= x <= 2 * hi,
{
}

/// A product is bounded by the product of the bounds of its factors.
proof fn lemma_mul_bound(p: int, q: int, pb: int, qb: int)
    by (nonlinear_arith)
    requires
        -pb <= p <= pb,
        -qb <= q <= qb,
    ensures
        -(pb * qb) <= p * q <= pb * qb,
{
}

/// The edge weights written from vertex `a`: with `b`, `c` and the doubled
/// pixel center taken relative to it.
proof fn lemma_edge_weights_from_a(a: ScreenPoint, b: ScreenPoint, c: ScreenPoint, x: int, y: int)
    ensures
        ({
            let bx = b.x - a.x;
            let by = b.y - a.y;
            let cx = c.x - a.x;
            let cy = c.y - a.y;
            let px = 2 * (x - a.x) + 1;
            let py = 2 * (y - a.y) + 1;
            &&& edge_weight(a, b, x, y) == bx * py - by * px
            &&& edge_weight(c, a, x, y) == cy * px - cx * py
            &&& edge_weight(b, c, x, y) == cx * py - bx * py - cy * px + by * px + 2 * (bx * cy - by
                * cx)
            &&& signed_area(a, b, c) == 2 * (bx * cy - by * cx)
        }),
{
    let bx = b.x - a.x;
    let by = b.y - a.y;
    let cx = c.x - a.x;
    let cy = c.y - a.y;
    let px = 2 * (x - a.x) + 1;
    let py = 2 * (y - a.y) + 1;
    lemma_mul_diff(a.x - c.x, 2 * (y - c.y) + 1, 0, cx, py, cy);
    lemma_mul_diff(a.y - c.y, 2 * (x - c.x) + 1, 0, cy, px, cx);
    lemma_mul_diff(c.x - b.x, 2 * (y - b.y) + 1, cx, bx, py, by);
    lemma_mul_diff(c.y - b.y, 2 * (x - b.x) + 1, cy, by, px, bx);
    assert(cx * cy == cy * cx);
    assert(bx * by == by * bx);
    assert(cy * bx == bx * cy);
    assert(cx * by == by * cx);
}

/// The three edge weights of any pixel add up to the signed area, and the
/// three weights to the area.
pub proof fn lemma_weights_sum(a: ScreenPoint, b: ScreenPoint, c: ScreenPoint, x: int, y: int)
    ensures
        edge_weight(b, c, x, y) + edge_weight(c, a, x, y) + edge_weight(a, b, x, y) == signed_area(
            a,
            b,
            c,
        ),
        weight(a, b, c, b, c, x, y) + weight(a, b, c, c, a, x, y) + weight(a, b, c, a, b, x, y)
            == area(a, b, c),
{
    lemma_edge_weights_from_a(a, b, c, x, y);
}

/// A triangle whose vertices lie on one line, or fall together, covers no
/// pixel.
pub proof fn lemma_degenerate_covers_nothing(
    a: ScreenPoint,
    b: ScreenPoint,
    c: ScreenPoint,
    x: int,
    y: int,
)
    requires
        signed_area(a, b, c) == 0,
    ensures
        !covers(a, b, c, x, y),
{
}

/// Turning an edge around turns the sign of its weight. Two triangles
/// that share an edge run along it in opposite directions, so no pixel is
/// outside both on account of that edge: they leave no gap between them.
pub proof fn lemma_edge_weight_reversed(from: ScreenPoint, to: ScreenPoint, x: int, y: int)
    ensures
        edge_weight(to, from, x, y) == -edge_weight(from, to, x, y),
        edge_weight(from, to, x, y) >= 0 || edge_weight(to, from, x, y) >= 0,
{
    let ex = to.x - from.x;
    let ey = to.y - from.y;
    let px = 2 * (x - from.x) + 1;
    let py = 2 * (y - from.y) + 1;
    lemma_mul_diff(from.x - to.x, 2 * (y - to.y) + 1, 0, ex, py, ey);
    lemma_mul_diff(from.y - to.y, 2 * (x - to.x) + 1, 0, ey, px, ex);
    assert(ex * ey == ey * ex);
}

/// A triangle covers the same pixels whichever way round its vertices are
/// given, and where it has an area each vertex keeps its weight.
pub proof fn lemma_winding_independent(
    a: ScreenPoint,
    b: ScreenPoint,
    c: ScreenPoint,
    x: int,
    y: int,
)
    ensures
        signed_area(a, c, b) == -signed_area(a, b, c),
        covers(a, c, b, x, y) == covers(a, b, c, x, y),
        signed_area(a, b, c) != 0 ==> {
            &&& weight(a, c, b, c, b, x, y) == weight(a, b, c, b, c, x, y)
            &&& weight(a, c, b, b, a, x, y) == weight(a, b, c, a, b, x, y)
            &&& weight(a, c, b, a, c, x, y) == weight(a, b, c, c, a, x, y)
        },
{
    lemma_edge_weight_reversed(b, c, x, y);
    lemma_edge_weight_reversed(a, b, x, y);
    lemma_edge_weight_reversed(c, a, x, y);
    assert((c.x - a.x) * (b.y - a.y) == (b.y - a.y) * (c.x - a.x));
    assert((c.y - a.y) * (b.x - a.x) == (b.x - a.x) * (c.y - a.y));
}

/// The least of three coordinates.
pub open spec fn least(p: int, q: int, r: int) -> int {
    if p <= q && p <= r {
        p
    } else if q <= r {
        q
    } else {
        r
    }
}

/// The greatest of three coordinates.
pub open spec fn greatest(p: int, q: int, r: int) -> int {
    if p >= q && p >= r {
        p
    } else if q >= r {
        q
    } else {
        r
    }
}

/// A covered pixel has its center inside the bounding box of the vertices.
pub proof fn lemma_covered_in_bounding_box(
    a: ScreenPoint,
    b: ScreenPoint,
    c: ScreenPoint,
    x: int,
    y: int,
)
    requires
        covers(a, b, c, x, y),
    ensures
        least(a.x as int, b.x as int, c.x as int) <= x < greatest(
            a.x as int,
            b.x as int,
            c.x as int,
        ),
        least(a.y as int, b.y as int, c.y as int) <= y < greatest(
            a.y as int,
            b.y as int,
            c.y as int,
        ),
{
    let bx = b.x - a.x;
    let by = b.y - a.y;
    let cx = c.x - a.x;
    let cy = c.y - a.y;
    let px = 2 * (x - a.x) + 1;
    let py = 2 * (y - a.y) + 1;
    let wa = weight(a, b, c, b, c, x, y);
    let wb = weight(a, b, c, c, a, x, y);
    let wc = weight(a, b, c, a, b, x, y);
    let s = area(a, b, c);
    let t = bx * cy - by * cx;
    lemma_edge_weights_from_a(a, b, c, x, y);
    lemma_weights_sum(a, b, c, x, y);
    lemma_cross_combine(bx, by, cx, cy, px, py);
    let raw_b = cy * px - cx * py;
    let raw_c = bx * py - by * px;
    assert(bx * wb + cx * wc == px * (s / 2) && by * wb + cy * wc == py * (s / 2)) by {
        if signed_area(a, b, c) < 0 {
            assert(bx * (-raw_b) == -(bx * raw_b)) by (nonlinear_arith);
            assert(cx * (-raw_c) == -(cx * raw_c)) by (nonlinear_arith);
            assert(by * (-raw_b) == -(by * raw_b)) by (nonlinear_arith);
            assert(cy * (-raw_c) == -(cy * raw_c)) by (nonlinear_arith);
            assert(px * (-t) == -(px * t)) by (nonlinear_arith);
            assert(py * (-t) == -(py * t)) by (nonlinear_arith);
        }
    }
    let h = s / 2;
    assert(s == 2 * h && h > 0);
    assert(wa + wb + wc == 2 * h);
    let lo_x = least(0, bx, cx);
    let hi_x = greatest(0, bx, cx);
    let lo_y = least(0, by, cy);
    let hi_y = greatest(0, by, cy);
    lemma_weighted_between(lo_x, hi_x, bx, cx, wa, wb, wc);
    lemma_weighted_between(lo_y, hi_y, by, cy, wa, wb, wc);
    assert(lo_x * (2 * h) == 2 * (lo_x * h)) by (nonlinear_arith);
    assert(hi_x * (2 * h) == 2 * (hi_x * h)) by (nonlinear_arith);
    assert(lo_y * (2 * h) == 2 * (lo_y * h)) by (nonlinear_arith);
    assert(hi_y * (2 * h) == 2 * (hi_y * h)) by (nonlinear_arith);
    lemma_cancel_positive(px, lo_x, hi_x, h);
    lemma_cancel_positive(py, lo_y, hi_y, h);
}

/// Computes the edge weight of the center of pixel `(x, y)`.
fn edge_weight_at(from: &ScreenPoint, to: &ScreenPoint, x: i32, y: i32) -> (w: i128)
    ensures
        w == edge_weight(*from, *to, x as int, y as int),
        -0x8_0000_0000_0000_0000 <= w <= 0x8_0000_0000_0000_0000,
{
    let ex: i128 = to.x as i128 - from.x as i128;
    let ey: i128 = to.y as i128 - from.y as i128;
    let px: i128 = 2 * (x as i128 - from.x as i128) + 1;
    let py: i128 = 2 * (y as i128 - from.y as i128) + 1;
    proof {
        lemma_mul_bound(ex as int, py as int, 0x1_0000_0000, 0x2_0000_0000);
        lemma_mul_bound(ey as int, px as int, 0x1_0000_0000, 0x2_0000_0000);
    }
    ex * py - ey * px
}

/// Computes four times the signed area of the triangle.
pub fn signed_area_of(a: &ScreenPoint, b: &ScreenPoint, c: &ScreenPoint) -> (s: i128)
    ensures
        s == signed_area(*a, *b, *c),
{
    let bx: i128 = b.x as i128 - a.x as i128;
    let by: i128 = b.y as i128 - a.y as i128;
    let cx: i128 = c.x as i128 - a.x as i128;
    let cy: i128 = c.y as i128 - a.y as i128;
    proof {
        lemma_mul_bound(bx as int, cy as int, 0x1_0000_0000, 0x1_0000_0000);
        lemma_mul_bound(by as int, cx as int, 0x1_0000_0000, 0x1_0000_0000);
    }
    2 * (bx * cy - by * cx)
}

/// The least of three coordinates.
fn least_of(p: i32, q: i32, r: i32) -> (m: i32)
    ensures
        m == least(p as int, q as int, r as int),
{
    if p <= q && p <= r {
        p
    } else if q <= r {
        q
    } else {
        r
    }
}

/// The greatest of three coordinates.
fn greatest_of(p: i32, q: i32, r: i32) -> (m: i32)
    ensures
        m == greatest(p as int, q as int, r as int),
{
    if p >= q && p >= r {
        p
    } else if q >= r {
        q
    } else {
        r
    }
}

/// Resolves the triangle `a`, `b`, `c` into the pixels it covers inside a
/// viewport of `width` by `height` pixels.
///
/// The result holds one sample for every covered pixel of the viewport and
/// nothing else, row by row from the top and from left to right within a
/// row, so that no pixel comes twice. A triangle without area gives no
/// sample at all.
pub fn triangle(
    a: &ScreenPoint,
    b: &ScreenPoint,
    c: &ScreenPoint,
    width: i32,
    height: i32,
) -> (samples: Vec<Sample>)
    ensures
        forall|k: int|
            0 <= k < samples.len() ==> {
                &&& 0 <= (#[trigger] samples[k]).x < width
                &&& 0 <= samples[k].y < height
                &&& is_sample_of(samples[k], *a, *b, *c)
            },
        forall|x: int, y: int|
            0 <= x < width && 0 <= y < height && #[trigger] covers(*a, *b, *c, x, y) ==> sampled(
                samples@,
                x,
                y,
            ),
        forall|j: int, k: int|
            0 <= j < k < samples.len() ==> row_major_before(
                #[trigger] samples[j],
                #[trigger] samples[k],
            ),
        signed_area(*a, *b, *c) == 0 ==> samples.len() == 0,
{
    let mut samples: Vec<Sample> = Vec::new();
    let s = signed_area_of(a, b, c);
    if s == 0 {
        return samples;
    }
    let min_x = least_of(a.x, b.x, c.x);
    let max_x = greatest_of(a.x, b.x, c.x);
    let min_y = least_of(a.y, b.y, c.y);
    let max_y = greatest_of(a.y, b.y, c.y);
    let x_start: i32 = if min_x > 0 {
        min_x
    } else {
        0
    };
    let x_end: i32 = if max_x < width {
        max_x
    } else {
        width
    };
    let y_start: i32 = if min_y > 0 {
        min_y
    } else {
        0
    };
    let y_end: i32 = if max_y < height {
        max_y
    } else {
        height
    };
    proof {
        assert forall|px: int, py: int| #[trigger] covers(*a, *b, *c, px, py) implies min_x <= px
            < max_x && min_y <= py < max_y by {
            lemma_covered_in_bounding_box(*a, *b, *c, px, py);
        }
    }
    let mut y: i32 = y_start;
    while y < y_end
        invariant
            s == signed_area(*a, *b, *c),
            s != 0,
            0 <= x_start,
            x_end <= width,
            x_start == (if min_x > 0 { min_x } else { 0 }),
            x_end == (if max_x < width { max_x } else { width }),
            y_start == (if min_y > 0 { min_y } else { 0 }),
            y_end == (if max_y < height { max_y } else { height }),
            y_start <= y,
            forall|px: int, py: int| #[trigger]
                covers(*a, *b, *c, px, py) ==> min_x <= px < max_x && min_y <= py < max_y,
            forall|k: int|
                0 <= k < samples.len() ==> {
                    &&& 0 <= (#[trigger] samples[k]).x < width
                    &&& 0 <= samples[k].y < height
                    &&& samples[k].y < y
                    &&& is_sample_of(samples[k], *a, *b, *c)
                },
            forall|px: int, py: int|
                0 <= px < width && 0 <= py < height && py < y && #[trigger] covers(
                    *a,
                    *b,
                    *c,
                    px,
                    py,
                ) ==> sampled(samples@, px, py),
            forall|j: int, k: int|
                0 <= j < k < samples.len() ==> row_major_before(
                    #[trigger] samples[j],
                    #[trigger] samples[k],
                ),
        decreases y_end - y,
    {
        let mut x: i32 = x_start;
        while x < x_end
            invariant
                s == signed_area(*a, *b, *c),
                s != 0,
                0 <= x_start <= x,
                x_end <= width,
                x_start == (if min_x > 0 { min_x } else { 0 }),
                0 <= y_start <= y < y_end <= height,
                forall|px: int, py: int| #[trigger]
                    covers(*a, *b, *c, px, py) ==> min_x <= px < max_x && min_y <= py < max_y,
                forall|k: int|
                    0 <= k < samples.len() ==> {
                        &&& 0 <= (#[trigger] samples[k]).x < width
                        &&& 0 <= samples[k].y < height
                        &&& (samples[k].y < y || (samples[k].y == y && samples[k].x < x))
                        &&& is_sample_of(samples[k], *a, *b, *c)
                    },
                forall|px: int, py: int|
                    0 <= px < width && 0 <= py < height && (py < y || (py == y && px < x))
                        && #[trigger] covers(*a, *b, *c, px, py) ==> sampled(samples@, px, py),
                forall|j: int, k: int|
                    0 <= j < k < samples.len() ==> row_major_before(
                        #[trigger] samples[j],
                        #[trigger] samples[k],
                    ),
            decreases x_end - x,
        {
            let ea = edge_weight_at(b, c, x, y);
            let eb = edge_weight_at(c, a, x, y);
            let ec = edge_weight_at(a, b, x, y);
            let (wa, wb, wc) = if s < 0 {
                (-ea, -eb, -ec)
            } else {
                (ea, eb, ec)
            };
            if wa >= 0 && wb >= 0 && wc >= 0 {
                let ghost before = samples@;
                let sample = Sample { x, y, weight_a: wa, weight_b: wb, weight_c: wc };
                samples.push(sample);
                proof {
                    assert(samples@[before.len() as int] == sample);
                    assert forall|px: int, py: int|
                        0 <= px < width && 0 <= py < height && (py < y || (py == y && px < x + 1))
                            && #[trigger] covers(*a, *b, *c, px, py) implies sampled(
                        samples@,
                        px,
                        py,
                    ) by {
                        if py == y && px == x {
                            assert(samples@[before.len() as int].x == px);
                        } else {
                            assert(sampled(before, px, py));
                            let k = choose|k: int|
                                0 <= k < before.len() && #[trigger] before[k].x == px
                                    && before[k].y == py;
                            assert(samples@[k].x == px && samples@[k].y == py);
                        }
                    }
                }
            }
            x += 1;
        }
        y += 1;
    }
    samples
}

} // verus!
