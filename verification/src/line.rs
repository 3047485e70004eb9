//! The pixels of a line segment.
//!
//! A segment from `(x0, y0)` to `(x1, y1)` is drawn with one pixel for every
//! step along its longer axis. On the shorter axis each pixel takes the
//! integer nearest to the ideal line, and an exact half goes to the side of
//! the start point.

use vstd::prelude::*;
use vstd::arithmetic::div_mod::{
    lemma_div_pos_is_pos, lemma_fundamental_div_mod, lemma_fundamental_div_mod_converse,
    lemma_mod_bound,
};

verus! {

/// The distance between two coordinates.
pub open spec fn distance(from: int, to: int) -> int {
    if from < to {
        to - from
    } else {
        from - to
    }
}

/// The unit step that leads from `from` towards `to`.
pub open spec fn direction(from: int, to: int) -> int {
    if from < to {
        1
    } else {
        -1
    }
}

/// The number of steps of the segment: its extent along the longer axis.
pub open spec fn line_span(x0: int, y0: int, x1: int, y1: int) -> int {
    if distance(x0, x1) >= distance(y0, y1) {
        distance(x0, x1)
    } else {
        distance(y0, y1)
    }
}

/// How far the line has moved along its shorter axis after `i` steps along
/// the longer one: `i * minor / major` rounded to the nearest integer, a
/// half rounded down.
pub open spec fn nearest_step(i: int, minor: int, major: int) -> int {
    (2 * i * minor + major - 1) / (2 * major)
}

/// The pixel of the segment after `i` steps, for `0 <= i <= line_span`.
pub open spec fn line_point(x0: int, y0: int, x1: int, y1: int, i: int) -> (int, int) {
    let dx = distance(x0, x1);
    let dy = distance(y0, y1);
    if dx == 0 && dy == 0 {
        (x0, y0)
    } else if dx >= dy {
        (x0 + direction(x0, x1) * i, y0 + direction(y0, y1) * nearest_step(i, dy, dx))
    } else {
        (x0 + direction(x0, x1) * nearest_step(i, dx, dy), y0 + direction(y0, y1) * i)
    }
}

/// Whether the segment passes through pixel `(x, y)`.
pub open spec fn on_line(x0: int, y0: int, x1: int, y1: int, x: int, y: int) -> bool {
    exists|i: int| 0 <= i <= line_span(x0, y0, x1, y1) && line_point(x0, y0, x1, y1, i) == (x, y)
}

/// The running error term of the stepping: positive where the pixel lies
/// short of the ideal line on the shorter axis.
pub open spec fn line_error(i: int, minor: int, major: int) -> int {
    major - minor + major * nearest_step(i, minor, major) - minor * i
}

/// `nearest_step` is within half a step of the ideal line.
pub proof fn lemma_nearest_step_bounds(i: int, minor: int, major: int)
    requires
        0 < major,
    ensures
        -major <= 2 * (major * nearest_step(i, minor, major) - minor * i) <= major - 1,
{
    let n = 2 * i * minor + major - 1;
    let d = 2 * major;
    let b = n / d;
    lemma_fundamental_div_mod(n, d);
    lemma_mod_bound(n, d);
    assert(d * b == 2 * (major * b)) by (nonlinear_arith)
        requires
            d == 2 * major,
    ;
    assert(2 * i * minor == 2 * (minor * i)) by (nonlinear_arith);
}

/// Only one integer is within half a step of the ideal line, a half counted
/// to the lower side.
pub proof fn lemma_nearest_step_unique(i: int, minor: int, major: int, q: int)
    requires
        0 < major,
        -major <= 2 * (major * q - minor * i) <= major - 1,
    ensures
        q == nearest_step(i, minor, major),
{
    let n = 2 * i * minor + major - 1;
    let d = 2 * major;
    let r = n - q * d;
    assert(q * d == 2 * (major * q)) by (nonlinear_arith)
        requires
            d == 2 * major,
    ;
    assert(2 * i * minor == 2 * (minor * i)) by (nonlinear_arith);
    lemma_fundamental_div_mod_converse(n, d, q, r);
}

/// One step of the line: the error term decides whether the shorter axis
/// advances, and is updated by additions alone.
pub proof fn lemma_line_step(i: int, minor: int, major: int)
    requires
        0 <= minor <= major,
        0 < major,
        0 <= i < major,
    ensures
        -minor < 2 * line_error(i, minor, major) <= 3 * major - 1,
        2 * line_error(i, minor, major) < major ==> {
            &&& nearest_step(i + 1, minor, major) == nearest_step(i, minor, major) + 1
            &&& line_error(i + 1, minor, major) == line_error(i, minor, major) - minor + major
        },
        2 * line_error(i, minor, major) >= major ==> {
            &&& nearest_step(i + 1, minor, major) == nearest_step(i, minor, major)
            &&& line_error(i + 1, minor, major) == line_error(i, minor, major) - minor
        },
        0 <= nearest_step(i, minor, major) <= nearest_step(i + 1, minor, major) <= minor,
{
    let b = nearest_step(i, minor, major);
    let t = major * b - minor * i;
    let e = line_error(i, minor, major);
    lemma_nearest_step_bounds(i, minor, major);
    assert(e == major - minor + t);
    if major == minor {
        assert(t == major * (b - i)) by (nonlinear_arith)
            requires
                t == major * b - minor * i,
                major == minor,
        ;
        assert(b - i == 0) by (nonlinear_arith)
            requires
                -major <= 2 * (major * (b - i)) <= major - 1,
                0 < major,
        ;
    }
    assert(2 * e > -minor);
    let q = if 2 * e < major {
        b + 1
    } else {
        b
    };
    assert(major * (b + 1) == major * b + major) by (nonlinear_arith);
    assert(minor * (i + 1) == minor * i + minor) by (nonlinear_arith);
    lemma_nearest_step_unique(i + 1, minor, major, q);
    assert(0 <= b) by {
        assert(0 <= 2 * i * minor) by (nonlinear_arith)
            requires
                0 <= i,
                0 <= minor,
        ;
        lemma_div_pos_is_pos(2 * i * minor + major - 1, 2 * major);
    }
    lemma_nearest_step_bounds(i + 1, minor, major);
    assert(q <= minor) by (nonlinear_arith)
        requires
            2 * (major * q - minor * (i + 1)) <= major - 1,
            0 <= i < major,
            0 <= minor,
            0 < major,
    ;
}

/// A whole number of unit steps towards `to` covers the distance.
pub proof fn lemma_direction_reaches(from: int, to: int)
    ensures
        from + direction(from, to) * 0 == from,
        from + direction(from, to) * distance(from, to) == to,
{
    if from < to {
        assert(direction(from, to) * distance(from, to) == to - from);
    } else {
        assert(direction(from, to) * distance(from, to) == to - from);
    }
}

/// The segment starts at `(x0, y0)` and ends at `(x1, y1)`.
pub proof fn lemma_line_endpoints(x0: int, y0: int, x1: int, y1: int)
    ensures
        line_point(x0, y0, x1, y1, 0) == (x0, y0),
        line_point(x0, y0, x1, y1, line_span(x0, y0, x1, y1)) == (x1, y1),
{
    let dx = distance(x0, x1);
    let dy = distance(y0, y1);
    lemma_direction_reaches(x0, x1);
    lemma_direction_reaches(y0, y1);
    if dx == 0 && dy == 0 {
    } else if dx >= dy {
        lemma_nearest_step_unique(0, dy, dx, 0);
        assert(2 * (dx * dy - dy * dx) == 0) by (nonlinear_arith);
        lemma_nearest_step_unique(dx, dy, dx, dy);
        assert(nearest_step(0, dy, dx) == 0);
        assert(nearest_step(dx, dy, dx) == dy);
    } else {
        lemma_nearest_step_unique(0, dx, dy, 0);
        assert(2 * (dy * dx - dx * dy) == 0) by (nonlinear_arith);
        lemma_nearest_step_unique(dy, dx, dy, dx);
        assert(nearest_step(0, dx, dy) == 0);
        assert(nearest_step(dy, dx, dy) == dx);
    }
}

/// How far the line has moved along its shorter axis lies between nothing
/// and the whole extent of that axis.
pub proof fn lemma_nearest_step_range(i: int, minor: int, major: int)
    requires
        0 <= minor <= major,
        0 < major,
        0 <= i <= major,
    ensures
        0 <= nearest_step(i, minor, major) <= minor,
{
    if i < major {
        lemma_line_step(i, minor, major);
    } else {
        assert(2 * (major * minor - minor * major) == 0) by (nonlinear_arith);
        lemma_nearest_step_unique(major, minor, major, minor);
    }
}

/// Steps towards `to`, no more than the distance, stay between `from` and
/// `to`.
pub proof fn lemma_direction_within(from: int, to: int, k: int)
    requires
        0 <= k <= distance(from, to),
    ensures
        from <= from + direction(from, to) * k <= to || to <= from + direction(from, to) * k
            <= from,
{
    if from < to {
        assert(direction(from, to) * k == k);
    } else {
        assert(direction(from, to) * k == -k);
    }
}

/// Every pixel of the segment lies in the box spanned by its two ends.
pub proof fn lemma_line_in_box(x0: int, y0: int, x1: int, y1: int, i: int)
    requires
        0 <= i <= line_span(x0, y0, x1, y1),
    ensures
        ({
            let p = line_point(x0, y0, x1, y1, i);
            &&& (x0 <= p.0 <= x1 || x1 <= p.0 <= x0)
            &&& (y0 <= p.1 <= y1 || y1 <= p.1 <= y0)
        }),
{
    let dx = distance(x0, x1);
    let dy = distance(y0, y1);
    if dx == 0 && dy == 0 {
    } else if dx >= dy {
        lemma_nearest_step_range(i, dy, dx);
        lemma_direction_within(x0, x1, i);
        lemma_direction_within(y0, y1, nearest_step(i, dy, dx));
    } else {
        lemma_nearest_step_range(i, dx, dy);
        lemma_direction_within(x0, x1, nearest_step(i, dx, dy));
        lemma_direction_within(y0, y1, i);
    }
}

/// From one pixel of the segment to the next the longer axis moves by
/// exactly one pixel towards the end, and the shorter axis by one pixel
/// towards the end or not at all: the pixels are connected and none comes
/// twice.
pub proof fn lemma_line_connected(x0: int, y0: int, x1: int, y1: int, i: int)
    requires
        0 <= i < line_span(x0, y0, x1, y1),
    ensures
        ({
            let p = line_point(x0, y0, x1, y1, i);
            let q = line_point(x0, y0, x1, y1, i + 1);
            let sx = direction(x0, x1);
            let sy = direction(y0, y1);
            if distance(x0, x1) >= distance(y0, y1) {
                q.0 == p.0 + sx && (q.1 == p.1 || q.1 == p.1 + sy)
            } else {
                q.1 == p.1 + sy && (q.0 == p.0 || q.0 == p.0 + sx)
            }
        }),
{
    let dx = distance(x0, x1);
    let dy = distance(y0, y1);
    let sx = direction(x0, x1);
    let sy = direction(y0, y1);
    if dx >= dy {
        lemma_line_step(i, dy, dx);
        let b = nearest_step(i, dy, dx);
        assert(sx * (i + 1) == sx * i + sx) by (nonlinear_arith);
        assert(sy * (b + 1) == sy * b + sy) by (nonlinear_arith);
    } else {
        lemma_line_step(i, dx, dy);
        let a = nearest_step(i, dx, dy);
        assert(sy * (i + 1) == sy * i + sy) by (nonlinear_arith);
        assert(sx * (a + 1) == sx * a + sx) by (nonlinear_arith);
    }
}

/// Every pixel of the segment is within half a pixel of the ideal line,
/// measured along the shorter axis: twice the cross product of the segment
/// with the vector from its start to the pixel is at most the span.
pub proof fn lemma_line_near_ideal(x0: int, y0: int, x1: int, y1: int, i: int)
    requires
        0 <= i <= line_span(x0, y0, x1, y1),
    ensures
        ({
            let p = line_point(x0, y0, x1, y1, i);
            let cross = (p.0 - x0) * (y1 - y0) - (p.1 - y0) * (x1 - x0);
            -line_span(x0, y0, x1, y1) <= 2 * cross <= line_span(x0, y0, x1, y1)
        }),
{
    let dx = distance(x0, x1);
    let dy = distance(y0, y1);
    let sx = direction(x0, x1);
    let sy = direction(y0, y1);
    let p = line_point(x0, y0, x1, y1, i);
    if dx == 0 && dy == 0 {
        assert((p.0 - x0) * (y1 - y0) == 0) by (nonlinear_arith)
            requires
                p.0 - x0 == 0,
        ;
        assert((p.1 - y0) * (x1 - x0) == 0) by (nonlinear_arith)
            requires
                p.1 - y0 == 0,
        ;
    } else if dx >= dy {
        let b = nearest_step(i, dy, dx);
        lemma_nearest_step_bounds(i, dy, dx);
        lemma_signed_product(sx, i, sy, dy, p.0 - x0, y1 - y0);
        lemma_signed_product(sy, b, sx, dx, p.1 - y0, x1 - x0);
        assert(dy * i == i * dy);
        assert(dx * b == b * dx);
    } else {
        let a = nearest_step(i, dx, dy);
        lemma_nearest_step_bounds(i, dx, dy);
        lemma_signed_product(sx, a, sy, dy, p.0 - x0, y1 - y0);
        lemma_signed_product(sy, i, sx, dx, p.1 - y0, x1 - x0);
        assert(dx * i == i * dx);
        assert(dy * a == a * dy);
    }
}

/// The product of two signed magnitudes.
proof fn lemma_signed_product(s: int, m: int, t: int, n: int, p: int, q: int)
    by (nonlinear_arith)
    requires
        s == 1 || s == -1,
        t == 1 || t == -1,
        p == s * m,
        q == t * n || (n == 0 && q == 0),
    ensures
        s == t ==> p * q == m * n,
        s != t ==> p * q == -(m * n),
{
}

} // verus!
