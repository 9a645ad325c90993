//! Planar vectors over fixed-point scalars.

use vstd::prelude::*;
use crate::fixed::{
    clamp, div_toward_zero, in_range, is_root, isqrt, lemma_div_toward_zero_bound,
    lemma_root_exists, magnitude, magnitude_of, mul_div, product, root, times, LIMIT, UNIT,
};

verus! {

/// A point or a displacement in the plane.
#[derive(Clone, Copy, Debug, PartialEq, Eq, Structural)]
pub struct Vec2 {
    pub x: i64,
    pub y: i64,
}

/// The squared length of the displacement `(dx, dy)`.
pub open spec fn length_sq(dx: int, dy: int) -> int {
    dx * dx + dy * dy
}

/// The largest component of a displacement that is measured in finer steps
/// before it is rescaled.
pub const FINE: i64 = 2_000_000_000_000;

/// The displacement `(dx, dy)` of length `len` rescaled to length one, each
/// component rounded toward zero.
pub open spec fn rescaled(dx: int, dy: int, len: int) -> Vec2 {
    Vec2 {
        x: div_toward_zero(dx * UNIT, len) as i64,
        y: div_toward_zero(dy * UNIT, len) as i64,
    }
}

/// The displacement `(dx, dy)` in the steps in which its length is taken:
/// a short displacement is stretched first, which leaves its direction as
/// it is and makes the rounded length exact enough.
pub open spec fn measured(dx: int, dy: int) -> (int, int) {
    if magnitude(dx) <= FINE && magnitude(dy) <= FINE {
        (dx * UNIT, dy * UNIT)
    } else {
        (dx, dy)
    }
}

/// The heading of the displacement `(dx, dy)`: the displacement rescaled to
/// length one.
pub open spec fn unit_toward(dx: int, dy: int) -> Vec2 {
    let (ex, ey) = measured(dx, dy);
    rescaled(ex, ey, isqrt(length_sq(ex, ey)))
}

/// Whether `(x, y)` has length one up to rounding: it is shorter than one
/// and a step, and a step more along both axes makes it longer than one.
pub open spec fn unit_length(x: int, y: int) -> bool {
    &&& length_sq(x, y) < (UNIT + 1) * (UNIT + 1)
    &&& length_sq(magnitude(x) + 1, magnitude(y) + 1) > UNIT * UNIT
}

/// What rounding toward zero leaves of `c * UNIT / len`.
proof fn lemma_component(c: int, len: int)
    requires
        len > 0,
    ensures
        ({
            let q = magnitude(div_toward_zero(c * UNIT, len));
            q * len <= magnitude(c) * UNIT < (q + 1) * len
        }),
{
    let m: int = magnitude(c);
    let a: int = m * UNIT;
    assert(a >= 0) by (nonlinear_arith)
        requires
            a == m * UNIT,
            m >= 0,
    ;
    assert((a / len) * len <= a < (a / len + 1) * len && a / len >= 0) by (nonlinear_arith)
        requires
            a >= 0,
            len > 0,
    ;
    if c >= 0 {
        assert(c * UNIT == a);
    } else {
        assert(-(c * UNIT) == a) by (nonlinear_arith)
            requires
                a == m * UNIT,
                m == -c,
        ;
        if a == 0 {
            assert(0int / len == 0) by (nonlinear_arith)
                requires
                    len > 0,
            ;
        }
    }
}

/// A displacement that is at least one long keeps length one, up to
/// rounding, when it is rescaled.
pub proof fn lemma_rescaled_length(dx: int, dy: int, len: int)
    requires
        is_root(length_sq(dx, dy), len),
        len >= UNIT,
    ensures
        unit_length(
            div_toward_zero(dx * UNIT, len),
            div_toward_zero(dy * UNIT, len),
        ),
        magnitude(div_toward_zero(dx * UNIT, len)) <= UNIT,
        magnitude(div_toward_zero(dy * UNIT, len)) <= UNIT,
{
    let u: int = UNIT as int;
    let x: int = div_toward_zero(dx * UNIT, len);
    let y: int = div_toward_zero(dy * UNIT, len);
    let (a, b) = (magnitude(dx), magnitude(dy));
    let (p, q) = (magnitude(x), magnitude(y));
    lemma_component(dx, len);
    lemma_component(dy, len);
    let n: int = length_sq(dx, dy);
    assert(a * a == dx * dx && b * b == dy * dy && p * p == x * x && q * q == y * y)
        by (nonlinear_arith)
        requires
            a == dx || a == -dx,
            b == dy || b == -dy,
            p == x || p == -x,
            q == y || q == -y,
    ;
    let (pl, ql, au, bu) = (p * len, q * len, a * u, b * u);
    let (pl1, ql1) = ((p + 1) * len, (q + 1) * len);
    assert(pl >= 0 && ql >= 0) by (nonlinear_arith)
        requires
            pl == p * len,
            ql == q * len,
            p >= 0,
            q >= 0,
            len > 0,
    ;
    assert(pl * pl <= au * au && ql * ql <= bu * bu) by (nonlinear_arith)
        requires
            0 <= pl <= au,
            0 <= ql <= bu,
    ;
    assert(pl1 * pl1 > au * au && ql1 * ql1 > bu * bu) by (nonlinear_arith)
        requires
            0 <= au < pl1,
            0 <= bu < ql1,
    ;
    let l2: int = len * len;
    assert(l2 > 0) by (nonlinear_arith)
        requires
            l2 == len * len,
            len > 0,
    ;
    assert(pl * pl == l2 * (p * p) && ql * ql == l2 * (q * q) && pl1 * pl1 == l2 * ((p + 1) * (p
        + 1)) && ql1 * ql1 == l2 * ((q + 1) * (q + 1))) by (nonlinear_arith)
        requires
            pl == p * len,
            ql == q * len,
            pl1 == (p + 1) * len,
            ql1 == (q + 1) * len,
            l2 == len * len,
    ;
    assert(au * au + bu * bu == (u * u) * n) by (nonlinear_arith)
        requires
            au == a * u,
            bu == b * u,
            n == a * a + b * b,
    ;
    let short: int = p * p + q * q;
    let long: int = (p + 1) * (p + 1) + (q + 1) * (q + 1);
    assert(l2 * short <= (u * u) * n < l2 * long) by (nonlinear_arith)
        requires
            l2 * (p * p) + l2 * (q * q) <= (u * u) * n,
            (u * u) * n < l2 * ((p + 1) * (p + 1)) + l2 * ((q + 1) * (q + 1)),
            short == p * p + q * q,
            long == (p + 1) * (p + 1) + (q + 1) * (q + 1),
    ;
    let top: int = (len + 1) * (len + 1);
    assert((u * u) * l2 <= (u * u) * n < (u * u) * top) by (nonlinear_arith)
        requires
            l2 <= n < top,
            u > 0,
    ;
    assert(u * (len + 1) <= len * (u + 1)) by (nonlinear_arith)
        requires
            u <= len,
    ;
    let (s, t) = (u * (len + 1), len * (u + 1));
    assert(s * s <= t * t) by (nonlinear_arith)
        requires
            0 <= s <= t,
    ;
    assert(s * s == (u * u) * top && t * t == l2 * ((u + 1) * (u + 1))) by (nonlinear_arith)
        requires
            s == u * (len + 1),
            t == len * (u + 1),
            top == (len + 1) * (len + 1),
            l2 == len * len,
    ;
    let cap: int = (u + 1) * (u + 1);
    assert(short < cap) by (nonlinear_arith)
        requires
            l2 * short < l2 * cap,
            l2 > 0,
    ;
    assert(long > u * u) by (nonlinear_arith)
        requires
            l2 * (u * u) < l2 * long,
            l2 > 0,
    ;
    assert(p <= u && q <= u) by (nonlinear_arith)
        requires
            p * p + q * q < (u + 1) * (u + 1),
            p >= 0,
            q >= 0,
            u >= 0,
    ;
}

/// The heading of a displacement that is not zero has length one, up to
/// rounding, and the length that it is rescaled by is at least one.
pub proof fn lemma_heading_length(dx: int, dy: int)
    requires
        dx != 0 || dy != 0,
    ensures
        unit_toward(dx, dy).is_direction(),
        is_root(
            length_sq(measured(dx, dy).0, measured(dx, dy).1),
            isqrt(length_sq(measured(dx, dy).0, measured(dx, dy).1)),
        ),
        isqrt(length_sq(measured(dx, dy).0, measured(dx, dy).1)) >= UNIT,
{
    let (ex, ey) = measured(dx, dy);
    let n: int = length_sq(ex, ey);
    let (a, b) = (magnitude(ex), magnitude(ey));
    assert(a * a == ex * ex && b * b == ey * ey) by (nonlinear_arith)
        requires
            a == ex || a == -ex,
            b == ey || b == -ey,
    ;
    if magnitude(dx) <= FINE && magnitude(dy) <= FINE {
        assert(magnitude(dx * UNIT) >= UNIT || magnitude(dy * UNIT) >= UNIT) by (nonlinear_arith)
            requires
                dx != 0 || dy != 0,
        ;
    }
    assert(a >= UNIT || b >= UNIT);
    assert(n >= UNIT * UNIT) by (nonlinear_arith)
        requires
            n == a * a + b * b,
            a >= 0,
            b >= 0,
            a >= UNIT || b >= UNIT,
    ;
    lemma_root_exists(n);
    let len: int = isqrt(n);
    assert(len >= UNIT) by (nonlinear_arith)
        requires
            n < (len + 1) * (len + 1),
            n >= UNIT * UNIT,
            len >= 0,
    ;
    lemma_rescaled_length(ex, ey, len);
}

/// How far rounding lets a rescaled displacement lean: where `p` and `q`
/// are what rounding leaves of `a * u / len` and `b * u / len`, the vector
/// `(p, q)` leaves the line of `(a, b)` by no more than `(a, b)` is long
/// along an axis.
proof fn lemma_lean(p: int, q: int, a: int, b: int, len: int, u: int)
    requires
        u > 0,
        len > 0,
        0 <= p,
        0 <= q,
        0 <= a,
        0 <= b,
        p * len <= a * u < (p + 1) * len,
        q * len <= b * u < (q + 1) * len,
    ensures
        -b <= p * b - q * a <= a,
{
    let (pl, ql, au, bu) = (p * len, q * len, a * u, b * u);
    assert((p + 1) * len == pl + len && (q + 1) * len == ql + len) by (nonlinear_arith)
        requires
            pl == p * len,
            ql == q * len,
    ;
    assert(au >= 0 && bu >= 0 && pl >= 0 && ql >= 0) by (nonlinear_arith)
        requires
            au == a * u,
            bu == b * u,
            pl == p * len,
            ql == q * len,
            a >= 0,
            b >= 0,
            p >= 0,
            q >= 0,
            u > 0,
            len > 0,
    ;
    assert(pl * bu - ql * au <= au * len) by (nonlinear_arith)
        requires
            0 <= pl <= au,
            0 <= ql <= bu < ql + len,
    ;
    assert(pl * bu - ql * au >= -(len * bu)) by (nonlinear_arith)
        requires
            0 <= ql <= bu,
            0 <= pl <= au < pl + len,
    ;
    let d: int = p * b - q * a;
    let k: int = len * u;
    let (pb, qa) = (p * b, q * a);
    assert(pl * bu == k * pb) by (nonlinear_arith)
        requires
            pl == p * len,
            bu == b * u,
            pb == p * b,
            k == len * u,
    ;
    assert(ql * au == k * qa) by (nonlinear_arith)
        requires
            ql == q * len,
            au == a * u,
            qa == q * a,
            k == len * u,
    ;
    assert(k * pb - k * qa == k * d && au * len == k * a && len * bu == k * b) by (nonlinear_arith)
        requires
            au == a * u,
            bu == b * u,
            d == pb - qa,
            k == len * u,
    ;
    assert(k > 0) by (nonlinear_arith)
        requires
            k == len * u,
            len > 0,
            u > 0,
    ;
    assert(-b <= d <= a) by (nonlinear_arith)
        requires
            -(k * b) <= k * d <= k * a,
            k > 0,
    ;
}

/// The heading of a displacement points along the displacement: it lies
/// in the displacement's quadrant, and it leaves the displacement's line by
/// no more than the displacement is long along an axis, which is an angle
/// of about a millionth.
pub proof fn lemma_heading_points_along(dx: int, dy: int)
    requires
        dx != 0 || dy != 0,
    ensures
        ({
            let h = unit_toward(dx, dy);
            &&& dx >= 0 ==> h.x >= 0
            &&& dx <= 0 ==> h.x <= 0
            &&& dy >= 0 ==> h.y >= 0
            &&& dy <= 0 ==> h.y <= 0
            &&& magnitude(h.x * dy - h.y * dx) <= magnitude(dx) || magnitude(h.x * dy - h.y * dx)
                <= magnitude(dy)
        }),
{
    let u: int = UNIT as int;
    let (ex, ey) = measured(dx, dy);
    let len: int = isqrt(length_sq(ex, ey));
    lemma_heading_length(dx, dy);
    lemma_rescaled_length(ex, ey, len);
    let x: int = div_toward_zero(ex * UNIT, len);
    let y: int = div_toward_zero(ey * UNIT, len);
    let h = unit_toward(dx, dy);
    assert(h.x == x && h.y == y);
    lemma_component(ex, len);
    lemma_component(ey, len);
    let (p, q) = (magnitude(x), magnitude(y));
    let (a, b) = (magnitude(ex), magnitude(ey));
    let (m, n) = (magnitude(dx), magnitude(dy));
    lemma_lean(p, q, a, b, len, u);
    let fine: bool = magnitude(dx) <= FINE && magnitude(dy) <= FINE;
    if fine {
        assert((dx >= 0 ==> ex >= 0) && (dx <= 0 ==> ex <= 0) && (dy >= 0 ==> ey >= 0) && (dy <= 0
            ==> ey <= 0) && a == m * u && b == n * u) by (nonlinear_arith)
            requires
                ex == dx * u,
                ey == dy * u,
                a == magnitude(ex),
                b == magnitude(ey),
                m == magnitude(dx),
                n == magnitude(dy),
                u == 1_000_000,
        ;
    }
    assert((ex >= 0 ==> ex * u >= 0) && (ex <= 0 ==> ex * u <= 0) && (ey >= 0 ==> ey * u >= 0) && (
    ey <= 0 ==> ey * u <= 0)) by (nonlinear_arith)
        requires
            u > 0,
    ;
    lemma_div_toward_zero_bound(ex * UNIT, len);
    lemma_div_toward_zero_bound(ey * UNIT, len);
    let d: int = p * n - q * m;
    if fine {
        assert(-n <= d <= m) by (nonlinear_arith)
            requires
                -(n * u) <= p * (n * u) - q * (m * u) <= m * u,
                d == p * n - q * m,
                u > 0,
        ;
    }
    let c: int = x * dy - y * dx;
    assert(c == d || c == -d) by (nonlinear_arith)
        requires
            c == x * dy - y * dx,
            d == p * n - q * m,
            p == magnitude(x),
            q == magnitude(y),
            m == magnitude(dx),
            n == magnitude(dy),
            dx >= 0 ==> x >= 0,
            dx <= 0 ==> x <= 0,
            dy >= 0 ==> y >= 0,
            dy <= 0 ==> y <= 0,
    ;
}

impl Vec2 {
    /// Both components can be stored.
    pub open spec fn wf(self) -> bool {
        in_range(self.x as int) && in_range(self.y as int)
    }

    /// A heading: a vector of length one, up to rounding.
    pub open spec fn is_direction(self) -> bool {
        &&& -UNIT <= self.x <= UNIT
        &&& -UNIT <= self.y <= UNIT
        &&& unit_length(self.x as int, self.y as int)
    }

    /// The squared distance between two points.
    pub open spec fn dist_sq(self, other: Vec2) -> int {
        length_sq(self.x - other.x, self.y - other.y)
    }

    /// The heading from `self` toward `target`, if the two differ.
    pub open spec fn heading_to(self, target: Vec2) -> Option<Vec2> {
        if self == target {
            None
        } else {
            Some(unit_toward(target.x - self.x, target.y - self.y))
        }
    }

    /// This vector at length one, unless it is the zero vector.
    pub open spec fn unit(self) -> Option<Vec2> {
        Vec2 { x: 0, y: 0 }.heading_to(self)
    }

    /// The vector opposite to this one.
    pub open spec fn opposite(self) -> Vec2 {
        Vec2 { x: (-self.x) as i64, y: (-self.y) as i64 }
    }

    /// This vector stretched by the fixed-point factor `k`, saturated.
    pub open spec fn stretched(self, k: int) -> Vec2 {
        Vec2 {
            x: clamp(product(self.x as int, k)) as i64,
            y: clamp(product(self.y as int, k)) as i64,
        }
    }

    pub fn new(x: i64, y: i64) -> (v: Vec2)
        ensures
            v == (Vec2 { x, y }),
    {
        Vec2 { x, y }
    }

    pub fn zero() -> (v: Vec2)
        ensures
            v == (Vec2 { x: 0, y: 0 }),
    {
        Vec2 { x: 0, y: 0 }
    }

    /// Tests `wf`.
    pub fn is_valid(&self) -> (ok: bool)
        ensures
            ok == self.wf(),
    {
        -LIMIT <= self.x && self.x <= LIMIT && -LIMIT <= self.y && self.y <= LIMIT
    }

    /// Tests `is_direction`.
    pub fn is_heading(&self) -> (ok: bool)
        ensures
            ok == self.is_direction(),
    {
        if !(-UNIT <= self.x && self.x <= UNIT && -UNIT <= self.y && self.y <= UNIT) {
            return false;
        }
        let p: u128 = magnitude_of(self.x);
        let q: u128 = magnitude_of(self.y);
        assert(p * p == self.x * self.x && q * q == self.y * self.y && p * p <= 1_000_000_000_000
            && q * q <= 1_000_000_000_000 && (p + 1) * (p + 1) <= 1_000_002_000_001 && (q + 1) * (q
            + 1) <= 1_000_002_000_001) by (nonlinear_arith)
            requires
                p == self.x || p == -self.x,
                q == self.y || q == -self.y,
                0 <= p <= 1_000_000,
                0 <= q <= 1_000_000,
        ;
        p * p + q * q < 1_000_002_000_001 && (p + 1) * (p + 1) + (q + 1) * (q + 1)
            > 1_000_000_000_000
    }

    pub fn negated(&self) -> (v: Vec2)
        requires
            self.wf(),
        ensures
            v == self.opposite(),
            v.wf(),
            self.is_direction() ==> v.is_direction(),
    {
        assert((-self.x) * (-self.x) == self.x * self.x && (-self.y) * (-self.y) == self.y
            * self.y) by (nonlinear_arith);
        Vec2 { x: -self.x, y: -self.y }
    }

    pub fn scaled(&self, k: i64) -> (v: Vec2)
        ensures
            v == self.stretched(k as int),
            v.wf(),
    {
        Vec2 { x: times(self.x, k), y: times(self.y, k) }
    }

    pub fn distance_squared(&self, other: &Vec2) -> (d: u128)
        requires
            self.wf(),
            other.wf(),
        ensures
            d as int == self.dist_sq(*other),
    {
        let dx: u128 = magnitude_of(self.x - other.x);
        let dy: u128 = magnitude_of(self.y - other.y);
        assert(dx * dx <= 4_000_000_000_000_000_000_000_000_000_000_000_000)
            by (nonlinear_arith)
            requires
                0 <= dx <= 2_000_000_000_000_000_000,
        ;
        assert(dy * dy <= 4_000_000_000_000_000_000_000_000_000_000_000_000)
            by (nonlinear_arith)
            requires
                0 <= dy <= 2_000_000_000_000_000_000,
        ;
        assert(dx * dx == (self.x - other.x) * (self.x - other.x)) by (nonlinear_arith)
            requires
                dx == self.x - other.x || dx == -(self.x - other.x),
        ;
        assert(dy * dy == (self.y - other.y) * (self.y - other.y)) by (nonlinear_arith)
            requires
                dy == self.y - other.y || dy == -(self.y - other.y),
        ;
        dx * dx + dy * dy
    }

    pub fn direction_to(&self, target: &Vec2) -> (h: Option<Vec2>)
        requires
            self.wf(),
            target.wf(),
        ensures
            h == self.heading_to(*target),
            h is Some <==> *self != *target,
            h is Some ==> h->0.is_direction(),
    {
        if self.x == target.x && self.y == target.y {
            return None;
        }
        let dx: i64 = target.x - self.x;
        let dy: i64 = target.y - self.y;
        let fine: bool = -FINE <= dx && dx <= FINE && -FINE <= dy && dy <= FINE;
        let ex: i64 = if fine {
            dx * UNIT
        } else {
            dx
        };
        let ey: i64 = if fine {
            dy * UNIT
        } else {
            dy
        };
        let a: u128 = magnitude_of(ex);
        let b: u128 = magnitude_of(ey);
        assert(a * a <= 4_000_000_000_000_000_000_000_000_000_000_000_000 && b * b
            <= 4_000_000_000_000_000_000_000_000_000_000_000_000 && a * a == ex * ex && b * b == ey
            * ey) by (nonlinear_arith)
            requires
                0 <= a <= 2_000_000_000_000_000_000,
                0 <= b <= 2_000_000_000_000_000_000,
                a == ex || a == -ex,
                b == ey || b == -ey,
        ;
        let len: u64 = root(a * a + b * b);
        proof {
            lemma_heading_length(dx as int, dy as int);
            lemma_rescaled_length(ex as int, ey as int, len as int);
        }
        let x: i128 = mul_div(ex, UNIT as u64, len);
        let y: i128 = mul_div(ey, UNIT as u64, len);
        Some(Vec2 { x: x as i64, y: y as i64 })
    }

    pub fn normalized(&self) -> (h: Option<Vec2>)
        requires
            self.wf(),
        ensures
            h == self.unit(),
            h is Some <==> (self.x != 0 || self.y != 0),
            h is Some ==> h->0.is_direction(),
    {
        Vec2::zero().direction_to(self)
    }
}

} // verus!
