//! A particle and the per-particle and per-pair updates of a sub-step.

use vstd::prelude::*;
use crate::config::StepConfig;
use crate::fixed::{
    clamp, clamp_wide, coord_ok, ceil_sqrt, is_ceil_sqrt, COORD_LIMIT, MAX_ACCEL, MAX_ELAPSED,
    UNIT,
};

verus! {

/// A point particle: current position, position before the last integration
/// (the difference is its implicit velocity) and the acceleration gathered in
/// the current sub-step.
#[derive(Clone, Copy, Debug, PartialEq, Eq, Structural)]
pub struct Particle {
    pub x: i64,
    pub y: i64,
    pub px: i64,
    pub py: i64,
    pub ax: i64,
    pub ay: i64,
}

impl Particle {
    /// Coordinates and accelerations lie within the fixed-point limits.
    pub open spec fn in_limits(&self) -> bool {
        &&& coord_ok(self.x as int)
        &&& coord_ok(self.y as int)
        &&& coord_ok(self.px as int)
        &&& coord_ok(self.py as int)
        &&& -MAX_ACCEL <= self.ax <= MAX_ACCEL
        &&& -MAX_ACCEL <= self.ay <= MAX_ACCEL
    }

    /// A particle at `(x, y)` with no velocity and no acceleration.
    pub fn at_rest(x: i64, y: i64) -> (r: Particle)
        ensures
            r == (Particle { x, y, px: x, py: y, ax: 0, ay: 0 }),
    {
        Particle { x, y, px: x, py: y, ax: 0, ay: 0 }
    }
}

/// The particle with `(gx, gy)` added to its acceleration.
pub open spec fn with_gravity(p: Particle, gx: int, gy: int) -> Particle {
    Particle { ax: (p.ax + gx) as i64, ay: (p.ay + gy) as i64, ..p }
}

/// Adds gravity to a particle's acceleration.
pub fn apply_gravity(p: &mut Particle, gx: i64, gy: i64)
    requires
        -MAX_ACCEL <= old(p).ax + gx <= MAX_ACCEL,
        -MAX_ACCEL <= old(p).ay + gy <= MAX_ACCEL,
    ensures
        *final(p) == with_gravity(*old(p), gx as int, gy as int),
{
    p.ax = p.ax + gx;
    p.ay = p.ay + gy;
}

/// The particle with its position clamped into `[0, (w-1) * UNIT] x [0, (h-1) * UNIT]`.
pub open spec fn bounded(p: Particle, w: int, h: int) -> Particle {
    Particle {
        x: clamp(p.x as int, 0, (w - 1) * UNIT) as i64,
        y: clamp(p.y as int, 0, (h - 1) * UNIT) as i64,
        ..p
    }
}

/// Clamps a particle's position into a `w` by `h` cell domain.
pub fn clamp_to_domain(p: &mut Particle, w: usize, h: usize)
    requires
        1 <= w <= crate::fixed::MAX_SIDE,
        1 <= h <= crate::fixed::MAX_SIDE,
    ensures
        *final(p) == bounded(*old(p), w as int, h as int),
{
    let xmax: i64 = (w as i64 - 1) * UNIT;
    let ymax: i64 = (h as i64 - 1) * UNIT;
    if p.x < 0 {
        p.x = 0;
    }
    if p.x > xmax {
        p.x = xmax;
    }
    if p.y < 0 {
        p.y = 0;
    }
    if p.y > ymax {
        p.y = ymax;
    }
}

/// Displacement over one sub-step caused by acceleration `a`, where the
/// sub-step lasts `e / t` seconds: `a * (e / t)^2`, rounded toward zero.
pub open spec fn accel_disp(a: int, e: int, t: int) -> int {
    if a >= 0 {
        a * e * e / (t * t)
    } else {
        -((-a) * e * e / (t * t))
    }
}

/// The particle after Verlet integration: it moves by its implicit velocity
/// plus the displacement of its acceleration, remembers where it was, and its
/// acceleration is cleared. Positions stay within the coordinate limits.
pub open spec fn integrated(p: Particle, e: int, t: int) -> Particle {
    Particle {
        x: clamp(2 * p.x - p.px + accel_disp(p.ax as int, e, t), -COORD_LIMIT as int, COORD_LIMIT as int) as i64,
        y: clamp(2 * p.y - p.py + accel_disp(p.ay as int, e, t), -COORD_LIMIT as int, COORD_LIMIT as int) as i64,
        px: p.x,
        py: p.y,
        ax: 0,
        ay: 0,
    }
}

/// Executable form of `accel_disp`.
fn accel_step(a: i64, e: u64, t: u64) -> (r: i128)
    requires
        -MAX_ACCEL <= a <= MAX_ACCEL,
        1 <= e <= MAX_ELAPSED,
        1 <= t <= 281474976710656,
    ensures
        r == accel_disp(a as int, e as int, t as int),
        -79228162514264337593543950336 <= r <= 79228162514264337593543950336,
{
    let mag: u128 = if a >= 0 { a as u128 } else { (-a) as u128 };
    assert(mag * e <= 4294967296u128 * 4294967296u128) by (nonlinear_arith)
        requires mag <= 4294967296u128, e <= 4294967296u128;
    assert(mag * e * e <= 4294967296u128 * 4294967296u128 * 4294967296u128) by (nonlinear_arith)
        requires mag <= 4294967296u128, e <= 4294967296u128;
    assert(t * t <= 281474976710656u128 * 281474976710656u128) by (nonlinear_arith)
        requires t <= 281474976710656u128;
    assert(t * t >= 1) by (nonlinear_arith)
        requires t >= 1;
    let num: u128 = mag * (e as u128) * (e as u128);
    let den: u128 = (t as u128) * (t as u128);
    let q: u128 = num / den;
    assert(q <= num) by (nonlinear_arith)
        requires q == num / den, den >= 1;
    if a >= 0 {
        q as i128
    } else {
        -(q as i128)
    }
}

/// Advances a particle by one sub-step of `e / t` seconds.
pub fn integrate(p: &mut Particle, e: u64, t: u64)
    requires
        old(p).in_limits(),
        1 <= e <= MAX_ELAPSED,
        1 <= t <= 281474976710656,
    ensures
        *final(p) == integrated(*old(p), e as int, t as int),
        final(p).in_limits(),
{
    let dx: i128 = accel_step(p.ax, e, t);
    let dy: i128 = accel_step(p.ay, e, t);
    let nx: i64 = clamp_wide(2 * (p.x as i128) - p.px as i128 + dx, -COORD_LIMIT, COORD_LIMIT);
    let ny: i64 = clamp_wide(2 * (p.y as i128) - p.py as i128 + dy, -COORD_LIMIT, COORD_LIMIT);
    p.px = p.x;
    p.py = p.y;
    p.x = nx;
    p.y = ny;
    p.ax = 0;
    p.ay = 0;
}

/// Squared distance between two particles' positions.
pub open spec fn dist_sq(a: Particle, b: Particle) -> int {
    (a.x - b.x) * (a.x - b.x) + (a.y - b.y) * (a.y - b.y)
}

/// The square root of `s` rounded up.
pub open spec fn root_up(s: int) -> int {
    choose|d: int| is_ceil_sqrt(d, s)
}

/// Two particles overlap: they are closer than the minimum separation, and not
/// at the same point (where no direction of separation exists, and the pair is
/// left alone).
pub open spec fn in_contact(a: Particle, b: Particle, c: StepConfig) -> bool {
    0 < dist_sq(a, b) < c.min_dist * c.min_dist
}

/// How far the first particle of an overlapping pair moves along one axis,
/// where `delta` is its offset from the second along that axis and `d` their
/// distance: `(r / 4) * (min_dist - d) * delta / d` for response `r`, rounded
/// toward zero. It points away from the second particle.
pub open spec fn push(delta: int, d: int, c: StepConfig) -> int {
    let n = c.response_num * (c.min_dist - d);
    let q = 4 * c.response_den * d;
    if delta >= 0 {
        n * delta / q
    } else {
        -(n * (-delta) / q)
    }
}

/// The pair after one resolution of their contact: the first moves by
/// `(push_x, push_y)`, the second by the opposite, keeping their midpoint.
/// A pair not in contact is unchanged.
pub open spec fn resolved(a: Particle, b: Particle, c: StepConfig) -> (Particle, Particle) {
    if in_contact(a, b, c) {
        let d = root_up(dist_sq(a, b));
        let ux = push(a.x - b.x, d, c);
        let uy = push(a.y - b.y, d, c);
        (
            Particle {
                x: clamp(a.x + ux, -COORD_LIMIT as int, COORD_LIMIT as int) as i64,
                y: clamp(a.y + uy, -COORD_LIMIT as int, COORD_LIMIT as int) as i64,
                ..a
            },
            Particle {
                x: clamp(b.x - ux, -COORD_LIMIT as int, COORD_LIMIT as int) as i64,
                y: clamp(b.y - uy, -COORD_LIMIT as int, COORD_LIMIT as int) as i64,
                ..b
            },
        )
    } else {
        (a, b)
    }
}

/// The rounded-up square root is unique.
pub proof fn lemma_ceil_sqrt_unique(d1: int, d2: int, s: int)
    requires
        s > 0,
        is_ceil_sqrt(d1, s),
        is_ceil_sqrt(d2, s),
    ensures
        d1 == d2,
{
    if d1 < d2 {
        assert(d1 * d1 <= (d2 - 1) * (d2 - 1)) by (nonlinear_arith)
            requires 0 <= d1 <= d2 - 1;
    } else if d2 < d1 {
        assert(d2 * d2 <= (d1 - 1) * (d1 - 1)) by (nonlinear_arith)
            requires 0 <= d2 <= d1 - 1;
    }
}

/// For overlapping particles the rounded-up distance lies in `[1, min_dist]`.
pub proof fn lemma_root_up_range(s: int, m: int)
    requires
        0 < s < m * m,
        m >= 1,
    ensures
        is_ceil_sqrt(root_up(s), s),
        1 <= root_up(s) <= m,
{
    lemma_least_root(s, m);
    let d = root_up(s);
    if d == 0 {
        assert(d * d == 0) by (nonlinear_arith)
            requires d == 0;
    }
    if d > m {
        assert((d - 1) * (d - 1) >= m * m) by (nonlinear_arith)
            requires d - 1 >= m, m >= 1;
    }
}

/// Some `d` in `[0, k]` is the rounded-up square root of `s` when `k * k >= s`.
proof fn lemma_least_root(s: int, k: int)
    requires
        k >= 0,
        s > 0,
        k * k >= s,
    ensures
        exists|d: int| is_ceil_sqrt(d, s),
    decreases k,
{
    if k == 0 {
    } else if (k - 1) * (k - 1) < s {
        assert(is_ceil_sqrt(k, s));
    } else {
        lemma_least_root(s, k - 1);
    }
}

/// Resolves the contact of two particles, if they overlap.
pub fn resolve_contact(a: Particle, b: Particle, c: &StepConfig) -> (r: (Particle, Particle))
    requires
        a.in_limits(),
        b.in_limits(),
        c.wf(),
    ensures
        r == resolved(a, b, *c),
        r.0.in_limits(),
        r.1.in_limits(),
{
    let dx: i64 = a.x - b.x;
    let dy: i64 = a.y - b.y;
    let dxw: i128 = dx as i128;
    let dyw: i128 = dy as i128;
    assert(0 <= dxw * dxw <= 4835703278458516698824704 && 0 <= dyw * dyw <= 4835703278458516698824704)
        by (nonlinear_arith)
        requires -2199023255552 <= dxw <= 2199023255552, -2199023255552 <= dyw <= 2199023255552;
    let dsq: i128 = dxw * dxw + dyw * dyw;
    assert(dsq == dist_sq(a, b));
    let m: i64 = c.min_dist;
    assert(1 <= m * m <= 1099511627776) by (nonlinear_arith)
        requires 1 <= m <= 1048576;
    let m2: i128 = (m as i128) * (m as i128);
    if dsq == 0 || dsq >= m2 {
        return (a, b);
    }
    proof {
        lemma_root_up_range(dsq as int, m as int);
    }
    let d: u64 = ceil_sqrt(dsq as u64);
    proof {
        lemma_ceil_sqrt_unique(d as int, root_up(dsq as int), dsq as int);
    }
    let d: i64 = d as i64;
    assert(0 <= c.response_num * (m - d) <= 2 * 65536 * 1048576) by (nonlinear_arith)
        requires 0 <= c.response_num <= 2 * 65536, 0 <= m - d <= 1048576;
    let n: i128 = (c.response_num as i128) * ((m - d) as i128);
    assert(0 <= c.response_num * (m - d) <= 2 * 65536 * 1048576) by (nonlinear_arith)
        requires 0 <= c.response_num <= 2 * 65536, 0 <= m - d <= 1048576;
    assert(4 <= 4 * c.response_den * d <= 4 * 65536 * 1048576) by (nonlinear_arith)
        requires 1 <= c.response_den <= 65536, 1 <= d <= 1048576;
    let q: i128 = 4 * (c.response_den as i128) * (d as i128);
    assert(q >= 4) by (nonlinear_arith)
        requires q == 4 * c.response_den * d, c.response_den >= 1, d >= 1;
    let ax: i128 = if dx >= 0 { dx as i128 } else { -(dx as i128) };
    let ay: i128 = if dy >= 0 { dy as i128 } else { -(dy as i128) };
    assert(n * ax <= 288230376151711744 * 2199023255552 && n * ay <= 288230376151711744 * 2199023255552)
        by (nonlinear_arith)
        requires 0 <= n <= 2 * 65536 * 1048576, 0 <= ax <= 2199023255552, 0 <= ay <= 2199023255552;
    assert(n * ax >= 0 && n * ay >= 0) by (nonlinear_arith)
        requires 0 <= n, 0 <= ax, 0 <= ay;
    let tx: i128 = n * ax / q;
    let ty: i128 = n * ay / q;
    assert(tx <= n * ax && ty <= n * ay) by (nonlinear_arith)
        requires tx == (n * ax) as int / (q as int), ty == (n * ay) as int / (q as int), q >= 1, n * ax >= 0, n * ay >= 0;
    let ux: i128 = if dx >= 0 { tx } else { -tx };
    let uy: i128 = if dy >= 0 { ty } else { -ty };
    let a2 = Particle {
        x: clamp_wide(a.x as i128 + ux, -COORD_LIMIT, COORD_LIMIT),
        y: clamp_wide(a.y as i128 + uy, -COORD_LIMIT, COORD_LIMIT),
        ..a
    };
    let b2 = Particle {
        x: clamp_wide(b.x as i128 - ux, -COORD_LIMIT, COORD_LIMIT),
        y: clamp_wide(b.y as i128 - uy, -COORD_LIMIT, COORD_LIMIT),
        ..b
    };
    (a2, b2)
}

} // verus!
