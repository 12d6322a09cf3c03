//! Properties of the step, stated over the specifications of its passes.

use vstd::prelude::*;
use vstd::arithmetic::div_mod::{lemma_fundamental_div_mod, lemma_mod_bound};
use crate::config::{StepConfig, MAX_MIN_DIST};
use crate::fixed::{is_ceil_sqrt, COORD_LIMIT, MAX_SIDE, UNIT};
use crate::simulation::{
    block_steps, collided, column_steps, departures, elapsed_units, grid_steps, lies_in,
    lies_outside, pair_step, rebucketed, row_steps, staying, stepped, ticked, with_particles,
};
use crate::world::{cell_index, World, WorldView};
use crate::particle::{
    bounded, dist_sq, in_contact, integrated, push, resolved, root_up, with_gravity, Particle,
};

verus! {

/// A position far enough inside the coordinate limits that one contact
/// resolution cannot reach them.
pub open spec fn well_inside(p: Particle) -> bool {
    &&& -(COORD_LIMIT - MAX_MIN_DIST) <= p.x <= COORD_LIMIT - MAX_MIN_DIST
    &&& -(COORD_LIMIT - MAX_MIN_DIST) <= p.y <= COORD_LIMIT - MAX_MIN_DIST
}

/// The push along one axis points the way of `v`, and twice its size is at
/// most `(m - d) * |v| / d`, hence at most `m - d` when `|v| <= d`.
proof fn lemma_push_bound(v: int, d: int, c: StepConfig)
    requires
        c.wf(),
        1 <= d <= c.min_dist,
        -d <= v <= d,
    ensures
        v >= 0 ==> push(v, d, c) >= 0,
        v < 0 ==> push(v, d, c) <= 0,
        2 * d * (if v >= 0 { push(v, d, c) } else { -push(v, d, c) }) <= (c.min_dist - d) * (if v >= 0 { v } else { -v }),
        2 * (if v >= 0 { push(v, d, c) } else { -push(v, d, c) }) <= c.min_dist - d,
{
    let m = c.min_dist as int;
    let num = c.response_num as int;
    let den = c.response_den as int;
    let va = if v >= 0 { v } else { -v };
    let n = num * (m - d);
    let q = 4 * den * d;
    assert(n >= 0) by (nonlinear_arith)
        requires num >= 0, m - d >= 0, n == num * (m - d);
    assert(q >= 4) by (nonlinear_arith)
        requires den >= 1, d >= 1, q == 4 * den * d;
    assert(n * va >= 0) by (nonlinear_arith)
        requires n >= 0, va >= 0;
    let t = (n * va) / q;
    lemma_fundamental_div_mod(n * va, q);
    lemma_mod_bound(n * va, q);
    assert(t >= 0) by (nonlinear_arith)
        requires n * va == q * t + (n * va) % q, 0 <= (n * va) % q < q, n * va >= 0, q >= 4;
    assert(q * t <= n * va);
    assert(num * (m - d) * va <= 2 * den * ((m - d) * va)) by (nonlinear_arith)
        requires 0 <= num <= 2 * den, m - d >= 0, va >= 0;
    assert(2 * d * t <= (m - d) * va) by (nonlinear_arith)
        requires
            4 * den * d * t <= num * (m - d) * va,
            num * (m - d) * va <= 2 * den * ((m - d) * va),
            den >= 1,
    ;
    assert((m - d) * va <= (m - d) * d) by (nonlinear_arith)
        requires m - d >= 0, 0 <= va <= d;
    assert(2 * t <= m - d) by (nonlinear_arith)
        requires 2 * d * t <= (m - d) * d, d >= 1;
    assert(push(v, d, c) == if v >= 0 { t } else { -t });
}

/// A coordinate offset whose square is at most `s` is at most `root_up(s)` in size.
proof fn lemma_offset_le_root(v: int, s: int, d: int)
    requires
        v * v <= s,
        is_ceil_sqrt(d, s),
    ensures
        -d <= v <= d,
{
    if v > d {
        assert(v * v > d * d) by (nonlinear_arith)
            requires v > d, d >= 0;
    }
    if v < -d {
        assert(v * v > d * d) by (nonlinear_arith)
            requires v < -d, d >= 0;
    }
}

/// Resolving a contact leaves the pair's midpoint where it was: the two
/// displacements sum to zero on each axis.
pub proof fn pair_symmetry(a: Particle, b: Particle, c: StepConfig)
    requires
        c.wf(),
        well_inside(a),
        well_inside(b),
    ensures
        (resolved(a, b, c).0.x - a.x) + (resolved(a, b, c).1.x - b.x) == 0,
        (resolved(a, b, c).0.y - a.y) + (resolved(a, b, c).1.y - b.y) == 0,
{
    if in_contact(a, b, c) {
        contact_moves(a, b, c);
    }
}

/// The exact, unclamped moves of an overlapping pair.
proof fn contact_moves(a: Particle, b: Particle, c: StepConfig)
    requires
        c.wf(),
        well_inside(a),
        well_inside(b),
        in_contact(a, b, c),
    ensures
        ({
            let d = root_up(dist_sq(a, b));
            let ux = push(a.x - b.x, d, c);
            let uy = push(a.y - b.y, d, c);
            &&& is_ceil_sqrt(d, dist_sq(a, b))
            &&& 1 <= d <= c.min_dist
            &&& resolved(a, b, c).0.x == a.x + ux
            &&& resolved(a, b, c).0.y == a.y + uy
            &&& resolved(a, b, c).1.x == b.x - ux
            &&& resolved(a, b, c).1.y == b.y - uy
            &&& -(d as int) <= a.x - b.x <= d
            &&& -(d as int) <= a.y - b.y <= d
        }),
{
    let s = dist_sq(a, b);
    let m = c.min_dist as int;
    crate::particle::lemma_root_up_range(s, m);
    let d = root_up(s);
    let dx = a.x - b.x;
    let dy = a.y - b.y;
    assert(dx * dx >= 0 && dy * dy >= 0) by (nonlinear_arith);
    lemma_offset_le_root(dx, s, d);
    lemma_offset_le_root(dy, s, d);
    lemma_push_bound(dx, d, c);
    lemma_push_bound(dy, d, c);
}

/// One resolution of an overlapping pair moves its distance toward the
/// minimum separation without passing it: the squared distance does not
/// shrink and does not exceed `min_dist` squared.
pub proof fn separation_approaches_minimum(a: Particle, b: Particle, c: StepConfig)
    requires
        c.wf(),
        well_inside(a),
        well_inside(b),
        in_contact(a, b, c),
    ensures
        dist_sq(a, b) <= dist_sq(resolved(a, b, c).0, resolved(a, b, c).1),
        dist_sq(resolved(a, b, c).0, resolved(a, b, c).1) <= c.min_dist * c.min_dist,
{
    contact_moves(a, b, c);
    let s = dist_sq(a, b);
    let m = c.min_dist as int;
    let d = root_up(s);
    let dx = a.x - b.x;
    let dy = a.y - b.y;
    let ux = push(dx, d, c);
    let uy = push(dy, d, c);
    lemma_push_bound(dx, d, c);
    lemma_push_bound(dy, d, c);
    let va = if dx >= 0 { dx } else { -dx };
    let vb = if dy >= 0 { dy } else { -dy };
    let tx = if dx >= 0 { ux } else { -ux };
    let ty = if dy >= 0 { uy } else { -uy };
    let r = resolved(a, b, c);
    let ex = va + 2 * tx;
    let ey = vb + 2 * ty;
    assert((r.0.x - r.1.x) * (r.0.x - r.1.x) == ex * ex) by (nonlinear_arith)
        requires r.0.x - r.1.x == dx + 2 * ux, (dx >= 0 && ex == dx + 2 * ux) || (dx < 0 && ex == -(dx + 2 * ux));
    assert((r.0.y - r.1.y) * (r.0.y - r.1.y) == ey * ey) by (nonlinear_arith)
        requires r.0.y - r.1.y == dy + 2 * uy, (dy >= 0 && ey == dy + 2 * uy) || (dy < 0 && ey == -(dy + 2 * uy));
    assert(dx * dx == va * va && dy * dy == vb * vb) by (nonlinear_arith)
        requires va == dx || va == -dx, vb == dy || vb == -dy;
    assert(ex * ex >= va * va && ey * ey >= vb * vb) by (nonlinear_arith)
        requires ex >= va >= 0, ey >= vb >= 0;
    assert(2 * d * tx <= (m - d) * va && 2 * d * ty <= (m - d) * vb);
    assert(ex * d <= m * va) by (nonlinear_arith)
        requires ex == va + 2 * tx, 2 * d * tx <= (m - d) * va;
    assert(ey * d <= m * vb) by (nonlinear_arith)
        requires ey == vb + 2 * ty, 2 * d * ty <= (m - d) * vb;
    assert(0 <= ex * d && 0 <= ey * d) by (nonlinear_arith)
        requires ex >= 0, ey >= 0, d >= 1;
    assert(ex * ex * (d * d) <= m * m * (va * va)) by (nonlinear_arith)
        requires 0 <= ex * d <= m * va, ex >= 0, d >= 1;
    assert(ey * ey * (d * d) <= m * m * (vb * vb)) by (nonlinear_arith)
        requires 0 <= ey * d <= m * vb, ey >= 0, d >= 1;
    assert(m * m * (va * va + vb * vb) <= m * m * (d * d)) by (nonlinear_arith)
        requires va * va + vb * vb <= d * d;
    lemma_scaled_sum(ex * ex, ey * ey, va * va, vb * vb, d * d, m * m);
}

/// From `a * q <= k * u`, `b * q <= k * w` and `k * (u + w) <= k * q` with
/// `q >= 1`, `a + b <= k`.
proof fn lemma_scaled_sum(a: int, b: int, u: int, w: int, q: int, k: int)
    requires
        a * q <= k * u,
        b * q <= k * w,
        k * (u + w) <= k * q,
        q >= 1,
    ensures
        a + b <= k,
{
    assert((a + b) * q <= k * q) by (nonlinear_arith)
        requires a * q <= k * u, b * q <= k * w, k * (u + w) <= k * q;
    assert(a + b <= k) by (nonlinear_arith)
        requires (a + b) * q <= k * q, q >= 1;
}


/// After the boundary pass a particle lies in the domain
/// `[0, (w - 1) * UNIT] x [0, (h - 1) * UNIT]`.
pub proof fn containment(p: Particle, w: int, h: int)
    requires
        1 <= w <= MAX_SIDE,
        1 <= h <= MAX_SIDE,
    ensures
        0 <= bounded(p, w, h).x <= (w - 1) * UNIT,
        0 <= bounded(p, w, h).y <= (h - 1) * UNIT,
{
}

/// A particle at rest inside the domain, under no gravity and touched by no
/// contact, is a fixed point of the sub-step: gravity, clamping and
/// integration give it back unchanged, so it stays put over any number of
/// sub-steps.
pub proof fn rest_is_fixed_point(p: Particle, w: int, h: int, e: int, t: int)
    requires
        1 <= w <= MAX_SIDE,
        1 <= h <= MAX_SIDE,
        t >= 1,
        0 <= p.x <= (w - 1) * UNIT,
        0 <= p.y <= (h - 1) * UNIT,
        p.px == p.x,
        p.py == p.y,
        p.ax == 0,
        p.ay == 0,
    ensures
        integrated(bounded(with_gravity(p, 0, 0), w, h), e, t) == p,
{
    assert(0 * e * e / (t * t) == 0) by (nonlinear_arith)
        requires t >= 1;
}

/// Ticking is deterministic: `tick` leaves `ticked(world@, ...)`, a function
/// of the world's contents, the elapsed time and the configuration alone, so
/// two worlds with the same contents tick to the same contents.
pub proof fn tick_determinism(a: World, b: World, elapsed: int, c: StepConfig)
    requires
        a@ == b@,
    ensures
        ticked(a@, elapsed_units(elapsed), c.step_divisor(), c, c.sub_steps as nat) == ticked(
            b@,
            elapsed_units(elapsed),
            c.step_divisor(),
            c,
            c.sub_steps as nat,
        ),
{
}

/// Every handle in `s` is 0.
pub open spec fn all_zero(s: Seq<usize>) -> bool {
    forall|j: int| 0 <= j < s.len() ==> #[trigger] s[j] == 0
}

/// A world of one particle, whose cells hold only its handle.
pub open spec fn lone_particle(v: WorldView) -> bool {
    &&& v.particles.len() == 1
    &&& 1 <= v.width <= MAX_SIDE
    &&& 1 <= v.height <= MAX_SIDE
    &&& v.cells.len() == v.width * v.height
    &&& forall|k: int| 0 <= k < v.cells.len() ==> all_zero(#[trigger] v.cells[k])
}

proof fn lemma_zero_concat(a: Seq<usize>, b: Seq<usize>)
    requires
        all_zero(a),
        all_zero(b),
    ensures
        all_zero(a + b),
{
    assert forall|j: int| 0 <= j < (a + b).len() implies #[trigger] (a + b)[j] == 0 by {
        if j < a.len() {
            assert((a + b)[j] == a[j]);
        } else {
            assert((a + b)[j] == b[j - a.len()]);
        }
    }
}

proof fn lemma_zero_filter(s: Seq<usize>, f: spec_fn(usize) -> bool)
    requires
        all_zero(s),
    ensures
        all_zero(s.filter(f)),
{
    assert forall|j: int| 0 <= j < s.filter(f).len() implies #[trigger] s.filter(f)[j] == 0 by {
        let x = s.filter(f)[j];
        assert(s.filter(f).contains(x));
        s.lemma_filter_contains_rev(f, x);
    }
}

proof fn lemma_row_steps_lone(ps: Seq<Particle>, near: Seq<usize>, i: int, end: int, c: StepConfig)
    requires
        ps.len() == 1,
        all_zero(near),
        0 <= i,
        end <= near.len(),
    ensures
        row_steps(ps, near, i, end, c) == ps,
    decreases end - i,
{
    if end > i + 1 {
        lemma_row_steps_lone(ps, near, i, end - 1, c);
        assert(near[i] == 0 && near[end - 1] == 0);
        assert(dist_sq(ps[0], ps[0]) == 0);
        assert(pair_step(ps, 0, 0, c) =~= ps);
    }
}

proof fn lemma_block_steps_lone(ps: Seq<Particle>, near: Seq<usize>, rows: int, c: StepConfig)
    requires
        ps.len() == 1,
        all_zero(near),
        rows <= near.len(),
    ensures
        block_steps(ps, near, rows, c) == ps,
    decreases rows,
{
    if rows > 0 {
        lemma_block_steps_lone(ps, near, rows - 1, c);
        lemma_row_steps_lone(ps, near, rows - 1, near.len() as int, c);
    }
}

proof fn lemma_cell_lone(v: WorldView, x: int, y: int)
    requires
        lone_particle(v),
        0 <= x < v.width,
        0 <= y < v.height,
    ensures
        all_zero(v.cells[cell_index(x, y, v.height)]),
{
    assert(0 <= x * v.height + y < v.width * v.height) by (nonlinear_arith)
        requires 0 <= x < v.width, 0 <= y < v.height;
}

proof fn lemma_block_lone(v: WorldView, x: int, y: int)
    requires
        lone_particle(v),
        1 <= x < v.width - 1,
        1 <= y < v.height - 1,
    ensures
        all_zero(v.block(x, y)),
{
    let h = v.height;
    let c0 = v.cells[cell_index(x - 1, y - 1, h)];
    let c1 = v.cells[cell_index(x, y - 1, h)];
    let c2 = v.cells[cell_index(x + 1, y - 1, h)];
    let c3 = v.cells[cell_index(x - 1, y, h)];
    let c4 = v.cells[cell_index(x, y, h)];
    let c5 = v.cells[cell_index(x + 1, y, h)];
    let c6 = v.cells[cell_index(x - 1, y + 1, h)];
    let c7 = v.cells[cell_index(x, y + 1, h)];
    let c8 = v.cells[cell_index(x + 1, y + 1, h)];
    lemma_cell_lone(v, x - 1, y - 1);
    lemma_cell_lone(v, x, y - 1);
    lemma_cell_lone(v, x + 1, y - 1);
    lemma_cell_lone(v, x - 1, y);
    lemma_cell_lone(v, x, y);
    lemma_cell_lone(v, x + 1, y);
    lemma_cell_lone(v, x - 1, y + 1);
    lemma_cell_lone(v, x, y + 1);
    lemma_cell_lone(v, x + 1, y + 1);
    lemma_zero_concat(c0, c1);
    lemma_zero_concat(c0 + c1, c2);
    lemma_zero_concat(c0 + c1 + c2, c3);
    lemma_zero_concat(c0 + c1 + c2 + c3, c4);
    lemma_zero_concat(c0 + c1 + c2 + c3 + c4, c5);
    lemma_zero_concat(c0 + c1 + c2 + c3 + c4 + c5, c6);
    lemma_zero_concat(c0 + c1 + c2 + c3 + c4 + c5 + c6, c7);
    lemma_zero_concat(c0 + c1 + c2 + c3 + c4 + c5 + c6 + c7, c8);
}

proof fn lemma_grid_steps_lone(v: WorldView, ps: Seq<Particle>, x: int, c: StepConfig)
    requires
        lone_particle(v),
        ps.len() == 1,
        x <= v.width - 1,
    ensures
        grid_steps(v, ps, x, c) == ps,
    decreases x,
{
    if x > 1 {
        lemma_grid_steps_lone(v, ps, x - 1, c);
        lemma_column_steps_lone(v, ps, x - 1, v.height - 1, c);
    }
}

proof fn lemma_column_steps_lone(v: WorldView, ps: Seq<Particle>, x: int, y: int, c: StepConfig)
    requires
        lone_particle(v),
        ps.len() == 1,
        1 <= x < v.width - 1,
        y <= v.height - 1,
    ensures
        column_steps(v, ps, x, y, c) == ps,
    decreases y,
{
    if y > 1 {
        lemma_column_steps_lone(v, ps, x, y - 1, c);
        lemma_block_lone(v, x, y - 1);
        let near = v.block(x, y - 1);
        lemma_block_steps_lone(ps, near, near.len() as int, c);
    }
}

proof fn lemma_departures_lone(v: WorldView, upto: int)
    requires
        lone_particle(v),
        upto <= v.cells.len(),
    ensures
        all_zero(departures(v, upto)),
    decreases upto,
{
    if upto > 0 {
        lemma_departures_lone(v, upto - 1);
        lemma_zero_filter(v.cells[upto - 1], lies_outside(v, upto - 1));
        lemma_zero_concat(departures(v, upto - 1), v.cells[upto - 1].filter(lies_outside(v, upto - 1)));
    }
}

/// One sub-step leaves a lone particle at rest in the domain, under no
/// gravity, where it was, and the world still a lone-particle world.
proof fn lemma_lone_sub_step(v: WorldView, e: int, t: int, c: StepConfig)
    requires
        lone_particle(v),
        t >= 1,
        c.gravity_x == 0,
        c.gravity_y == 0,
        0 <= v.particles[0].x <= (v.width - 1) * UNIT,
        0 <= v.particles[0].y <= (v.height - 1) * UNIT,
        v.particles[0].px == v.particles[0].x,
        v.particles[0].py == v.particles[0].y,
        v.particles[0].ax == 0,
        v.particles[0].ay == 0,
    ensures
        stepped(v, e, t, c).particles == v.particles,
        lone_particle(stepped(v, e, t, c)),
{
    let p = v.particles[0];
    let pulled = with_particles(
        v,
        v.particles.map_values(|q: Particle| with_gravity(q, c.gravity_x as int, c.gravity_y as int)),
    );
    assert(with_gravity(p, 0, 0) == p);
    assert(pulled.particles =~= v.particles);
    assert(pulled == v);
    lemma_grid_steps_lone(v, v.particles, v.width - 1, c);
    assert(collided(pulled, c) == v.particles);
    rest_is_fixed_point(p, v.width, v.height, e, t);
    let after = collided(pulled, c).map_values(
        |q: Particle| integrated(bounded(q, v.width, v.height), e, t),
    );
    assert(after =~= v.particles);
    let moved = with_particles(v, after);
    assert(moved == v);
    let r = stepped(v, e, t, c);
    lemma_departures_lone(v, v.cells.len() as int);
    assert forall|k: int| 0 <= k < r.cells.len() implies all_zero(#[trigger] r.cells[k]) by {
        lemma_zero_filter(v.cells[k], lies_in(v, k));
        lemma_zero_filter(departures(v, v.cells.len() as int), lies_in(v, k));
        lemma_zero_concat(staying(v, k), departures(v, v.cells.len() as int).filter(lies_in(v, k)));
        assert(r.cells[k] == rebucketed(v, k));
    }
}

/// A lone particle at rest inside the domain, with no gravity, stays exactly
/// where it is over any number of sub-steps.
pub proof fn lone_particle_at_rest_stays(v: WorldView, e: int, t: int, c: StepConfig, k: nat)
    requires
        lone_particle(v),
        t >= 1,
        c.gravity_x == 0,
        c.gravity_y == 0,
        0 <= v.particles[0].x <= (v.width - 1) * UNIT,
        0 <= v.particles[0].y <= (v.height - 1) * UNIT,
        v.particles[0].px == v.particles[0].x,
        v.particles[0].py == v.particles[0].y,
        v.particles[0].ax == 0,
        v.particles[0].ay == 0,
    ensures
        ticked(v, e, t, c, k).particles == v.particles,
        lone_particle(ticked(v, e, t, c, k)),
        ticked(v, e, t, c, k).width == v.width,
        ticked(v, e, t, c, k).height == v.height,
    decreases k,
{
    if k > 0 {
        lone_particle_at_rest_stays(v, e, t, c, (k - 1) as nat);
        let prev = ticked(v, e, t, c, (k - 1) as nat);
        lemma_lone_sub_step(prev, e, t, c);
    }
}

} // verus!
