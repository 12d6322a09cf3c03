//! One tick of the simulation: a fixed number of sub-steps, each running the
//! gravity, collision, boundary and integration-and-rebucketing passes.

use vstd::prelude::*;
use crate::config::StepConfig;
use crate::fixed::{MAX_ACCEL, MAX_ELAPSED, UNIT};
use crate::particle::{
    apply_gravity, bounded, clamp_to_domain, integrate, integrated, resolve_contact, resolved,
    with_gravity, Particle,
};
use crate::world::{World, WorldView};

verus! {

broadcast use vstd::seq_lib::lemma_seq_contains_after_push;

/// Same dimensions, same cells and the same number of particles.
pub open spec fn same_grid(a: World, b: World) -> bool {
    &&& a.width == b.width
    &&& a.height == b.height
    &&& a.cells@.len() == b.cells@.len()
    &&& forall|c: int| 0 <= c < a.cells@.len() ==> #[trigger] a.cell(c) == b.cell(c)
    &&& a.particles@.len() == b.particles@.len()
}

/// A world with the grid of a well-shaped one, and particles within the
/// limits, is well-shaped.
proof fn lemma_same_grid_shape(a: World, b: World)
    requires
        a.shape_ok(),
        same_grid(a, b),
        forall|h: int| 0 <= h < b.particles@.len() ==> (#[trigger] b.particles@[h]).in_limits(),
    ensures
        b.shape_ok(),
{
    assert forall|c: int, i: int| 0 <= c < b.cells@.len() && 0 <= i < b.cell(c).len()
        implies (#[trigger] b.cell(c)[i]) < b.particles@.len() by {
        assert(a.cell(c) == b.cell(c));
        assert(a.cell(c)[i] < a.particles@.len());
    }
}

/// Adds the gravity `(gx, gy)` to the acceleration of every particle.
pub fn gravity_pass(world: &mut World, gx: i64, gy: i64)
    requires
        old(world).shape_ok(),
        old(world).accel_cleared(),
        -MAX_ACCEL <= gx <= MAX_ACCEL,
        -MAX_ACCEL <= gy <= MAX_ACCEL,
    ensures
        final(world).shape_ok(),
        same_grid(*old(world), *final(world)),
        final(world).cells == old(world).cells,
        forall|h: int| 0 <= h < final(world).particles@.len() ==> #[trigger] final(world).particles@[h]
            == with_gravity(old(world).particles@[h], gx as int, gy as int),
{
    let ghost w0 = *world;
    let n = world.particles.len();
    let mut i: usize = 0;
    while i < n
        invariant
            w0.shape_ok(),
            w0.accel_cleared(),
            -MAX_ACCEL <= gx <= MAX_ACCEL,
            -MAX_ACCEL <= gy <= MAX_ACCEL,
            i <= n,
            n == w0.particles@.len(),
            same_grid(w0, *world),
            world.cells == w0.cells,
            forall|h: int| 0 <= h < n ==> (#[trigger] world.particles@[h]).in_limits(),
            forall|h: int| 0 <= h < i ==> #[trigger] world.particles@[h]
                == with_gravity(w0.particles@[h], gx as int, gy as int),
            forall|h: int| i <= h < n ==> #[trigger] world.particles@[h] == w0.particles@[h],
        decreases n - i,
    {
        let mut p = world.particles[i];
        assert(w0.particles@[i as int].in_limits());
        apply_gravity(&mut p, gx, gy);
        world.particles.set(i, p);
        i = i + 1;
    }
    proof {
        lemma_same_grid_shape(w0, *world);
    }
}

/// Clamps every particle into the domain `[0, width - 1] x [0, height - 1]` (in cells).
pub fn boundary_pass(world: &mut World)
    requires
        old(world).shape_ok(),
    ensures
        final(world).shape_ok(),
        same_grid(*old(world), *final(world)),
        final(world).cells == old(world).cells,
        forall|h: int| 0 <= h < final(world).particles@.len() ==> #[trigger] final(world).particles@[h]
            == bounded(old(world).particles@[h], old(world).width as int, old(world).height as int),
{
    let ghost w0 = *world;
    let n = world.particles.len();
    let mut i: usize = 0;
    while i < n
        invariant
            w0.shape_ok(),
            i <= n,
            n == w0.particles@.len(),
            same_grid(w0, *world),
            world.cells == w0.cells,
            forall|h: int| 0 <= h < n ==> (#[trigger] world.particles@[h]).in_limits(),
            forall|h: int| 0 <= h < i ==> #[trigger] world.particles@[h]
                == bounded(w0.particles@[h], w0.width as int, w0.height as int),
            forall|h: int| i <= h < n ==> #[trigger] world.particles@[h] == w0.particles@[h],
        decreases n - i,
    {
        let mut p = world.particles[i];
        assert(w0.particles@[i as int].in_limits());
        clamp_to_domain(&mut p, world.width, world.height);
        world.particles.set(i, p);
        i = i + 1;
    }
    proof {
        lemma_same_grid_shape(w0, *world);
    }
}

/// Integrates every particle over one sub-step of `e / t` seconds.
pub fn integrate_pass(world: &mut World, e: u64, t: u64)
    requires
        old(world).shape_ok(),
        1 <= e <= MAX_ELAPSED,
        1 <= t <= 281474976710656,
    ensures
        final(world).shape_ok(),
        final(world).accel_cleared(),
        same_grid(*old(world), *final(world)),
        final(world).cells == old(world).cells,
        forall|h: int| 0 <= h < final(world).particles@.len() ==> #[trigger] final(world).particles@[h]
            == integrated(old(world).particles@[h], e as int, t as int),
{
    let ghost w0 = *world;
    let n = world.particles.len();
    let mut i: usize = 0;
    while i < n
        invariant
            w0.shape_ok(),
            1 <= e <= MAX_ELAPSED,
            1 <= t <= 281474976710656,
            i <= n,
            n == w0.particles@.len(),
            same_grid(w0, *world),
            world.cells == w0.cells,
            forall|h: int| 0 <= h < n ==> (#[trigger] world.particles@[h]).in_limits(),
            forall|h: int| 0 <= h < i ==> #[trigger] world.particles@[h]
                == integrated(w0.particles@[h], e as int, t as int),
            forall|h: int| i <= h < n ==> #[trigger] world.particles@[h] == w0.particles@[h],
        decreases n - i,
    {
        let mut p = world.particles[i];
        assert(w0.particles@[i as int].in_limits());
        integrate(&mut p, e, t);
        world.particles.set(i, p);
        i = i + 1;
    }
    proof {
        lemma_same_grid_shape(w0, *world);
    }
}

/// The particles after the contact of handles `a` and `b` is resolved.
pub open spec fn pair_step(ps: Seq<Particle>, a: usize, b: usize, c: StepConfig) -> Seq<Particle> {
    let r = resolved(ps[a as int], ps[b as int], c);
    ps.update(a as int, r.0).update(b as int, r.1)
}

/// The particles after resolving, in order, the pairs `(near[i], near[k])` for
/// `i < k < end`.
pub open spec fn row_steps(ps: Seq<Particle>, near: Seq<usize>, i: int, end: int, c: StepConfig) -> Seq<
    Particle,
>
    decreases end - i,
{
    if end <= i + 1 {
        ps
    } else {
        pair_step(row_steps(ps, near, i, end - 1, c), near[i], near[end - 1], c)
    }
}

/// The particles after resolving, in order, every pair `(near[i], near[k])`
/// with `i < rows` and `i < k`.
pub open spec fn block_steps(ps: Seq<Particle>, near: Seq<usize>, rows: int, c: StepConfig) -> Seq<
    Particle,
>
    decreases rows,
{
    if rows <= 0 {
        ps
    } else {
        row_steps(block_steps(ps, near, rows - 1, c), near, rows - 1, near.len() as int, c)
    }
}

/// Resolves the block of every centre `(x, y')` with `1 <= y' < y`.
pub open spec fn column_steps(grid: WorldView, ps: Seq<Particle>, x: int, y: int, c: StepConfig) -> Seq<
    Particle,
>
    decreases y,
{
    if y <= 1 {
        ps
    } else {
        let near = grid.block(x, y - 1);
        block_steps(column_steps(grid, ps, x, y - 1, c), near, near.len() as int, c)
    }
}

/// Resolves the blocks of every interior centre `(x', y)` with `1 <= x' < x`,
/// column by column.
pub open spec fn grid_steps(grid: WorldView, ps: Seq<Particle>, x: int, c: StepConfig) -> Seq<Particle>
    decreases x,
{
    if x <= 1 {
        ps
    } else {
        column_steps(grid, grid_steps(grid, ps, x - 1, c), x - 1, grid.height - 1, c)
    }
}

/// The particles after the collision pass over `grid`.
pub open spec fn collided(grid: WorldView, c: StepConfig) -> Seq<Particle> {
    grid_steps(grid, grid.particles, grid.width - 1, c)
}

pub open spec fn all_in_limits(ps: Seq<Particle>) -> bool {
    forall|h: int| 0 <= h < ps.len() ==> (#[trigger] ps[h]).in_limits()
}

/// Resolves every pair of the list `near`, in order.
fn resolve_block(world: &mut World, near: &Vec<usize>, c: &StepConfig)
    requires
        old(world).shape_ok(),
        c.wf(),
        forall|i: int| 0 <= i < near@.len() ==> #[trigger] near@[i] < old(world).particles@.len(),
    ensures
        final(world).shape_ok(),
        same_grid(*old(world), *final(world)),
        final(world).cells == old(world).cells,
        final(world).particles@ == block_steps(old(world).particles@, near@, near@.len() as int, *c),
{
    let ghost w0 = *world;
    let len = near.len();
    let mut i: usize = 0;
    while i < len
        invariant
            w0.shape_ok(),
            c.wf(),
            forall|j: int| 0 <= j < near@.len() ==> #[trigger] near@[j] < w0.particles@.len(),
            len == near@.len(),
            i <= len,
            same_grid(w0, *world),
            world.cells == w0.cells,
            all_in_limits(world.particles@),
            world.particles@ == block_steps(w0.particles@, near@, i as int, *c),
        decreases len - i,
    {
        let ghost before = world.particles@;
        let mut k: usize = i + 1;
        while k < len
            invariant
                c.wf(),
                forall|j: int| 0 <= j < near@.len() ==> #[trigger] near@[j] < w0.particles@.len(),
                len == near@.len(),
                i < len,
                i + 1 <= k <= len,
                same_grid(w0, *world),
                world.cells == w0.cells,
                all_in_limits(world.particles@),
                world.particles@ == row_steps(before, near@, i as int, k as int, *c),
            decreases len - k,
        {
            let a = near[i];
            let b = near[k];
            let pa = world.particles[a];
            let pb = world.particles[b];
            let r = resolve_contact(pa, pb, c);
            world.particles.set(a, r.0);
            world.particles.set(b, r.1);
            k = k + 1;
        }
        i = i + 1;
    }
    proof {
        lemma_same_grid_shape(w0, *world);
    }
}

/// Resolves contacts in the 3 by 3 block around every interior cell, centres
/// taken column by column. Cells on the outer ring are never centres, so two
/// particles that both lie there are never tested against each other. A pair
/// that falls in the blocks of several centres is resolved once per centre,
/// which makes contacts stiffer; no record of resolved pairs is kept.
pub fn collision_pass(world: &mut World, c: &StepConfig)
    requires
        old(world).shape_ok(),
        c.wf(),
    ensures
        final(world).shape_ok(),
        same_grid(*old(world), *final(world)),
        final(world).cells == old(world).cells,
        final(world).particles@ == collided(old(world)@, *c),
{
    let ghost w0 = *world;
    let mut x: usize = 1;
    while x + 1 < world.width
        invariant
            w0.shape_ok(),
            c.wf(),
            1 <= x,
            x + 1 <= world.width || x == 1,
            same_grid(w0, *world),
            world.cells == w0.cells,
            world.shape_ok(),
            world.particles@ == grid_steps(w0@, w0.particles@, x as int, *c),
        decreases world.width - x,
    {
        let ghost col = world.particles@;
        let mut y: usize = 1;
        while y + 1 < world.height
            invariant
                w0.shape_ok(),
                c.wf(),
                1 <= x < world.width - 1,
                1 <= y,
                y + 1 <= world.height || y == 1,
                same_grid(w0, *world),
                world.cells == w0.cells,
                world.shape_ok(),
                world.particles@ == column_steps(w0@, col, x as int, y as int, *c),
            decreases world.height - y,
        {
            let near = world.neighborhood(x, y);
            assert(world.block(x as int, y as int) == w0.block(x as int, y as int));
            resolve_block(world, &near, c);
            y = y + 1;
        }
        x = x + 1;
    }
}

/// Holds of the handles whose particle lies in cell `c`.
pub open spec fn lies_in(w: WorldView, c: int) -> spec_fn(usize) -> bool {
    |h: usize| w.home(w.particles[h as int]) == c
}

/// Holds of the handles whose particle lies outside cell `c`.
pub open spec fn lies_outside(w: WorldView, c: int) -> spec_fn(usize) -> bool {
    |h: usize| w.home(w.particles[h as int]) != c
}

/// The handles of cell `c` whose particle still lies in it, in order.
pub open spec fn staying(w: WorldView, c: int) -> Seq<usize> {
    w.cells[c].filter(lies_in(w, c))
}

/// The handles that leave the cells before `upto`, in cell order and, within
/// a cell, in stored order.
pub open spec fn departures(w: WorldView, upto: int) -> Seq<usize>
    decreases upto,
{
    if upto <= 0 {
        Seq::empty()
    } else {
        departures(w, upto - 1) + w.cells[upto - 1].filter(lies_outside(w, upto - 1))
    }
}

/// The cells after re-bucketing: cell `t` keeps, in order, the handles whose
/// particle still lies in it, followed by the departed handles whose particle
/// now lies in it, in order of departure.
pub open spec fn rebucketed(w: WorldView, t: int) -> Seq<usize> {
    staying(w, t) + departures(w, w.cells.len() as int).filter(lies_in(w, t))
}

/// Moves every particle whose cell no longer matches its position: first all
/// cells are traversed and the departing handles collected, then each is
/// appended to the cell of its position.
pub fn rebucket(world: &mut World)
    requires
        old(world).shape_ok(),
    ensures
        final(world).particles == old(world).particles,
        final(world).width == old(world).width,
        final(world).height == old(world).height,
        final(world).cells@.len() == old(world).cells@.len(),
        forall|t: int| 0 <= t < final(world).cells@.len() ==> #[trigger] final(world).cell(t)
            == rebucketed(old(world)@, t),
{
    broadcast use Seq::lemma_filter_push;
    let ghost w0 = *world;
    let ncells = world.cells.len();
    let mut fresh: Vec<Vec<usize>> = Vec::new();
    let mut movers: Vec<usize> = Vec::new();
    let mut c: usize = 0;
    while c < ncells
        invariant
            *world == w0,
            w0.shape_ok(),
            ncells == w0.cells@.len(),
            c <= ncells,
            fresh@.len() == c,
            forall|t: int| 0 <= t < c ==> (#[trigger] fresh@[t])@ == staying(w0@, t),
            movers@ == departures(w0@, c as int),
        decreases ncells - c,
    {
        let mut keep: Vec<usize> = Vec::new();
        let ghost m0 = movers@;
        let ghost cell = w0.cell(c as int);
        let len = world.cells[c].len();
        let mut i: usize = 0;
        while i < len
            invariant
                *world == w0,
                w0.shape_ok(),
                ncells == w0.cells@.len(),
                c < ncells,
                cell == w0.cell(c as int),
                len == cell.len(),
                i <= len,
                keep@ == cell.subrange(0, i as int).filter(lies_in(w0@, c as int)),
                movers@ == m0 + cell.subrange(0, i as int).filter(lies_outside(w0@, c as int)),
            decreases len - i,
        {
            let h = world.cells[c][i];
            assert(h == cell[i as int]);
            assert(cell[i as int] < w0.particles@.len());
            let hc = world.home_of(&world.particles[h]);
            if hc == c {
                keep.push(h);
            } else {
                movers.push(h);
            }
            proof {
                let pre = cell.subrange(0, i as int);
                assert(cell.subrange(0, i + 1) == pre.push(h));
                pre.lemma_filter_push(h, lies_in(w0@, c as int));
                pre.lemma_filter_push(h, lies_outside(w0@, c as int));
                assert(lies_in(w0@, c as int)(h) == (hc == c));
                assert(lies_outside(w0@, c as int)(h) == (hc != c));
            }
            i = i + 1;
        }
        assert(cell.subrange(0, len as int) == cell);
        fresh.push(keep);
        c = c + 1;
    }
    let ghost all = movers@;
    let nm = movers.len();
    let mut j: usize = 0;
    while j < nm
        invariant
            *world == w0,
            w0.shape_ok(),
            ncells == w0.cells@.len(),
            all == movers@,
            all == departures(w0@, ncells as int),
            nm == all.len(),
            j <= nm,
            fresh@.len() == ncells,
            forall|t: int| 0 <= t < ncells ==> (#[trigger] fresh@[t])@ == staying(w0@, t)
                + all.subrange(0, j as int).filter(lies_in(w0@, t)),
        decreases nm - j,
    {
        let h = movers[j];
        proof {
            lemma_departures_handles(w0, ncells as int, j as int);
        }
        let t = world.home_of(&world.particles[h]);
        let ghost before = fresh@;
        fresh[t].push(h);
        proof {
            let pre = all.subrange(0, j as int);
            assert(all.subrange(0, j + 1) == pre.push(h));
            assert forall|u: int| 0 <= u < ncells implies (#[trigger] fresh@[u])@ == staying(w0@, u)
                + all.subrange(0, j + 1).filter(lies_in(w0@, u)) by {
                pre.lemma_filter_push(h, lies_in(w0@, u));
                assert(lies_in(w0@, u)(h) == (t == u));
                if u != t {
                    assert(fresh@[u] == before[u]);
                }
            }
        }
        j = j + 1;
    }
    assert(all.subrange(0, nm as int) == all);
    world.cells = fresh;
}

/// Departed handles name particles.
proof fn lemma_departures_handles(w: World, upto: int, j: int)
    requires
        w.shape_ok(),
        0 <= upto <= w.cells@.len(),
        0 <= j < departures(w@, upto).len(),
    ensures
        departures(w@, upto)[j] < w.particles@.len(),
    decreases upto,
{
    let prev = departures(w@, upto - 1);
    let cur = w@.cells[upto - 1].filter(lies_outside(w@, upto - 1));
    if j < prev.len() {
        lemma_departures_handles(w, upto - 1, j);
    } else {
        let x = cur[j - prev.len()];
        assert(cur.contains(x));
        w@.cells[upto - 1].lemma_filter_contains_rev(lies_outside(w@, upto - 1), x);
        let k = choose|k: int| 0 <= k < w@.cells[upto - 1].len() && #[trigger] w@.cells[upto - 1][k] == x;
        assert(w@.cells[upto - 1] == w.cell(upto - 1));
        assert(w.cell(upto - 1)[k] < w.particles@.len());
    }
}

/// A handle that leaves cell `c < upto` is among the departures before `upto`.
proof fn lemma_departures_contains(w: World, upto: int, c: int, x: usize)
    requires
        0 <= c < upto,
        w@.cells[c].filter(lies_outside(w@, c)).contains(x),
    ensures
        departures(w@, upto).contains(x),
    decreases upto,
{
    broadcast use vstd::seq_lib::lemma_seq_concat_contains_all_elements;
    if c < upto - 1 {
        lemma_departures_contains(w, upto - 1, c, x);
    }
}

/// Every handle among the departures names a particle (index form).
proof fn lemma_departure_handle(w: World, x: usize)
    requires
        w.shape_ok(),
        departures(w@, w.cells@.len() as int).contains(x),
    ensures
        x < w.particles@.len(),
{
    let j = choose|j: int| 0 <= j < departures(w@, w.cells@.len() as int).len()
        && #[trigger] departures(w@, w.cells@.len() as int)[j] == x;
    lemma_departures_handles(w, w.cells@.len() as int, j);
}

/// Re-bucketing a world whose cells still hold every particle somewhere (as
/// they did in `start`, where each particle was in the cell of its position)
/// yields a world in which every particle is in the cell of its position.
proof fn lemma_rebucketed_ok(start: World, w: World, r: World)
    requires
        start.shape_ok(),
        start.buckets_ok(),
        same_grid(start, w),
        w.shape_ok(),
        r.particles == w.particles,
        r.width == w.width,
        r.height == w.height,
        r.cells@.len() == w.cells@.len(),
        forall|t: int| 0 <= t < r.cells@.len() ==> #[trigger] r.cell(t) == rebucketed(w@, t),
    ensures
        r.shape_ok(),
        r.buckets_ok(),
{
    broadcast use vstd::seq_lib::lemma_seq_concat_contains_all_elements;
    let n = w.particles@.len();
    let all = departures(w@, w.cells@.len() as int);
    assert forall|t: int, i: int| 0 <= t < r.cells@.len() && 0 <= i < r.cell(t).len()
        implies (#[trigger] r.cell(t)[i]) < r.particles@.len() && r.home(r.particles@[r.cell(t)[i] as int]) == t by {
        let x = r.cell(t)[i];
        let st = staying(w@, t);
        let dep = all.filter(lies_in(w@, t));
        if i < st.len() {
            assert(st[i] == x);
            w@.cells[t].lemma_filter_pred(lies_in(w@, t), i);
            assert(st.contains(x));
            w@.cells[t].lemma_filter_contains_rev(lies_in(w@, t), x);
            let k = choose|k: int| 0 <= k < w@.cells[t].len() && #[trigger] w@.cells[t][k] == x;
            assert(w@.cells[t] == w.cell(t));
            assert(w.cell(t)[k] < w.particles@.len());
        } else {
            assert(dep[i - st.len()] == x);
            all.lemma_filter_pred(lies_in(w@, t), i - st.len());
            assert(dep.contains(x));
            all.lemma_filter_contains_rev(lies_in(w@, t), x);
            lemma_departure_handle(w, x);
        }
    }
    assert forall|hh: usize| hh < r.particles@.len()
        implies #[trigger] r.cell(r.home(r.particles@[hh as int])).contains(hh) by {
        let h = hh as int;
        let c0 = start.home(start.particles@[h]);
        start.lemma_home_bound(start.particles@[h]);
        assert(start.cell(c0).contains(h as usize));
        assert(w@.cells[c0] == start.cell(c0));
        let k = choose|k: int| 0 <= k < w@.cells[c0].len() && #[trigger] w@.cells[c0][k] == h as usize;
        let t = w.home(w.particles@[h]);
        w.lemma_home_bound(w.particles@[h]);
        if t == c0 {
            w@.cells[c0].lemma_filter_contains(lies_in(w@, c0), k);
            assert(r.cell(t) == staying(w@, t) + all.filter(lies_in(w@, t)));
        } else {
            w@.cells[c0].lemma_filter_contains(lies_outside(w@, c0), k);
            lemma_departures_contains(w, w.cells@.len() as int, c0, h as usize);
            let j = choose|j: int| 0 <= j < all.len() && #[trigger] all[j] == h as usize;
            all.lemma_filter_contains(lies_in(w@, t), j);
            assert(r.cell(t) == staying(w@, t) + all.filter(lies_in(w@, t)));
        }
    }
    assert forall|h: int| 0 <= h < r.particles@.len() implies (#[trigger] r.particles@[h]).in_limits() by {
        assert(w.particles@[h].in_limits());
    }
}

/// Every particle's previous position, the position it had after the last
/// boundary pass, lies in the domain.
pub open spec fn settled_in_domain(w: World) -> bool {
    forall|h: int| 0 <= h < w.particles@.len() ==> {
        &&& 0 <= (#[trigger] w.particles@[h]).px <= (w.width - 1) * UNIT
        &&& 0 <= w.particles@[h].py <= (w.height - 1) * UNIT
    }
}

/// The view with its particles replaced.
pub open spec fn with_particles(v: WorldView, ps: Seq<Particle>) -> WorldView {
    WorldView { particles: ps, ..v }
}

/// The world after one sub-step of `e / t` seconds: gravity is added to every
/// particle, contacts are resolved, every particle is clamped into the domain
/// and integrated, and the cells are re-bucketed.
pub open spec fn stepped(v: WorldView, e: int, t: int, c: StepConfig) -> WorldView {
    let pulled = with_particles(
        v,
        v.particles.map_values(|p: Particle| with_gravity(p, c.gravity_x as int, c.gravity_y as int)),
    );
    let moved = with_particles(
        v,
        collided(pulled, c).map_values(|p: Particle| integrated(bounded(p, v.width, v.height), e, t)),
    );
    WorldView { cells: Seq::new(v.cells.len(), |k: int| rebucketed(moved, k)), ..moved }
}

/// The world after `k` sub-steps of `e / t` seconds.
pub open spec fn ticked(v: WorldView, e: int, t: int, c: StepConfig, k: nat) -> WorldView
    decreases k,
{
    if k == 0 {
        v
    } else {
        stepped(ticked(v, e, t, c, (k - 1) as nat), e, t, c)
    }
}

/// The length of one sub-step is `elapsed_units(elapsed) / step_divisor()` seconds.
pub open spec fn elapsed_units(elapsed: int) -> int {
    if elapsed < 1 {
        1
    } else {
        elapsed
    }
}

/// One sub-step of `e / t` seconds: gravity, collisions, boundary clamping,
/// then integration with re-bucketing.
pub fn sub_step(world: &mut World, e: u64, t: u64, c: &StepConfig)
    requires
        old(world).wf(),
        c.wf(),
        1 <= e <= MAX_ELAPSED,
        1 <= t <= 281474976710656,
    ensures
        final(world).wf(),
        final(world).width == old(world).width,
        final(world).height == old(world).height,
        final(world).particles@.len() == old(world).particles@.len(),
        settled_in_domain(*final(world)),
        final(world)@ == stepped(old(world)@, e as int, t as int, *c),
{
    let ghost start = *world;
    gravity_pass(world, c.gravity_x, c.gravity_y);
    let ghost w1 = *world;
    collision_pass(world, c);
    let ghost w2 = *world;
    boundary_pass(world);
    let ghost w3 = *world;
    integrate_pass(world, e, t);
    let ghost moved = *world;
    proof {
        assert forall|k: int| 0 <= k < start.cells@.len() implies #[trigger] start.cell(k) == moved.cell(k) by {
            assert(start.cell(k) == w1.cell(k));
            assert(w2.cell(k) == w3.cell(k));
            assert(w3.cell(k) == moved.cell(k));
        }
    }
    rebucket(world);
    proof {
        let v = start@;
        let pulled = with_particles(
            v,
            v.particles.map_values(|p: Particle| with_gravity(p, c.gravity_x as int, c.gravity_y as int)),
        );
        assert(w1@.particles =~= pulled.particles);
        assert(w1@ == pulled);
        let after = collided(pulled, *c).map_values(
            |p: Particle| integrated(bounded(p, v.width, v.height), e as int, t as int),
        );
        assert(moved@.particles =~= after);
        assert(moved@ == with_particles(v, after));
        assert forall|k: int| 0 <= k < world.cells@.len() implies #[trigger] world@.cells[k]
            == rebucketed(moved@, k) by {
            assert(world@.cells[k] == world.cell(k));
        }
        assert(world@.cells =~= Seq::new(v.cells.len(), |k: int| rebucketed(moved@, k)));
        lemma_rebucketed_ok(start, moved, *world);
        assert forall|h: int| 0 <= h < world.particles@.len() implies {
            &&& 0 <= (#[trigger] world.particles@[h]).px <= (world.width - 1) * UNIT
            &&& 0 <= world.particles@[h].py <= (world.height - 1) * UNIT
        } by {
            assert(moved.particles@[h] == integrated(w3.particles@[h], e as int, t as int));
            assert(w3.particles@[h] == bounded(w2.particles@[h], w2.width as int, w2.height as int));
        }
    }
}

/// Advances the world by `elapsed` time units (at least one): `sub_steps`
/// sub-steps of `max(elapsed, 1) / (time_scale * sub_steps)` seconds each.
pub fn tick(world: &mut World, elapsed: u64, c: &StepConfig)
    requires
        old(world).wf(),
        c.wf(),
        elapsed <= MAX_ELAPSED,
    ensures
        final(world).wf(),
        final(world).width == old(world).width,
        final(world).height == old(world).height,
        final(world).particles@.len() == old(world).particles@.len(),
        settled_in_domain(*final(world)),
        final(world)@ == ticked(
            old(world)@,
            elapsed_units(elapsed as int),
            c.step_divisor(),
            *c,
            c.sub_steps as nat,
        ),
{
    let e: u64 = if elapsed < 1 { 1 } else { elapsed };
    assert(c.sub_steps * c.time_scale <= 281474976710656) by (nonlinear_arith)
        requires 1 <= c.sub_steps <= 65536, 1 <= c.time_scale <= 4294967296u64;
    assert(c.sub_steps * c.time_scale >= 1) by (nonlinear_arith)
        requires 1 <= c.sub_steps, 1 <= c.time_scale;
    let t: u64 = c.sub_steps * c.time_scale;
    let ghost w0 = *world;
    let mut i: u64 = 0;
    while i < c.sub_steps
        invariant
            c.wf(),
            1 <= e <= MAX_ELAPSED,
            1 <= t <= 281474976710656,
            i <= c.sub_steps,
            world.wf(),
            world.width == w0.width,
            world.height == w0.height,
            world.particles@.len() == w0.particles@.len(),
            i >= 1 ==> settled_in_domain(*world),
            world@ == ticked(w0@, e as int, t as int, *c, i as nat),
        decreases c.sub_steps - i,
    {
        sub_step(world, e, t, c);
        i = i + 1;
    }
}

} // verus!
