//! The world: an arena of particles addressed by handle, and a grid whose
//! cells hold the handles of the particles inside them.

use vstd::prelude::*;
use crate::fixed::{cell_coord, cell_of, coord_ok, MAX_SIDE, UNIT};
use crate::particle::Particle;

verus! {

/// Particles live in `particles`, a handle being an index into it. Cell
/// `(x, y)` of the `width` by `height` grid is `cells[x * height + y]`, the
/// handles of the particles in it, in insertion order.
pub struct World {
    pub width: usize,
    pub height: usize,
    pub particles: Vec<Particle>,
    pub cells: Vec<Vec<usize>>,
}

/// What a world holds: its dimensions, its particles by handle, and the
/// handles stored in each cell.
pub struct WorldView {
    pub width: int,
    pub height: int,
    pub particles: Seq<Particle>,
    pub cells: Seq<Seq<usize>>,
}

impl WorldView {
    /// Index of the cell that holds particle `p`.
    pub open spec fn home(&self, p: Particle) -> int {
        cell_index(cell_coord(p.x as int, self.width), cell_coord(p.y as int, self.height), self.height)
    }

    /// The handles of the 3 by 3 block of cells centred on `(x, y)`, row by
    /// row from `y - 1` to `y + 1`, each row from `x - 1` to `x + 1`.
    pub open spec fn block(&self, x: int, y: int) -> Seq<usize> {
        let h = self.height;
        self.cells[cell_index(x - 1, y - 1, h)] + self.cells[cell_index(x, y - 1, h)]
            + self.cells[cell_index(x + 1, y - 1, h)] + self.cells[cell_index(x - 1, y, h)]
            + self.cells[cell_index(x, y, h)] + self.cells[cell_index(x + 1, y, h)]
            + self.cells[cell_index(x - 1, y + 1, h)] + self.cells[cell_index(x, y + 1, h)]
            + self.cells[cell_index(x + 1, y + 1, h)]
    }
}

impl View for World {
    type V = WorldView;

    open spec fn view(&self) -> WorldView {
        WorldView {
            width: self.width as int,
            height: self.height as int,
            particles: self.particles@,
            cells: self.cells@.map_values(|v: Vec<usize>| v@),
        }
    }
}

/// Index of cell `(x, y)` in a grid of the given height.
pub open spec fn cell_index(x: int, y: int, height: int) -> int {
    x * height + y
}

impl World {
    /// Index of the cell that holds particle `p`.
    pub open spec fn home(&self, p: Particle) -> int {
        self@.home(p)
    }

    /// Handles stored in cell index `c`.
    pub open spec fn cell(&self, c: int) -> Seq<usize> {
        self.cells@[c]@
    }

    /// Dimensions in range, one cell list per cell, every particle within the
    /// coordinate limits and every stored handle naming a particle.
    pub open spec fn shape_ok(&self) -> bool {
        &&& 1 <= self.width <= MAX_SIDE
        &&& 1 <= self.height <= MAX_SIDE
        &&& self.cells@.len() == self.width * self.height
        &&& forall|h: int| 0 <= h < self.particles@.len() ==> (#[trigger] self.particles@[h]).in_limits()
        &&& forall|c: int, i: int|
            0 <= c < self.cells@.len() && 0 <= i < self.cell(c).len()
                ==> (#[trigger] self.cell(c)[i]) < self.particles@.len()
    }

    /// Every particle is stored in the cell of its position, and every cell
    /// holds only particles whose position lies in it.
    pub open spec fn buckets_ok(&self) -> bool {
        &&& forall|h: usize|
            h < self.particles@.len() ==> #[trigger] self.cell(self.home(self.particles@[h as int])).contains(h)
        &&& forall|c: int, i: int|
            0 <= c < self.cells@.len() && 0 <= i < self.cell(c).len()
                ==> self.home(self.particles@[#[trigger] self.cell(c)[i] as int]) == c
    }

    /// No particle carries acceleration between sub-steps.
    pub open spec fn accel_cleared(&self) -> bool {
        forall|h: int| 0 <= h < self.particles@.len() ==> (#[trigger] self.particles@[h]).ax == 0 && self.particles@[h].ay == 0
    }

    /// The state of a world between ticks.
    pub open spec fn wf(&self) -> bool {
        self.shape_ok() && self.buckets_ok() && self.accel_cleared()
    }

    /// A particle that `add_particle` accepts: inside the grid, with its
    /// previous position within the coordinate limits and no acceleration.
    pub open spec fn spawnable(&self, p: Particle) -> bool {
        &&& 0 <= p.x < self.width * UNIT
        &&& 0 <= p.y < self.height * UNIT
        &&& coord_ok(p.px as int)
        &&& coord_ok(p.py as int)
        &&& p.ax == 0
        &&& p.ay == 0
    }

    /// An empty `width` by `height` world; `None` when a side is zero or larger
    /// than `MAX_SIDE`, or the cell count does not fit `usize`.
    pub fn new(width: usize, height: usize) -> (r: Option<World>)
        ensures
            r.is_some() <==> (1 <= width <= MAX_SIDE && 1 <= height <= MAX_SIDE
                && width * height <= usize::MAX),
            r matches Some(w) ==> {
                &&& w.wf()
                &&& w.width == width
                &&& w.height == height
                &&& w.particles@.len() == 0
                &&& forall|c: int| 0 <= c < w.cells@.len() ==> #[trigger] w.cell(c).len() == 0
            },
    {
        if width == 0 || width > MAX_SIDE || height == 0 || height > MAX_SIDE {
            return None;
        }
        let n: usize = match width.checked_mul(height) {
            Some(n) => n,
            None => return None,
        };
        let mut cells: Vec<Vec<usize>> = Vec::new();
        let mut i: usize = 0;
        while i < n
            invariant
                i <= n,
                cells@.len() == i,
                forall|c: int| 0 <= c < i ==> (#[trigger] cells@[c])@.len() == 0,
            decreases n - i,
        {
            cells.push(Vec::new());
            i = i + 1;
        }
        Some(World { width, height, particles: Vec::new(), cells })
    }

    /// The cell of any particle is a cell of the grid.
    pub proof fn lemma_home_bound(&self, p: Particle)
        requires
            1 <= self.width,
            1 <= self.height,
        ensures
            0 <= self.home(p) < self.width * self.height,
    {
        lemma_cell_index_bound(
            cell_coord(p.x as int, self.width as int),
            cell_coord(p.y as int, self.height as int),
            self.width as int,
            self.height as int,
        );
    }

    /// Index of the cell that holds `p`.
    pub fn home_of(&self, p: &Particle) -> (r: usize)
        requires
            self.shape_ok(),
        ensures
            r == self.home(*p),
            r < self.cells@.len(),
    {
        let ncells = self.cells.len();
        let x = cell_of(p.x, self.width);
        let y = cell_of(p.y, self.height);
        proof {
            lemma_cell_index_bound(x as int, y as int, self.width as int, self.height as int);
        }
        x * self.height + y
    }

    /// Index of cell `(x, y)`; every handle stored there names a particle.
    pub fn cell_at(&self, x: usize, y: usize) -> (r: usize)
        requires
            self.shape_ok(),
            x < self.width,
            y < self.height,
        ensures
            r == cell_index(x as int, y as int, self.height as int),
            r < self.cells@.len(),
            forall|i: int| 0 <= i < self.cells@[r as int]@.len()
                ==> #[trigger] self.cells@[r as int]@[i] < self.particles@.len(),
    {
        let ncells = self.cells.len();
        proof {
            lemma_cell_index_bound(x as int, y as int, self.width as int, self.height as int);
        }
        let r = x * self.height + y;
        assert forall|i: int| 0 <= i < self.cells@[r as int]@.len()
            implies #[trigger] self.cells@[r as int]@[i] < self.particles@.len() by {
            assert(self.cell(r as int)[i] == self.cells@[r as int]@[i]);
        }
        r
    }

    /// Adds a particle to the arena and to the cell of its position; returns its
    /// handle, or `None` (and changes nothing) when it is not spawnable.
    pub fn add_particle(&mut self, p: Particle) -> (r: Option<usize>)
        requires
            old(self).wf(),
        ensures
            final(self).wf(),
            r.is_some() <==> old(self).spawnable(p),
            r matches Some(h) ==> {
                &&& h == old(self).particles@.len()
                &&& final(self).particles@ == old(self).particles@.push(p)
                &&& final(self).cells@.len() == old(self).cells@.len()
                &&& final(self).cell(old(self).home(p)) == old(self).cell(old(self).home(p)).push(h)
                &&& forall|c: int| 0 <= c < old(self).cells@.len() && c != old(self).home(p)
                    ==> #[trigger] final(self).cell(c) == old(self).cell(c)
            },
            r.is_none() ==> *final(self) == *old(self),
            final(self).width == old(self).width,
            final(self).height == old(self).height,
    {
        if !(0 <= p.x && p.x / UNIT < self.width as i64 && 0 <= p.y && p.y / UNIT < self.height as i64
            && -crate::fixed::COORD_LIMIT <= p.px && p.px <= crate::fixed::COORD_LIMIT
            && -crate::fixed::COORD_LIMIT <= p.py && p.py <= crate::fixed::COORD_LIMIT
            && p.ax == 0 && p.ay == 0) {
            return None;
        }
        let h = self.particles.len();
        let c = self.home_of(&p);
        self.particles.push(p);
        self.cells[c].push(h);
        assert(self.cell(c as int) == old(self).cell(c as int).push(h));
        assert(forall|d: int| 0 <= d < self.cells@.len() && d != c ==> #[trigger] self.cell(d) == old(self).cell(d));
        assert(self.home(p) == c);
        assert forall|k: usize| k < self.particles@.len() implies
            #[trigger] self.cell(self.home(self.particles@[k as int])).contains(k) by {
            if k < h {
                let hk = old(self).home(old(self).particles@[k as int]);
                old(self).lemma_home_bound(old(self).particles@[k as int]);
                assert(self.particles@[k as int] == old(self).particles@[k as int]);
                assert(old(self).cell(hk).contains(k));
                let i = choose|i: int| 0 <= i < old(self).cell(hk).len() && old(self).cell(hk)[i] == k;
                assert(self.cell(hk)[i] == k);
            } else {
                assert(self.cell(c as int)[self.cell(c as int).len() - 1] == k);
            }
        }
        Some(h)
    }
}

impl World {
    /// The handles of the 3 by 3 block of cells centred on `(x, y)`.
    pub open spec fn block(&self, x: int, y: int) -> Seq<usize> {
        self@.block(x, y)
    }

    /// The contents of the 3 by 3 block centred on the interior cell `(x, y)`,
    /// in the order of `block`.
    pub fn neighborhood(&self, x: usize, y: usize) -> (r: Vec<usize>)
        requires
            self.shape_ok(),
            1 <= x < self.width - 1,
            1 <= y < self.height - 1,
        ensures
            r@ == self.block(x as int, y as int),
            forall|i: int| 0 <= i < r@.len() ==> #[trigger] r@[i] < self.particles@.len(),
    {
        let ghost n = self.particles@.len() as int;
        let mut out: Vec<usize> = Vec::new();
        append_cell(&mut out, &self.cells[self.cell_at(x - 1, y - 1)], Ghost(n));
        append_cell(&mut out, &self.cells[self.cell_at(x, y - 1)], Ghost(n));
        append_cell(&mut out, &self.cells[self.cell_at(x + 1, y - 1)], Ghost(n));
        append_cell(&mut out, &self.cells[self.cell_at(x - 1, y)], Ghost(n));
        append_cell(&mut out, &self.cells[self.cell_at(x, y)], Ghost(n));
        append_cell(&mut out, &self.cells[self.cell_at(x + 1, y)], Ghost(n));
        append_cell(&mut out, &self.cells[self.cell_at(x - 1, y + 1)], Ghost(n));
        append_cell(&mut out, &self.cells[self.cell_at(x, y + 1)], Ghost(n));
        append_cell(&mut out, &self.cells[self.cell_at(x + 1, y + 1)], Ghost(n));
        out
    }
}

/// Appends the handles of one cell.
fn append_cell(out: &mut Vec<usize>, cell: &Vec<usize>, Ghost(n): Ghost<int>)
    requires
        forall|i: int| 0 <= i < old(out)@.len() ==> #[trigger] old(out)@[i] < n,
        forall|i: int| 0 <= i < cell@.len() ==> #[trigger] cell@[i] < n,
    ensures
        final(out)@ == old(out)@ + cell@,
        forall|i: int| 0 <= i < final(out)@.len() ==> #[trigger] final(out)@[i] < n,
{
    let mut i: usize = 0;
    while i < cell.len()
        invariant
            i <= cell@.len(),
            out@ == old(out)@ + cell@.subrange(0, i as int),
        decreases cell@.len() - i,
    {
        out.push(cell[i]);
        i = i + 1;
        assert(cell@.subrange(0, i as int) == cell@.subrange(0, i - 1).push(cell@[i - 1]));
    }
    assert(cell@.subrange(0, cell@.len() as int) == cell@);
}

proof fn lemma_cell_index_bound(x: int, y: int, w: int, h: int)
    requires
        0 <= x < w,
        0 <= y < h,
    ensures
        0 <= x * h + y < w * h,
{
    assert(x * h + y < w * h) by (nonlinear_arith)
        requires 0 <= x < w, 0 <= y < h;
    assert(0 <= x * h) by (nonlinear_arith)
        requires 0 <= x, 0 <= h;
}

} // verus!
