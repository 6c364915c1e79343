//! The particle grid and the bookkeeping of the particle world.

use vstd::prelude::*;
use crate::color::Color;
use crate::element::Element;
use crate::particle::{Particle, valid_decoration};

verus! {

/// What a cell of the grid holds.
#[derive(Debug, Clone, Copy, PartialEq, Eq, Structural)]
pub enum CellState {
    Empty,
    Occupied(usize),
    OutOfBounds,
}

/// How a new particle treats a particle already in its cell.
#[derive(Debug, Clone, Copy, PartialEq, Eq, Structural)]
pub enum ParticleSpawnMode {
    /// Both stay; the grid points at the new one.
    Overlap,
    /// The old one is killed.
    Override,
    /// The new one is only made in an empty cell.
    EmptyOnly,
}

/// What happens to particles at the edge of the world.
#[derive(Debug, Clone, Copy, PartialEq, Eq, Structural)]
pub enum Edge {
    Stop,
    Loop,
    Destroy,
}

/// A `width x height` grid of cells, each empty or holding the index of a particle, stored
/// row by row.
pub struct IndexGrid {
    pub width: usize,
    pub height: usize,
    pub cells: Vec<Option<usize>>,
}

impl View for IndexGrid {
    type V = Seq<Option<usize>>;

    /// The cells, row by row: cell `(x, y)` is at `x + y * width`.
    open spec fn view(&self) -> Seq<Option<usize>> {
        self.cells@
    }
}

/// The index of cell `(x, y)` in a row-by-row grid of the given width.
pub open spec fn flat_index(x: int, y: int, width: int) -> int {
    x + y * width
}

/// A grid whose every cell is empty.
pub open spec fn all_empty(cells: Seq<Option<usize>>) -> bool {
    forall|k: int| 0 <= k < cells.len() ==> #[trigger] cells[k] is None
}

/// The state of a cell given what the grid holds there.
pub open spec fn cell_state(c: Option<usize>) -> CellState {
    match c {
        Some(i) => CellState::Occupied(i),
        None => CellState::Empty,
    }
}

impl IndexGrid {
    /// The grid holds one cell per position.
    pub open spec fn wf(&self) -> bool {
        &&& self@.len() == self.width * self.height
        &&& self.width <= isize::MAX
        &&& self.height <= isize::MAX
    }

    /// The cell `(x, y)` is inside the grid, its bounds compared as `get` compares them.
    pub open spec fn in_bounds(&self, x: int, y: int) -> bool {
        0 <= x && 0 <= y && x < (self.width as isize) as int && y < (self.height as isize) as int
    }

    /// What `get` reports for `(x, y)`.
    pub open spec fn spec_get(&self, x: int, y: int) -> CellState {
        if !self.in_bounds(x, y) {
            CellState::OutOfBounds
        } else {
            cell_state(self@[flat_index(x, y, self.width as int)])
        }
    }

    /// An empty `width x height` grid.
    pub fn new(width: usize, height: usize) -> (g: Self)
        requires
            width * height <= usize::MAX,
            width <= isize::MAX,
            height <= isize::MAX,
        ensures
            g.wf(),
            g.width == width,
            g.height == height,
            all_empty(g@),
    {
        let n: usize = width * height;
        let cells = empty_cells(n);
        IndexGrid { width, height, cells }
    }

    /// What the cell `(x, y)` holds, or `OutOfBounds` off the grid.
    pub fn get(&self, x: isize, y: isize) -> (c: CellState)
        requires
            self.wf(),
        ensures
            c == self.spec_get(x as int, y as int),
    {
        if x < 0 || y < 0 || x >= self.width as isize || y >= self.height as isize {
            return CellState::OutOfBounds;
        }
        let n: usize = self.cells.len();
        proof {
            lemma_in_grid(x as int, y as int, self.width as int, self.height as int);
        }
        match self.cells[x as usize + (y as usize * self.width)] {
            Some(index) => CellState::Occupied(index),
            None => CellState::Empty,
        }
    }

    /// Stores `value` at `x + y * width` (the cell `(x, y)` when `x < width`).
    pub fn set(&mut self, x: usize, y: usize, value: Option<usize>)
        requires
            old(self).wf(),
            flat_index(x as int, y as int, old(self).width as int) < old(self)@.len(),
        ensures
            final(self).wf(),
            final(self).width == old(self).width,
            final(self).height == old(self).height,
            final(self)@ == old(self)@.update(flat_index(x as int, y as int, old(self).width as int), value),
    {
        proof {
            assert(0 <= y * self.width <= x + y * self.width) by (nonlinear_arith)
                requires
                    y >= 0,
                    self.width >= 0,
                    x >= 0,
            ;
        }
        let n: usize = self.cells.len();
        let k: usize = x + (y * self.width);
        self.cells.set(k, value);
    }

    /// Empties every cell.
    pub fn empty(&mut self)
        requires
            old(self).wf(),
        ensures
            final(self).wf(),
            final(self).width == old(self).width,
            final(self).height == old(self).height,
            all_empty(final(self)@),
    {
        let len: usize = self.cells.len();
        let n: usize = self.width * self.height;
        self.cells = empty_cells(n);
    }
}

/// `n` empty cells.
fn empty_cells(n: usize) -> (v: Vec<Option<usize>>)
    ensures
        v@.len() == n,
        all_empty(v@),
{
    let mut v: Vec<Option<usize>> = Vec::new();
    let mut i: usize = 0;
    while i < n
        invariant
            i <= n,
            v@.len() == i,
            all_empty(v@),
        decreases n - i,
    {
        v.push(None);
        i = i + 1;
    }
    v
}

/// A cell inside a `width x height` grid has its index inside the grid.
pub proof fn lemma_in_grid(x: int, y: int, width: int, height: int)
    requires
        0 <= x < width,
        0 <= y < height,
    ensures
        0 <= y * width,
        flat_index(x, y, width) < width * height,
{
    assert(0 <= y * width && x + y * width < width * height) by (nonlinear_arith)
        requires
            0 <= x < width,
            0 <= y < height,
    ;
}


/// The index in a grid of the given width of the cell that the particle occupies.
pub open spec fn cell_index<P>(p: Particle<P>, width: int) -> int {
    flat_index(p.grid_x as int, p.grid_y as int, width)
}

/// Particle `j` is alive and occupies the cell with index `k`.
pub open spec fn lands_at<P>(parts: Seq<Particle<P>>, width: int, j: int, k: int) -> bool {
    !parts[j].is_dead && cell_index(parts[j], width) == k
}

/// The last of the first `n` particles that is alive and occupies cell `k`, if any.
pub open spec fn last_lander<P>(parts: Seq<Particle<P>>, n: nat, width: int, k: int) -> Option<usize>
    decreases n,
{
    if n == 0 {
        None
    } else if lands_at(parts, width, n - 1, k) {
        Some((n - 1) as usize)
    } else {
        last_lander(parts, (n - 1) as nat, width, k)
    }
}

/// The particle marked dead, all else kept.
pub open spec fn killed<P>(p: Particle<P>) -> Particle<P> {
    Particle { is_dead: true, ..p }
}

/// The world's particles and grid after `kill_particle(index)`.
pub open spec fn kill_effect<P>(parts: Seq<Particle<P>>, cells: Seq<Option<usize>>, width: int, index: int) -> (
    Seq<Particle<P>>,
    Seq<Option<usize>>,
) {
    if parts[index].is_dead {
        (parts, cells)
    } else {
        (parts.update(index, killed(parts[index])), cells.update(cell_index(parts[index], width), None))
    }
}

/// The particles and grid after removing the dead among the first `n` particles, from the
/// last to the first: each dead one is replaced by the last particle, which the grid is
/// then told sits at its new index.
pub open spec fn cleanup_from<P>(parts: Seq<Particle<P>>, cells: Seq<Option<usize>>, width: int, n: nat) -> (
    Seq<Particle<P>>,
    Seq<Option<usize>>,
)
    decreases n,
{
    if n == 0 {
        (parts, cells)
    } else {
        let i = n - 1;
        if i < parts.len() && parts[i].is_dead {
            let rest = parts.update(i, parts.last()).drop_last();
            let cells2 = if i < rest.len() {
                cells.update(cell_index(rest[i], width), Some(i as usize))
            } else {
                cells
            };
            cleanup_from(rest, cells2, width, i as nat)
        } else {
            cleanup_from(parts, cells, width, i as nat)
        }
    }
}

/// The grid and the particles agree: a grid cell names particle `j` exactly when `j` is a
/// live particle that occupies that cell.
pub open spec fn grid_consistent<P>(parts: Seq<Particle<P>>, cells: Seq<Option<usize>>, width: int) -> bool {
    &&& forall|k: int|
        0 <= k < cells.len() && (#[trigger] cells[k]) is Some ==> {
            let j = cells[k].unwrap() as int;
            &&& j < parts.len()
            &&& lands_at(parts, width, j, k)
        }
    &&& forall|j: int|
        0 <= j < parts.len() && !(#[trigger] parts[j]).is_dead ==> {
            let k = cell_index(parts[j], width);
            &&& 0 <= k < cells.len()
            &&& cells[k] == Some(j as usize)
        }
}

/// What `try_move_particle` did.
#[derive(Debug, Clone, Copy, PartialEq, Eq, Structural)]
pub enum MoveOutcome {
    /// The particle moved into the target (an empty cell, or its own).
    Moved,
    /// The particle sank into the target, and the given lighter particle took its place.
    Swapped(usize),
    /// Nothing moved: the target is off the grid or holds a particle at least as heavy.
    Blocked,
}

/// The particles of the world, the grid that tells which particle is in which cell, what
/// happens at the edges, and the colour behind everything.
pub struct World<P> {
    pub particles_flat: Vec<Particle<P>>,
    pub particles_grid: IndexGrid,
    pub edge: Edge,
    pub background_color: Color,
}

impl<P: Copy> World<P> {
    /// The grid is well formed.
    pub open spec fn wf(&self) -> bool {
        self.particles_grid.wf()
    }

    /// Every live particle's cell is inside the grid's storage.
    pub open spec fn live_cells_in_grid(&self) -> bool {
        forall|i: int|
            0 <= i < self.particles_flat@.len() && !(#[trigger] self.particles_flat@[i]).is_dead ==> cell_index(
                self.particles_flat@[i],
                self.particles_grid.width as int,
            ) < self.particles_grid@.len()
    }

    /// Every index that the grid holds names a particle.
    pub open spec fn grid_indices_valid(&self) -> bool {
        forall|k: int|
            0 <= k < self.particles_grid@.len() && (#[trigger] self.particles_grid@[k]) is Some
                ==> self.particles_grid@[k].unwrap() < self.particles_flat@.len()
    }

    /// An empty `width x height` world with stopping edges and a dark grey background.
    pub fn new(width: usize, height: usize) -> (w: Self)
        requires
            width * height <= usize::MAX,
            width <= isize::MAX,
            height <= isize::MAX,
        ensures
            w.wf(),
            w.particles_flat@.len() == 0,
            w.particles_grid.width == width,
            w.particles_grid.height == height,
            all_empty(w.particles_grid@),
            w.edge == Edge::Stop,
            w.background_color == (Color { value: 0xFF1A1A1A }),
    {
        World {
            particles_flat: Vec::new(),
            particles_grid: IndexGrid::new(width, height),
            edge: Edge::Stop,
            background_color: Color { value: 0xFF1A1A1A },
        }
    }

    /// Rebuilds the grid from the particles: every cell holds the last live particle in it,
    /// or nothing.
    pub fn populate_grid(&mut self)
        requires
            old(self).wf(),
            old(self).live_cells_in_grid(),
        ensures
            final(self).wf(),
            final(self).particles_flat@ == old(self).particles_flat@,
            final(self).particles_grid.width == old(self).particles_grid.width,
            final(self).particles_grid.height == old(self).particles_grid.height,
            final(self).particles_grid@.len() == old(self).particles_grid@.len(),
            final(self).edge == old(self).edge,
            final(self).background_color == old(self).background_color,
            forall|k: int|
                0 <= k < final(self).particles_grid@.len() ==> #[trigger] final(self).particles_grid@[k]
                    == last_lander(
                    final(self).particles_flat@,
                    final(self).particles_flat@.len(),
                    final(self).particles_grid.width as int,
                    k,
                ),
    {
        self.particles_grid.empty();
        let n = self.particles_flat.len();
        let ghost w = self.particles_grid.width as int;
        let mut index: usize = 0;
        while index < n
            invariant
                index <= n,
                n == self.particles_flat@.len(),
                self.wf(),
                self.particles_flat@ == old(self).particles_flat@,
                self.particles_grid.width == old(self).particles_grid.width,
                self.particles_grid.height == old(self).particles_grid.height,
                self.particles_grid@.len() == old(self).particles_grid@.len(),
                self.edge == old(self).edge,
                self.background_color == old(self).background_color,
                w == self.particles_grid.width,
                self.live_cells_in_grid(),
                forall|k: int|
                    0 <= k < self.particles_grid@.len() ==> #[trigger] self.particles_grid@[k] == last_lander(
                        self.particles_flat@,
                        index as nat,
                        w,
                        k,
                    ),
            decreases n - index,
        {
            let particle = self.particles_flat[index];
            if !particle.is_dead {
                let gx = particle.get_grid_x();
                let gy = particle.get_grid_y();
                self.particles_grid.set(gx, gy, Some(index));
            }
            proof {
                assert forall|k: int|
                    0 <= k < self.particles_grid@.len() implies #[trigger] self.particles_grid@[k] == last_lander(
                    self.particles_flat@,
                    (index + 1) as nat,
                    w,
                    k,
                ) by {
                    assert(last_lander(self.particles_flat@, (index + 1) as nat, w, k) == if lands_at(
                        self.particles_flat@,
                        w,
                        index as int,
                        k,
                    ) {
                        Some(index)
                    } else {
                        last_lander(self.particles_flat@, index as nat, w, k)
                    });
                }
            }
            index = index + 1;
        }
    }

    /// Marks particle `index` dead and empties its cell, unless it is dead already.
    pub fn kill_particle(&mut self, index: usize)
        requires
            old(self).wf(),
            index < old(self).particles_flat@.len(),
            !old(self).particles_flat@[index as int].is_dead ==> cell_index(
                old(self).particles_flat@[index as int],
                old(self).particles_grid.width as int,
            ) < old(self).particles_grid@.len(),
        ensures
            final(self).wf(),
            (final(self).particles_flat@, final(self).particles_grid@) == kill_effect(
                old(self).particles_flat@,
                old(self).particles_grid@,
                old(self).particles_grid.width as int,
                index as int,
            ),
            final(self).particles_grid.width == old(self).particles_grid.width,
            final(self).particles_grid.height == old(self).particles_grid.height,
            final(self).edge == old(self).edge,
            final(self).background_color == old(self).background_color,
    {
        let particle = self.particles_flat[index];
        if particle.is_dead {
            return;
        }
        let mut p = particle;
        p.is_dead = true;
        self.particles_flat.set(index, p);
        let grid_x = p.get_grid_x();
        let grid_y = p.get_grid_y();
        self.particles_grid.set(grid_x, grid_y, None);
    }

    /// Kills the particle in cell `(grid_x, grid_y)`, if the cell holds one.
    pub fn kill_particle_at(&mut self, grid_x: isize, grid_y: isize)
        requires
            old(self).wf(),
            old(self).particles_grid.spec_get(grid_x as int, grid_y as int) matches CellState::Occupied(i) ==> {
                &&& i < old(self).particles_flat@.len()
                &&& !old(self).particles_flat@[i as int].is_dead ==> cell_index(
                    old(self).particles_flat@[i as int],
                    old(self).particles_grid.width as int,
                ) < old(self).particles_grid@.len()
            },
        ensures
            final(self).wf(),
            (final(self).particles_flat@, final(self).particles_grid@) == match old(self).particles_grid.spec_get(
                grid_x as int,
                grid_y as int,
            ) {
                CellState::Occupied(i) => kill_effect(
                    old(self).particles_flat@,
                    old(self).particles_grid@,
                    old(self).particles_grid.width as int,
                    i as int,
                ),
                _ => (old(self).particles_flat@, old(self).particles_grid@),
            },
            final(self).particles_grid.width == old(self).particles_grid.width,
            final(self).particles_grid.height == old(self).particles_grid.height,
            final(self).edge == old(self).edge,
            final(self).background_color == old(self).background_color,
    {
        if let CellState::Occupied(index) = self.particles_grid.get(grid_x, grid_y) {
            self.kill_particle(index);
        }
    }
}

/// `p` is the particle that `spawn_particle` makes: alive, of `element`, in a colour that
/// `decoration` can pick, with no sub-type, in cell `(grid_x, grid_y)`, carrying `body`.
pub open spec fn spawned<P>(p: Particle<P>, element: Element, body: P, grid_x: usize, grid_y: usize) -> bool {
    &&& p.element == element
    &&& valid_decoration(element, p.decoration)
    &&& p.sub_type == None::<Element>
    &&& !p.is_dead
    &&& p.grid_x == grid_x
    &&& p.grid_y == grid_y
    &&& p.body == body
}

/// The particle moved to the cell `(grid_x, grid_y)`, all else kept.
pub open spec fn moved_to<P>(p: Particle<P>, grid_x: usize, grid_y: usize) -> Particle<P> {
    Particle { grid_x, grid_y, ..p }
}

/// Particle `a` is strictly denser than particle `b`, so it sinks through it.
pub open spec fn denser<P>(a: Particle<P>, b: Particle<P>) -> bool {
    a.element.spec_density_per_mille() > b.element.spec_density_per_mille()
}

impl<P: Copy> World<P> {
    /// The particles and grid before a spawn, once an `Override` spawn has killed the
    /// particle in the target cell.
    pub open spec fn cleared_for_spawn(&self, cell_x: int, cell_y: int, mode: ParticleSpawnMode) -> (
        Seq<Particle<P>>,
        Seq<Option<usize>>,
    ) {
        match (mode, self.particles_grid.spec_get(cell_x, cell_y)) {
            (ParticleSpawnMode::Override, CellState::Occupied(i)) => kill_effect(
                self.particles_flat@,
                self.particles_grid@,
                self.particles_grid.width as int,
                i as int,
            ),
            _ => (self.particles_flat@, self.particles_grid@),
        }
    }

    /// Whether a spawn in `mode` at `(cell_x, cell_y)` adds a particle.
    pub open spec fn spawn_adds(&self, cell_x: int, cell_y: int, mode: ParticleSpawnMode) -> bool {
        mode != ParticleSpawnMode::EmptyOnly || self.particles_grid.spec_get(cell_x, cell_y) == CellState::Empty
    }

    /// Makes a particle of `element`, carrying `body`, whose position rounds to the cell
    /// `(grid_x, grid_y)` and lies in the cell `(cell_x, cell_y)`, and points that cell at it:
    /// on top of any particle there (`Overlap`), killing it first (`Override`), or only when
    /// the cell is empty (`EmptyOnly`).
    pub fn spawn_particle(
        &mut self,
        element: Element,
        body: P,
        cell_x: isize,
        cell_y: isize,
        grid_x: usize,
        grid_y: usize,
        particle_spawn_mode: ParticleSpawnMode,
    )
        requires
            old(self).wf(),
            old(self).particles_flat@.len() < usize::MAX,
            particle_spawn_mode != ParticleSpawnMode::EmptyOnly ==> {
                &&& 0 <= cell_x && 0 <= cell_y
                &&& flat_index(cell_x as int, cell_y as int, old(self).particles_grid.width as int)
                    < old(self).particles_grid@.len()
            },
            particle_spawn_mode == ParticleSpawnMode::Override ==> (old(self).particles_grid.spec_get(
                cell_x as int,
                cell_y as int,
            ) matches CellState::Occupied(i) ==> {
                &&& i < old(self).particles_flat@.len()
                &&& !old(self).particles_flat@[i as int].is_dead ==> cell_index(
                    old(self).particles_flat@[i as int],
                    old(self).particles_grid.width as int,
                ) < old(self).particles_grid@.len()
            }),
        ensures
            final(self).wf(),
            final(self).particles_grid.width == old(self).particles_grid.width,
            final(self).particles_grid.height == old(self).particles_grid.height,
            final(self).edge == old(self).edge,
            final(self).background_color == old(self).background_color,
            ({
                let (parts, cells) = old(self).cleared_for_spawn(cell_x as int, cell_y as int, particle_spawn_mode);
                if old(self).spawn_adds(cell_x as int, cell_y as int, particle_spawn_mode) {
                    &&& final(self).particles_flat@ == parts.push(final(self).particles_flat@.last())
                    &&& spawned(final(self).particles_flat@.last(), element, body, grid_x, grid_y)
                    &&& final(self).particles_grid@ == cells.update(
                        flat_index(cell_x as int, cell_y as int, old(self).particles_grid.width as int),
                        Some(parts.len() as usize),
                    )
                } else {
                    &&& final(self).particles_flat@ == parts
                    &&& final(self).particles_grid@ == cells
                }
            }),
    {
        match particle_spawn_mode {
            ParticleSpawnMode::Overlap => {
                self.particles_flat.push(Particle::new(element, grid_x, grid_y, body));
                let last = self.particles_flat.len() - 1;
                self.particles_grid.set(cell_x as usize, cell_y as usize, Some(last));
            },
            ParticleSpawnMode::Override => {
                self.kill_particle_at(cell_x, cell_y);
                self.particles_flat.push(Particle::new(element, grid_x, grid_y, body));
                let last = self.particles_flat.len() - 1;
                self.particles_grid.set(cell_x as usize, cell_y as usize, Some(last));
            },
            ParticleSpawnMode::EmptyOnly => {
                if self.particles_grid.get(cell_x, cell_y) == CellState::Empty {
                    proof {
                        lemma_in_grid(
                            cell_x as int,
                            cell_y as int,
                            self.particles_grid.width as int,
                            self.particles_grid.height as int,
                        );
                    }
                    self.particles_flat.push(Particle::new(element, grid_x, grid_y, body));
                    let last = self.particles_flat.len() - 1;
                    self.particles_grid.set(cell_x as usize, cell_y as usize, Some(last));
                }
            },
        }
    }
}


impl<P: Copy> World<P> {
    /// The particles, grid and outcome after `try_move_particle(index, cell_x, cell_y, ..)`
    /// for a particle whose position is to round to `(grid_x, grid_y)`.
    pub open spec fn move_effect(&self, index: int, cell_x: int, cell_y: int, grid_x: usize, grid_y: usize) -> (
        Seq<Particle<P>>,
        Seq<Option<usize>>,
        MoveOutcome,
    ) {
        let parts = self.particles_flat@;
        let cells = self.particles_grid@;
        let w = self.particles_grid.width as int;
        let p = parts[index];
        match self.particles_grid.spec_get(cell_x, cell_y) {
            CellState::Empty => (
                parts.update(index, moved_to(p, grid_x, grid_y)),
                cells.update(cell_index(p, w), None).update(flat_index(cell_x, cell_y, w), Some(index as usize)),
                MoveOutcome::Moved,
            ),
            CellState::Occupied(o) => if o == index {
                (parts.update(index, moved_to(p, grid_x, grid_y)), cells, MoveOutcome::Moved)
            } else if !denser(p, parts[o as int]) {
                (parts, cells, MoveOutcome::Blocked)
            } else {
                (
                    parts.update(index, moved_to(p, grid_x, grid_y)).update(
                        o as int,
                        moved_to(parts[o as int], p.grid_x, p.grid_y),
                    ),
                    cells.update(flat_index(cell_x, cell_y, w), Some(index as usize)).update(
                        cell_index(p, w),
                        Some(o),
                    ),
                    MoveOutcome::Swapped(o),
                )
            },
            CellState::OutOfBounds => (parts, cells, MoveOutcome::Blocked),
        }
    }

    /// A move of particle `index` into `(cell_x, cell_y)` would empty or overwrite the grid cell
    /// of the particle's current position.
    pub open spec fn move_touches_old_cell(&self, index: int, cell_x: int, cell_y: int) -> bool {
        match self.particles_grid.spec_get(cell_x, cell_y) {
            CellState::Empty => true,
            CellState::Occupied(o) => o != index && denser(self.particles_flat@[index], self.particles_flat@[o as int]),
            CellState::OutOfBounds => false,
        }
    }

    /// Tries to move particle `index` to a position in the cell `(cell_x, cell_y)` that rounds
    /// to the cell `(grid_x, grid_y)`: into an empty cell or its own cell it moves; into a
    /// cell of a lighter particle it sinks, the two trading places; into a cell of a particle
    /// at least as dense, or off the grid, it does not move.
    pub fn try_move_particle(&mut self, index: usize, cell_x: isize, cell_y: isize, grid_x: usize, grid_y: usize) -> (out: MoveOutcome)
        requires
            old(self).wf(),
            index < old(self).particles_flat@.len(),
            old(self).particles_grid.spec_get(cell_x as int, cell_y as int) matches CellState::Occupied(o) ==> o
                < old(self).particles_flat@.len(),
            old(self).move_touches_old_cell(index as int, cell_x as int, cell_y as int) ==> cell_index(
                old(self).particles_flat@[index as int],
                old(self).particles_grid.width as int,
            ) < old(self).particles_grid@.len(),
        ensures
            final(self).wf(),
            final(self).particles_grid.width == old(self).particles_grid.width,
            final(self).particles_grid.height == old(self).particles_grid.height,
            final(self).edge == old(self).edge,
            final(self).background_color == old(self).background_color,
            (final(self).particles_flat@, final(self).particles_grid@, out) == old(self).move_effect(
                index as int,
                cell_x as int,
                cell_y as int,
                grid_x,
                grid_y,
            ),
    {
        match self.particles_grid.get(cell_x, cell_y) {
            CellState::Empty => {
                proof {
                    lemma_in_grid(
                        cell_x as int,
                        cell_y as int,
                        self.particles_grid.width as int,
                        self.particles_grid.height as int,
                    );
                }
                let mut particle = self.particles_flat[index];
                let old_grid_x = particle.get_grid_x();
                let old_grid_y = particle.get_grid_y();
                particle.grid_x = grid_x;
                particle.grid_y = grid_y;
                self.particles_flat.set(index, particle);
                self.particles_grid.set(old_grid_x, old_grid_y, None);
                self.particles_grid.set(cell_x as usize, cell_y as usize, Some(index));
                MoveOutcome::Moved
            },
            CellState::Occupied(other_index) => {
                if index == other_index {
                    let mut particle = self.particles_flat[index];
                    particle.grid_x = grid_x;
                    particle.grid_y = grid_y;
                    self.particles_flat.set(index, particle);
                    return MoveOutcome::Moved;
                }
                let mut particle = self.particles_flat[index];
                let mut other_particle = self.particles_flat[other_index];
                if particle.element.density_per_mille() <= other_particle.element.density_per_mille() {
                    return MoveOutcome::Blocked;
                }
                proof {
                    lemma_in_grid(
                        cell_x as int,
                        cell_y as int,
                        self.particles_grid.width as int,
                        self.particles_grid.height as int,
                    );
                }
                let old_grid_x = particle.get_grid_x();
                let old_grid_y = particle.get_grid_y();
                particle.grid_x = grid_x;
                particle.grid_y = grid_y;
                other_particle.grid_x = old_grid_x;
                other_particle.grid_y = old_grid_y;
                self.particles_flat.set(index, particle);
                self.particles_flat.set(other_index, other_particle);
                self.particles_grid.set(cell_x as usize, cell_y as usize, Some(index));
                self.particles_grid.set(old_grid_x, old_grid_y, Some(other_index));
                MoveOutcome::Swapped(other_index)
            },
            CellState::OutOfBounds => MoveOutcome::Blocked,
        }
    }

    /// Removes the dead particles, from the last to the first: each dead one is replaced by
    /// the last particle, and the grid cell of the particle so moved is pointed at its new
    /// index.
    pub fn cleanup_dead_particles(&mut self)
        requires
            old(self).wf(),
            old(self).live_cells_in_grid(),
        ensures
            final(self).wf(),
            final(self).particles_grid.width == old(self).particles_grid.width,
            final(self).particles_grid.height == old(self).particles_grid.height,
            final(self).edge == old(self).edge,
            final(self).background_color == old(self).background_color,
            (final(self).particles_flat@, final(self).particles_grid@) == cleanup_from(
                old(self).particles_flat@,
                old(self).particles_grid@,
                old(self).particles_grid.width as int,
                old(self).particles_flat@.len(),
            ),
    {
        let ghost w = self.particles_grid.width as int;
        let ghost target = cleanup_from(
            self.particles_flat@,
            self.particles_grid@,
            w,
            self.particles_flat@.len(),
        );
        let mut i: usize = self.particles_flat.len();
        while i > 0
            invariant
                self.wf(),
                w == self.particles_grid.width,
                self.particles_grid.width == old(self).particles_grid.width,
                self.particles_grid.height == old(self).particles_grid.height,
                self.edge == old(self).edge,
                self.background_color == old(self).background_color,
                i <= self.particles_flat@.len(),
                self.live_cells_in_grid(),
                forall|k: int| i <= k < self.particles_flat@.len() ==> !(#[trigger] self.particles_flat@[k]).is_dead,
                cleanup_from(self.particles_flat@, self.particles_grid@, w, i as nat) == target,
            decreases i,
        {
            i = i - 1;
            if self.particles_flat[i].is_dead {
                let ghost before = self.particles_flat@;
                self.particles_flat.swap_remove(i);
                if i < self.particles_flat.len() {
                    let moved_particle = self.particles_flat[i];
                    assert(moved_particle == before[before.len() - 1]);
                    self.particles_grid.set(moved_particle.get_grid_x(), moved_particle.get_grid_y(), Some(i));
                }
                proof {
                    assert forall|k: int|
                        0 <= k < self.particles_flat@.len() && !(#[trigger] self.particles_flat@[k]).is_dead implies cell_index(
                        self.particles_flat@[k],
                        w,
                    ) < self.particles_grid@.len() by {
                        if k == i {
                            assert(self.particles_flat@[k] == before[before.len() - 1]);
                        } else {
                            assert(self.particles_flat@[k] == before[k]);
                        }
                    }
                }
            }
        }
        assert(cleanup_from(self.particles_flat@, self.particles_grid@, w, 0) == (self.particles_flat@, self.particles_grid@));
    }
}

} // verus!
