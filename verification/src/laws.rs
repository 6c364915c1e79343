//! Properties that hold across the library's operations.

use vstd::prelude::*;
use crate::raster::{abs, step_toward, line_next, line_walk, line_points, line_inv, line_dist, steps_from, lemma_line_step};
use crate::color::{Color, pack, channel, lemma_pack_channels};
use crate::shape::{Shape, scaled, SIZE_MIN, SIZE_MAX};
use crate::world::{
    moved_to, denser,
    IndexGrid, World, CellState, MoveOutcome, ParticleSpawnMode, cell_state, flat_index, all_empty, lemma_in_grid,
    last_lander, lands_at, cleanup_from, kill_effect, cell_index, grid_consistent,
};
use crate::particle::{Particle, valid_decoration, decorated, shifted};
use crate::element::Element;
use crate::scan::{sorted_row_major, row_major_lt, edge, triangle_inside, in_box, box_oval_inside, radius_oval_inside};
use crate::raster::{in_triangle_box, triangle_cell, box_oval_cell, sat_sub, rect_cell};
use crate::tool::stroke_seq;
use crate::shape_utils::{
    oval_border_points, within_radii, mirror_closed, mp_first_end, mp_second_start, lemma_first_start,
    lemma_first_points_shape, lemma_second_points_shape, lemma_trunc_div4,
};

verus! {

/// Two cells are neighbours: different, and at most one apart along each axis.
pub open spec fn king_step(p: (int, int), q: (int, int)) -> bool {
    p != q && -1 <= p.0 - q.0 <= 1 && -1 <= p.1 - q.1 <= 1
}

/// `v` lies between `a` and `b`, ends included.
pub open spec fn between(a: int, v: int, b: int) -> bool {
    a <= v <= b || b <= v <= a
}

/// The larger of two integers.
pub open spec fn max2(a: int, b: int) -> int {
    if a >= b {
        a
    } else {
        b
    }
}

/// What the line walk from a reachable state produces: it starts at that state's cell, ends
/// at `(x1, y1)`, moves to a neighbouring cell at every step, never leaves the box between
/// the line's ends, and along the longer axis advances at every step.
proof fn lemma_walk(x: int, y: int, err: int, x0: int, y0: int, x1: int, y1: int, fuel: nat)
    requires
        line_inv(x, y, err, x0, y0, x1, y1),
        fuel >= line_dist(x, y, x1, y1),
    ensures
        ({
            let a = abs(x1 - x0);
            let b = abs(y1 - y0);
            let w = line_walk(x, y, err, x1, y1, a, -b, step_toward(x0, x1), step_toward(y0, y1), fuel);
            &&& w.len() >= 1
            &&& w[0] == (x, y)
            &&& w.last() == (x1, y1)
            &&& forall|i: int| 0 <= i < w.len() - 1 ==> king_step(#[trigger] w[i], w[i + 1])
            &&& forall|i: int| 0 <= i < w.len() ==> between(x0, (#[trigger] w[i]).0, x1) && between(y0, w[i].1, y1)
            &&& (a >= b && 2 * err >= -b) ==> w.len() == a - steps_from(x0, x, x1) + 1
            &&& (b > a && 2 * err <= a) ==> w.len() == b - steps_from(y0, y, y1) + 1
        }),
    decreases fuel,
{
    let a = abs(x1 - x0);
    let b = abs(y1 - y0);
    let sx = step_toward(x0, x1);
    let sy = step_toward(y0, y1);
    let w = line_walk(x, y, err, x1, y1, a, -b, sx, sy, fuel);
    if x == x1 && y == y1 {
        assert(w == seq![(x, y)]);
    } else {
        lemma_line_step(x, y, err, x0, y0, x1, y1);
        let n = line_next(x, y, err, a, -b, sx, sy);
        assert(fuel >= 1);
        lemma_walk(n.0, n.1, n.2, x0, y0, x1, y1, (fuel - 1) as nat);
        let rest = line_walk(n.0, n.1, n.2, x1, y1, a, -b, sx, sy, (fuel - 1) as nat);
        assert(w == seq![(x, y)] + rest);
        assert(w[0] == (x, y));
        assert(w.last() == rest.last());
        assert forall|i: int| 0 <= i < w.len() - 1 implies king_step(#[trigger] w[i], w[i + 1]) by {
            if i == 0 {
                assert(w[1] == rest[0]);
            } else {
                assert(w[i] == rest[i - 1]);
                assert(w[i + 1] == rest[i]);
            }
        }
        assert forall|i: int| 0 <= i < w.len() implies between(x0, (#[trigger] w[i]).0, x1) && between(y0, w[i].1, y1) by {
            if i > 0 {
                assert(w[i] == rest[i - 1]);
            }
        }
    }
}

/// A line starts at its first end and stops at its second.
pub proof fn lemma_line_ends(x0: int, y0: int, x1: int, y1: int)
    ensures
        line_points(x0, y0, x1, y1).len() >= 1,
        line_points(x0, y0, x1, y1)[0] == (x0, y0),
        line_points(x0, y0, x1, y1).last() == (x1, y1),
{
    lemma_line_start(x0, y0, x1, y1);
}

/// The first state of the line walk is reachable, and its fuel suffices.
proof fn lemma_line_start(x0: int, y0: int, x1: int, y1: int)
    ensures
        ({
            let a = abs(x1 - x0);
            let b = abs(y1 - y0);
            let w = line_points(x0, y0, x1, y1);
            &&& w.len() >= 1
            &&& w[0] == (x0, y0)
            &&& w.last() == (x1, y1)
            &&& forall|i: int| 0 <= i < w.len() - 1 ==> king_step(#[trigger] w[i], w[i + 1])
            &&& forall|i: int| 0 <= i < w.len() ==> between(x0, (#[trigger] w[i]).0, x1) && between(y0, w[i].1, y1)
            &&& w.len() == max2(a, b) + 1
        }),
{
    let a = abs(x1 - x0);
    let b = abs(y1 - y0);
    assert(a * (0 + 1) - b * (0 + 1) == a - b) by (nonlinear_arith);
    assert(line_inv(x0, y0, a - b, x0, y0, x1, y1));
    lemma_walk(x0, y0, a - b, x0, y0, x1, y1, (a + b) as nat);
}

/// Consecutive cells of a line are neighbours: a line has no gaps and no repeated steps.
pub proof fn lemma_line_connected(x0: int, y0: int, x1: int, y1: int)
    ensures
        forall|i: int|
            0 <= i < line_points(x0, y0, x1, y1).len() - 1 ==> king_step(
                #[trigger] line_points(x0, y0, x1, y1)[i],
                line_points(x0, y0, x1, y1)[i + 1],
            ),
{
    lemma_line_start(x0, y0, x1, y1);
}

/// A line has one cell more than the larger of its horizontal and vertical extents.
pub proof fn lemma_line_length(x0: int, y0: int, x1: int, y1: int)
    ensures
        line_points(x0, y0, x1, y1).len() == max2(abs(x1 - x0), abs(y1 - y0)) + 1,
{
    lemma_line_start(x0, y0, x1, y1);
}

/// Every cell of a line lies in the box spanned by its two ends.
pub proof fn lemma_line_cells_between(x0: int, y0: int, x1: int, y1: int)
    ensures
        forall|i: int|
            0 <= i < line_points(x0, y0, x1, y1).len() ==> {
                let p = #[trigger] line_points(x0, y0, x1, y1)[i];
                &&& (x0 <= p.0 <= x1 || x1 <= p.0 <= x0)
                &&& (y0 <= p.1 <= y1 || y1 <= p.1 <= y0)
            },
{
    lemma_line_start(x0, y0, x1, y1);
}


/// A colour made from four channels reads back those channels.
pub proof fn lemma_color_new_reads_back(r: u8, g: u8, b: u8, a: u8)
    ensures
        (Color { value: pack(a, r, g, b) as u32 }).alpha() == a,
        (Color { value: pack(a, r, g, b) as u32 }).red() == r,
        (Color { value: pack(a, r, g, b) as u32 }).green() == g,
        (Color { value: pack(a, r, g, b) as u32 }).blue() == b,
{
    lemma_pack_channels(a, r, g, b);
}

/// Every colour is the packing of its own four channels, so setting a channel to the value
/// it has changes nothing, and setting one channel leaves the other three as they were.
pub proof fn lemma_color_is_its_channels(c: Color)
    ensures
        pack(c.alpha(), c.red(), c.green(), c.blue()) == c.value,
{
    let v = c.value;
    assert(v == (v / 0x100_0000 % 0x100) * 0x100_0000 + (v / 0x1_0000 % 0x100) * 0x1_0000 + (v / 0x100
        % 0x100) * 0x100 + v % 0x100) by (bit_vector);
}

/// Inverting a colour twice, keeping alpha or not, gives the colour back.
pub proof fn lemma_invert_twice(c: Color, keep_alpha: bool)
    ensures
        ({
            let once = pack(
                if keep_alpha {
                    c.alpha()
                } else {
                    (255 - c.alpha()) as u8
                },
                (255 - c.red()) as u8,
                (255 - c.green()) as u8,
                (255 - c.blue()) as u8,
            );
            let d = Color { value: once as u32 };
            pack(
                if keep_alpha {
                    d.alpha()
                } else {
                    (255 - d.alpha()) as u8
                },
                (255 - d.red()) as u8,
                (255 - d.green()) as u8,
                (255 - d.blue()) as u8,
            ) == c.value
        }),
{
    let na: u8 = if keep_alpha {
        c.alpha()
    } else {
        (255 - c.alpha()) as u8
    };
    lemma_pack_channels(na, (255 - c.red()) as u8, (255 - c.green()) as u8, (255 - c.blue()) as u8);
    lemma_color_is_its_channels(c);
}

/// Cycling the shape forward then backwards, or backwards then forward, gives it back.
pub proof fn lemma_cycle_inverse(s: Shape)
    ensures
        s.next_kind().prev_kind() == s,
        s.prev_kind().next_kind() == s,
{
}

/// Three forward cycles give the shape back.
pub proof fn lemma_cycle_three(s: Shape)
    ensures
        s.next_kind().next_kind().next_kind() == s,
{
}

/// Cycling keeps the size.
pub proof fn lemma_cycle_keeps_size(s: Shape)
    ensures
        s.next_kind().width() == s.width() && s.next_kind().height() == s.height(),
        s.prev_kind().width() == s.width() && s.prev_kind().height() == s.height(),
{
}

/// Scaling always leaves an odd size between `SIZE_MIN` and `SIZE_MAX + 1`, whatever the
/// size and amount.
pub proof fn lemma_scaled_odd_in_range(size: usize, amount: isize)
    ensures
        SIZE_MIN <= scaled(size, amount) <= SIZE_MAX + 1,
        scaled(size, amount) % 2 == 1,
{
}

/// Scaling an odd size in range by 0 keeps it.
pub proof fn lemma_scale_by_zero(size: usize)
    requires
        SIZE_MIN <= size <= SIZE_MAX,
        size % 2 == 1,
    ensures
        scaled(size, 0) == size,
{
}

/// After writing a value into a cell of the grid, reading that cell gives it back, and every
/// other cell reads as before.
pub proof fn lemma_grid_set_then_get(g: IndexGrid, h: IndexGrid, x: int, y: int, value: Option<usize>, x2: int, y2: int)
    requires
        g.wf(),
        g.in_bounds(x, y),
        h.width == g.width,
        h.height == g.height,
        h@ == g@.update(flat_index(x, y, g.width as int), value),
    ensures
        h.wf(),
        h.spec_get(x, y) == cell_state(value),
        (x2, y2) != (x, y) ==> h.spec_get(x2, y2) == g.spec_get(x2, y2),
{
    lemma_in_grid(x, y, g.width as int, g.height as int);
    if g.in_bounds(x2, y2) && (x2, y2) != (x, y) {
        lemma_in_grid(x2, y2, g.width as int, g.height as int);
        assert(flat_index(x2, y2, g.width as int) != flat_index(x, y, g.width as int)) by (nonlinear_arith)
            requires
                0 <= x < g.width,
                0 <= x2 < g.width,
                (x2, y2) != (x, y),
        ;
    }
}

/// In an emptied grid every cell on the grid reads empty and every other reads out of bounds.
pub proof fn lemma_empty_grid_get(g: IndexGrid, x: int, y: int)
    requires
        g.wf(),
        all_empty(g@),
    ensures
        g.spec_get(x, y) == if g.in_bounds(x, y) {
            CellState::Empty
        } else {
            CellState::OutOfBounds
        },
{
    if g.in_bounds(x, y) {
        lemma_in_grid(x, y, g.width as int, g.height as int);
        assert(g@[flat_index(x, y, g.width as int)] is None);
    }
}


/// The last particle to land on a cell is one of the particles looked at, alive, in that cell.
pub proof fn lemma_last_lander_valid<P>(parts: Seq<Particle<P>>, n: nat, width: int, k: int)
    requires
        n <= parts.len(),
        n <= usize::MAX,
    ensures
        last_lander(parts, n, width, k) matches Some(i) ==> i < n && lands_at(parts, width, i as int, k),
        last_lander(parts, n, width, k) is None ==> forall|j: int| 0 <= j < n ==> !lands_at(parts, width, j, k),
    decreases n,
{
    if n > 0 {
        lemma_last_lander_valid(parts, (n - 1) as nat, width, k);
    }
}

/// After `populate_grid` every index in the grid names a live particle in that very cell, and
/// every cell of a live particle holds a particle.
pub proof fn lemma_populated_grid<P: Copy>(w: World<P>)
    requires
        w.wf(),
        w.particles_flat@.len() <= usize::MAX,
        forall|k: int|
            0 <= k < w.particles_grid@.len() ==> #[trigger] w.particles_grid@[k] == last_lander(
                w.particles_flat@,
                w.particles_flat@.len(),
                w.particles_grid.width as int,
                k,
            ),
    ensures
        w.grid_indices_valid(),
        forall|k: int|
            0 <= k < w.particles_grid@.len() && (#[trigger] w.particles_grid@[k]) is Some ==> lands_at(
                w.particles_flat@,
                w.particles_grid.width as int,
                w.particles_grid@[k].unwrap() as int,
                k,
            ),
        forall|j: int|
            0 <= j < w.particles_flat@.len() && !(#[trigger] w.particles_flat@[j]).is_dead && cell_index(
                w.particles_flat@[j],
                w.particles_grid.width as int,
            ) < w.particles_grid@.len() ==> w.particles_grid@[cell_index(
                w.particles_flat@[j],
                w.particles_grid.width as int,
            )] is Some,
{
    let parts = w.particles_flat@;
    let width = w.particles_grid.width as int;
    assert forall|k: int|
        0 <= k < w.particles_grid@.len() && (#[trigger] w.particles_grid@[k]) is Some implies w.particles_grid@[k].unwrap()
        < w.particles_flat@.len() && lands_at(parts, width, w.particles_grid@[k].unwrap() as int, k) by {
        lemma_last_lander_valid(parts, parts.len(), width, k);
    }
    assert forall|j: int|
        0 <= j < parts.len() && !(#[trigger] w.particles_flat@[j]).is_dead && cell_index(parts[j], width)
            < w.particles_grid@.len() implies w.particles_grid@[cell_index(parts[j], width)] is Some by {
        let k = cell_index(parts[j], width);
        lemma_last_lander_valid(parts, parts.len(), width, k);
        assert(lands_at(parts, width, j, k));
    }
}

/// Killing a particle twice is the same as killing it once.
pub proof fn lemma_kill_idempotent<P>(parts: Seq<Particle<P>>, cells: Seq<Option<usize>>, width: int, index: int)
    requires
        0 <= index < parts.len(),
    ensures
        ({
            let once = kill_effect(parts, cells, width, index);
            kill_effect(once.0, once.1, width, index) == once
        }),
{
}

/// Killing keeps the number of particles and every index that the grid holds valid.
pub proof fn lemma_kill_keeps_indices<P: Copy>(w: World<P>, index: int)
    requires
        w.wf(),
        w.grid_indices_valid(),
        0 <= index < w.particles_flat@.len(),
        !w.particles_flat@[index].is_dead ==> cell_index(w.particles_flat@[index], w.particles_grid.width as int)
            < w.particles_grid@.len(),
    ensures
        ({
            let e = kill_effect(w.particles_flat@, w.particles_grid@, w.particles_grid.width as int, index);
            &&& e.0.len() == w.particles_flat@.len()
            &&& forall|k: int| 0 <= k < e.1.len() && (#[trigger] e.1[k]) is Some ==> e.1[k].unwrap() < e.0.len()
        }),
{
    let parts = w.particles_flat@;
    let cells = w.particles_grid@;
    let e = kill_effect(parts, cells, w.particles_grid.width as int, index);
    if !parts[index].is_dead {
        let c = cell_index(parts[index], w.particles_grid.width as int);
        assert(e.1 == cells.update(c, None));
        assert(e.1.len() == cells.len());
        assert forall|k: int| 0 <= k < e.1.len() && (#[trigger] e.1[k]) is Some implies e.1[k].unwrap() < e.0.len() by {
            if k != c {
                assert(e.1[k] == cells[k]);
            }
        }
    }
}

/// A move never makes or destroys particles, and changes nothing about them but their cells:
/// the elements, colours, states and bodies stay at their indices. A blocked move changes
/// nothing at all. Every index the grid holds stays valid.
pub proof fn lemma_move_keeps_particles<P: Copy>(
    w: World<P>,
    index: int,
    cell_x: int,
    cell_y: int,
    grid_x: usize,
    grid_y: usize,
)
    requires
        w.wf(),
        w.grid_indices_valid(),
        w.particles_flat@.len() <= usize::MAX,
        0 <= index < w.particles_flat@.len(),
        w.particles_grid.spec_get(cell_x, cell_y) matches CellState::Occupied(o) ==> o < w.particles_flat@.len(),
        w.move_touches_old_cell(index, cell_x, cell_y) ==> cell_index(
            w.particles_flat@[index],
            w.particles_grid.width as int,
        ) < w.particles_grid@.len(),
    ensures
        ({
            let (parts, cells, out) = w.move_effect(index, cell_x, cell_y, grid_x, grid_y);
            &&& parts.len() == w.particles_flat@.len()
            &&& forall|k: int|
                0 <= k < parts.len() ==> (#[trigger] parts[k]).element == w.particles_flat@[k].element
                    && parts[k].decoration == w.particles_flat@[k].decoration && parts[k].sub_type
                    == w.particles_flat@[k].sub_type && parts[k].is_dead == w.particles_flat@[k].is_dead
                    && parts[k].body == w.particles_flat@[k].body
            &&& out == MoveOutcome::Blocked ==> parts == w.particles_flat@ && cells == w.particles_grid@
            &&& forall|k: int| 0 <= k < cells.len() && (#[trigger] cells[k]) is Some ==> cells[k].unwrap() < parts.len()
        }),
{
    let (parts, cells, out) = w.move_effect(index, cell_x, cell_y, grid_x, grid_y);
    let old_cells = w.particles_grid@;
    let width = w.particles_grid.width as int;
    let f = flat_index(cell_x, cell_y, width);
    let c = cell_index(w.particles_flat@[index], width);
    if w.particles_grid.in_bounds(cell_x, cell_y) {
        lemma_in_grid(cell_x, cell_y, width, w.particles_grid.height as int);
    }
    assert forall|k: int| 0 <= k < cells.len() && (#[trigger] cells[k]) is Some implies cells[k].unwrap() < parts.len() by {
        if k != f && k != c {
            assert(cells[k] == old_cells[k]);
        }
    }
}

/// Spawning keeps every index the grid holds valid.
pub proof fn lemma_spawn_keeps_indices<P: Copy>(
    w: World<P>,
    cell_x: int,
    cell_y: int,
    mode: ParticleSpawnMode,
    new_parts: Seq<Particle<P>>,
    new_cells: Seq<Option<usize>>,
)
    requires
        w.wf(),
        w.grid_indices_valid(),
        ({
            let (parts, cells) = w.cleared_for_spawn(cell_x, cell_y, mode);
            if w.spawn_adds(cell_x, cell_y, mode) {
                &&& new_parts == parts.push(new_parts.last())
                &&& new_cells == cells.update(flat_index(cell_x, cell_y, w.particles_grid.width as int), Some(parts.len() as usize))
                &&& parts.len() < usize::MAX
            } else {
                &&& new_parts == parts
                &&& new_cells == cells
            }
        }),
        mode != ParticleSpawnMode::EmptyOnly ==> {
            &&& 0 <= cell_x && 0 <= cell_y
            &&& flat_index(cell_x, cell_y, w.particles_grid.width as int) < w.particles_grid@.len()
        },
        mode == ParticleSpawnMode::Override ==> (w.particles_grid.spec_get(cell_x, cell_y) matches CellState::Occupied(
            i,
        ) ==> {
            &&& i < w.particles_flat@.len()
            &&& !w.particles_flat@[i as int].is_dead ==> cell_index(
                w.particles_flat@[i as int],
                w.particles_grid.width as int,
            ) < w.particles_grid@.len()
        }),
    ensures
        forall|k: int| 0 <= k < new_cells.len() && (#[trigger] new_cells[k]) is Some ==> new_cells[k].unwrap() < new_parts.len(),
{
    let (parts, cells) = w.cleared_for_spawn(cell_x, cell_y, mode);
    let width = w.particles_grid.width as int;
    if w.particles_grid.in_bounds(cell_x, cell_y) {
        lemma_in_grid(cell_x, cell_y, width, w.particles_grid.height as int);
    }
    assert(parts.len() == w.particles_flat@.len());
    if let CellState::Occupied(i) = w.particles_grid.spec_get(cell_x, cell_y) {
        if mode == ParticleSpawnMode::Override {
            lemma_kill_keeps_indices(w, i as int);
        }
    }
    assert(cells.len() == w.particles_grid@.len());
    assert forall|k: int| 0 <= k < cells.len() && (#[trigger] cells[k]) is Some implies cells[k].unwrap() < parts.len() by {
    }
    if w.spawn_adds(cell_x, cell_y, mode) {
        let f = flat_index(cell_x, cell_y, w.particles_grid.width as int);
        assert forall|k: int| 0 <= k < new_cells.len() && (#[trigger] new_cells[k]) is Some implies new_cells[k].unwrap()
            < new_parts.len() by {
            if k != f {
                assert(new_cells[k] == cells[k]);
            }
        }
    }
}

/// After removing dead particles from the last `len - n` positions onwards, given that the
/// particles from `n` on are alive: none of the result is dead, and every live particle
/// occurs in the result as often as before.
proof fn lemma_cleanup_from<P>(parts: Seq<Particle<P>>, cells: Seq<Option<usize>>, width: int, n: nat)
    requires
        n <= parts.len(),
        forall|k: int| n <= k < parts.len() ==> !(#[trigger] parts[k]).is_dead,
    ensures
        ({
            let r = cleanup_from(parts, cells, width, n).0;
            &&& forall|k: int| 0 <= k < r.len() ==> !(#[trigger] r[k]).is_dead
            &&& forall|x: Particle<P>| !x.is_dead ==> #[trigger] r.to_multiset().count(x) == parts.to_multiset().count(x)
        }),
    decreases n,
{
    broadcast use vstd::seq_lib::group_to_multiset_ensures;
    if n > 0 {
        let i = n - 1;
        if parts[i].is_dead {
            let rest = parts.update(i, parts.last()).drop_last();
            let cells2 = if i < rest.len() {
                cells.update(cell_index(rest[i], width), Some(i as usize))
            } else {
                cells
            };
            assert forall|k: int| i <= k < rest.len() implies !(#[trigger] rest[k]).is_dead by {
                if k == i {
                    assert(rest[k] == parts[parts.len() - 1]);
                } else {
                    assert(rest[k] == parts[k]);
                }
            }
            lemma_cleanup_from(rest, cells2, width, i as nat);
            let upd = parts.update(i, parts.last());
            vstd::seq_lib::to_multiset_update(parts, i, parts.last());
            assert(rest =~= upd.remove(upd.len() - 1));
            vstd::seq_lib::to_multiset_remove(upd, upd.len() - 1);
            assert forall|x: Particle<P>| !x.is_dead implies #[trigger] rest.to_multiset().count(x) == parts.to_multiset().count(x) by {
                assert(x != parts[i]);
            }
        } else {
            lemma_cleanup_from(parts, cells, width, i as nat);
        }
    }
}

/// Removing the dead among the first `n` particles keeps the grid and the particles in
/// agreement, given that the particles from `n` on are alive.
proof fn lemma_cleanup_from_consistent<P>(parts: Seq<Particle<P>>, cells: Seq<Option<usize>>, width: int, n: nat)
    requires
        n <= parts.len() <= usize::MAX,
        forall|k: int| n <= k < parts.len() ==> !(#[trigger] parts[k]).is_dead,
        grid_consistent(parts, cells, width),
    ensures
        ({
            let r = cleanup_from(parts, cells, width, n);
            grid_consistent(r.0, r.1, width)
        }),
    decreases n,
{
    if n > 0 {
        let i = n - 1;
        if parts[i].is_dead {
            let last = parts.len() - 1;
            let rest = parts.update(i, parts.last()).drop_last();
            let cells2 = if i < rest.len() {
                cells.update(cell_index(rest[i], width), Some(i as usize))
            } else {
                cells
            };
            assert forall|k: int| i <= k < rest.len() implies !(#[trigger] rest[k]).is_dead by {
                if k == i {
                    assert(rest[k] == parts[last]);
                } else {
                    assert(rest[k] == parts[k]);
                }
            }
            if i < rest.len() {
                let ci = cell_index(parts[last], width);
                assert(!parts[last].is_dead);
                assert(cells[ci] == Some(last as usize));
                assert forall|k: int| 0 <= k < cells2.len() && (#[trigger] cells2[k]) is Some implies {
                    let j = cells2[k].unwrap() as int;
                    &&& j < rest.len()
                    &&& lands_at(rest, width, j, k)
                } by {
                    if k != ci {
                        let j = cells[k].unwrap() as int;
                        assert(cells2[k] == cells[k]);
                        assert(lands_at(parts, width, j, k));
                        assert(j != i);
                        assert(j != last);
                        assert(rest[j] == parts[j]);
                    } else {
                        assert(rest[i] == parts[last]);
                    }
                }
                assert forall|j: int| 0 <= j < rest.len() && !(#[trigger] rest[j]).is_dead implies {
                    let k = cell_index(rest[j], width);
                    &&& 0 <= k < cells2.len()
                    &&& cells2[k] == Some(j as usize)
                } by {
                    if j != i {
                        assert(rest[j] == parts[j]);
                        let k = cell_index(parts[j], width);
                        assert(cells[k] == Some(j as usize));
                        assert(k != ci);
                    } else {
                        assert(rest[i] == parts[last]);
                    }
                }
            } else {
                assert forall|k: int| 0 <= k < cells2.len() && (#[trigger] cells2[k]) is Some implies {
                    let j = cells2[k].unwrap() as int;
                    &&& j < rest.len()
                    &&& lands_at(rest, width, j, k)
                } by {
                    let j = cells[k].unwrap() as int;
                    assert(lands_at(parts, width, j, k));
                    assert(j != last);
                    assert(rest[j] == parts[j]);
                }
                assert forall|j: int| 0 <= j < rest.len() && !(#[trigger] rest[j]).is_dead implies {
                    let k = cell_index(rest[j], width);
                    &&& 0 <= k < cells2.len()
                    &&& cells2[k] == Some(j as usize)
                } by {
                    assert(rest[j] == parts[j]);
                }
            }
            lemma_cleanup_from_consistent(rest, cells2, width, i as nat);
        } else {
            lemma_cleanup_from_consistent(parts, cells, width, i as nat);
        }
    }
}

/// Removing the dead particles keeps the grid and the particles in agreement: afterwards a
/// grid cell names particle `j` exactly when `j` is a live particle in that cell.
pub proof fn lemma_cleanup_keeps_grid_consistent<P>(parts: Seq<Particle<P>>, cells: Seq<Option<usize>>, width: int)
    requires
        parts.len() <= usize::MAX,
        grid_consistent(parts, cells, width),
    ensures
        ({
            let r = cleanup_from(parts, cells, width, parts.len());
            grid_consistent(r.0, r.1, width)
        }),
{
    lemma_cleanup_from_consistent(parts, cells, width, parts.len());
}

/// After `cleanup_dead_particles` no particle is dead, and the particles are exactly the live
/// ones from before, each as often as before (in another order).
pub proof fn lemma_cleanup_removes_only_dead<P>(parts: Seq<Particle<P>>, cells: Seq<Option<usize>>, width: int)
    ensures
        ({
            let r = cleanup_from(parts, cells, width, parts.len()).0;
            &&& forall|k: int| 0 <= k < r.len() ==> !(#[trigger] r[k]).is_dead
            &&& forall|x: Particle<P>| !x.is_dead ==> #[trigger] r.to_multiset().count(x) == parts.to_multiset().count(x)
        }),
{
    lemma_cleanup_from(parts, cells, width, parts.len());
}


/// Two row-major sorted lists of cells with the same cells are the same list: the
/// rasterisers' contracts (sorted, with a given set of cells) fix their results completely.
pub proof fn lemma_row_major_unique(s1: Seq<(int, int)>, s2: Seq<(int, int)>)
    requires
        sorted_row_major(s1),
        sorted_row_major(s2),
        forall|p: (int, int)| s1.contains(p) <==> s2.contains(p),
    ensures
        s1 == s2,
    decreases s1.len(),
{
    if s1.len() == 0 {
        if s2.len() > 0 {
            assert(s2.contains(s2[0]));
        }
        assert(s1 =~= s2);
    } else {
        assert(s1.contains(s1[0]));
        let j = choose|j: int| 0 <= j < s2.len() && s2[j] == s1[0];
        assert(s2.contains(s2[0]));
        let i = choose|i: int| 0 <= i < s1.len() && s1[i] == s2[0];
        if j > 0 {
            assert(row_major_lt(s2[0], s2[j]));
            if i > 0 {
                assert(row_major_lt(s1[0], s1[i]));
            }
            assert(false);
        }
        let t1 = s1.drop_first();
        let t2 = s2.drop_first();
        assert forall|a: int, b: int| 0 <= a < b < t1.len() implies row_major_lt(#[trigger] t1[a], #[trigger] t1[b]) by {
            assert(row_major_lt(s1[a + 1], s1[b + 1]));
        }
        assert forall|a: int, b: int| 0 <= a < b < t2.len() implies row_major_lt(#[trigger] t2[a], #[trigger] t2[b]) by {
            assert(row_major_lt(s2[a + 1], s2[b + 1]));
        }
        assert forall|p: (int, int)| t1.contains(p) <==> t2.contains(p) by {
            if t1.contains(p) {
                let a = choose|a: int| 0 <= a < t1.len() && t1[a] == p;
                assert(row_major_lt(s1[0], s1[a + 1]));
                assert(s1.contains(p));
                let b = choose|b: int| 0 <= b < s2.len() && s2[b] == p;
                assert(b != 0);
                assert(t2[b - 1] == p);
            }
            if t2.contains(p) {
                let a = choose|a: int| 0 <= a < t2.len() && t2[a] == p;
                assert(row_major_lt(s2[0], s2[a + 1]));
                assert(s2.contains(p));
                let b = choose|b: int| 0 <= b < s1.len() && s1[b] == p;
                assert(b != 0);
                assert(t1[b - 1] == p);
            }
        }
        lemma_row_major_unique(t1, t2);
        assert(s1 =~= seq![s1[0]] + t1);
        assert(s2 =~= seq![s2[0]] + t2);
    }
}

/// A particle's colour keeps its element's alpha, and each of red, green and blue stays
/// within the element's brightness variation of the base colour.
pub proof fn lemma_decoration_near_base(element: Element, c: Color)
    requires
        valid_decoration(element, c),
    ensures
        ({
            let base = Color { value: element.spec_color() as u32 };
            let v = element.spec_brightness_vary() as int;
            &&& c.alpha() == base.alpha()
            &&& base.red() - v <= c.red() <= base.red() + v
            &&& base.green() - v <= c.green() <= base.green() + v
            &&& base.blue() - v <= c.blue() <= base.blue() + v
        }),
{
    let base = Color { value: element.spec_color() as u32 };
    if element.spec_brightness_vary() > 0 {
        let (dr, dg, db) = choose|dr: int, dg: int, db: int|
            {
                let v = element.spec_brightness_vary() as int;
                &&& -v <= dr < v
                &&& -v <= dg < v
                &&& -v <= db < v
                &&& c == #[trigger] decorated(base, dr, dg, db)
            };
        lemma_pack_channels(base.alpha(), shifted(base.red(), dr), shifted(base.green(), dg), shifted(base.blue(), db));
    }
}

/// A stroke stamps every brush offset once at every line cell.
pub proof fn lemma_stroke_len(line: Seq<(int, int)>, offs: Seq<(int, int)>)
    ensures
        stroke_seq(line, offs).len() == line.len() * offs.len(),
    decreases line.len(),
{
    if line.len() > 0 {
        lemma_stroke_len(line.drop_last(), offs);
        assert(line.drop_last().len() * offs.len() + offs.len() == line.len() * offs.len()) by (nonlinear_arith)
            requires
                line.drop_last().len() == line.len() - 1,
        ;
    }
}


/// After a spawn that adds a particle at a cell on the grid, that cell holds the new
/// particle, the last one.
pub proof fn lemma_spawn_then_get<P: Copy>(
    w: World<P>,
    after: World<P>,
    cell_x: int,
    cell_y: int,
    mode: ParticleSpawnMode,
)
    requires
        w.wf(),
        w.particles_grid.in_bounds(cell_x, cell_y),
        w.spawn_adds(cell_x, cell_y, mode),
        after.particles_grid.width == w.particles_grid.width,
        after.particles_grid.height == w.particles_grid.height,
        ({
            let (parts, cells) = w.cleared_for_spawn(cell_x, cell_y, mode);
            &&& after.particles_flat@ == parts.push(after.particles_flat@.last())
            &&& after.particles_grid@ == cells.update(
                flat_index(cell_x, cell_y, w.particles_grid.width as int),
                Some(parts.len() as usize),
            )
            &&& cells.len() == w.particles_grid@.len()
        }),
    ensures
        after.particles_grid.spec_get(cell_x, cell_y) == CellState::Occupied(
            (after.particles_flat@.len() - 1) as usize,
        ),
{
    lemma_in_grid(cell_x, cell_y, w.particles_grid.width as int, w.particles_grid.height as int);
}


/// Killing the live particle found in a cell on the grid, when that is the particle's own
/// cell, leaves the cell empty.
pub proof fn lemma_kill_at_then_empty<P: Copy>(w: World<P>, x: int, y: int, i: usize)
    requires
        w.wf(),
        w.particles_grid.spec_get(x, y) == CellState::Occupied(i),
        i < w.particles_flat@.len(),
        !w.particles_flat@[i as int].is_dead,
        cell_index(w.particles_flat@[i as int], w.particles_grid.width as int) == flat_index(
            x,
            y,
            w.particles_grid.width as int,
        ),
    ensures
        ({
            let e = kill_effect(w.particles_flat@, w.particles_grid@, w.particles_grid.width as int, i as int);
            &&& e.0[i as int].is_dead
            &&& e.1[flat_index(x, y, w.particles_grid.width as int)] is None
        }),
{
    lemma_in_grid(x, y, w.particles_grid.width as int, w.particles_grid.height as int);
}

/// The border of an oval, as the midpoint walk draws it: its cells lie within `rx` columns
/// and `ry` rows of the centre; with each cell it holds the cell's mirror images about the
/// centre's column and row, leaving out (not wrapping) those off the grid; it starts with
/// the cell `ry` rows below the centre when that is on the grid, and holds the cell `ry`
/// rows above the centre when that is on the grid.
pub proof fn lemma_oval_border_shape(cx: usize, cy: usize, rx: usize, ry: usize)
    requires
        1 <= rx,
        1 <= ry,
    ensures
        ({
            let s = oval_border_points(cx as int, cy as int, rx as int, ry as int);
            &&& within_radii(s, cx as int, cy as int, rx as int, ry as int)
            &&& mirror_closed(s, cx as int, cy as int)
            &&& cy + ry <= usize::MAX ==> s.len() > 0 && s[0] == (cx as int, cy + ry)
            &&& ry <= cy ==> s.contains((cx as int, cy - ry))
        }),
{
    let (cxi, cyi, rxi, ryi) = (cx as int, cy as int, rx as int, ry as int);
    let a2 = rxi * rxi;
    let b2 = ryi * ryi;
    let p0 = b2 - a2 * ryi + a2 / 4;
    let fuel1 = (a2 + 2) as nat;
    lemma_first_start(rxi, ryi);
    lemma_first_points_shape(cxi, cyi, rxi, ryi, 0, ryi, p0, fuel1);
    let e = mp_first_end(a2, b2, 0, ryi, p0, fuel1);
    let q0 = mp_second_start(a2, b2, e.0, e.1);
    lemma_trunc_div4(crate::shape_utils::mp_second_poly(a2, b2, e.0, e.1));
    let err = crate::shape_utils::mp_second_poly(a2, b2, e.0, e.1) - 4 * q0;
    lemma_second_points_shape(cxi, cyi, rxi, ryi, e.0, e.1, q0, err, (e.1 + 1) as nat);
    let first = crate::shape_utils::mp_first_points(cxi, cyi, a2, b2, 0, ryi, p0, fuel1);
    let second = crate::shape_utils::mp_second_points(cxi, cyi, a2, b2, e.0, e.1, q0, (e.1 + 1) as nat);
    crate::shape_utils::lemma_concat_shape(first, second, cxi, cyi, rxi, ryi);
    let s = oval_border_points(cxi, cyi, rxi, ryi);
    assert(s == first + second);
    assert(a2 >= 1) by (nonlinear_arith)
        requires
            a2 == rxi * rxi,
            rxi >= 1,
    ;
    assert(crate::shape_utils::mp_first_cond(a2, b2, 0, ryi)) by (nonlinear_arith)
        requires
            a2 >= 1,
            ryi >= 1,
            b2 == ryi * ryi,
    ;
    let head = crate::shape_utils::plot_four(cxi, cyi, 0, ryi);
    let n = crate::shape_utils::mp_first_next(a2, b2, 0, ryi, p0);
    let rest = crate::shape_utils::mp_first_points(cxi, cyi, a2, b2, n.0, n.1, n.2, (fuel1 - 1) as nat);
    assert(first == head + rest);
    if cy + ry <= usize::MAX {
        let c1 = crate::shape_utils::cell_if_valid(cxi + 0, cyi + ryi);
        assert(c1 == seq![(cxi, cyi + ryi)]);
        assert(head[0] == (cxi, cyi + ryi));
        assert(s[0] == (cxi, cyi + ryi));
    }
    if ry <= cy {
        crate::shape_utils::lemma_plot_four_contains(cxi, cyi, 0, ryi, (cxi, cyi - ryi));
        vstd::seq_lib::lemma_seq_concat_contains_all_elements(head, rest, (cxi, cyi - ryi));
        vstd::seq_lib::lemma_seq_concat_contains_all_elements(first, second, (cxi, cyi - ryi));
    }
}

/// Swapping the ends of an edge negates the edge test.
proof fn lemma_edge_swap(a: (int, int), b: (int, int), c: (int, int))
    ensures
        edge(b, a, c) == -edge(a, b, c),
{
    let e1 = (c.0 - a.0) * (b.1 - a.1) - (c.1 - a.1) * (b.0 - a.0);
    let e2 = (c.0 - b.0) * (a.1 - b.1) - (c.1 - b.1) * (a.0 - b.0);
    assert(e2 == -e1) by (nonlinear_arith)
        requires
            e1 == (c.0 - a.0) * (b.1 - a.1) - (c.1 - a.1) * (b.0 - a.0),
            e2 == (c.0 - b.0) * (a.1 - b.1) - (c.1 - b.1) * (a.0 - b.0),
    ;
}

/// Whether a cell lies in a closed triangle depends neither on the order of the corners
/// nor on their winding.
pub proof fn lemma_triangle_inside_symmetric(q0: (int, int), q1: (int, int), q2: (int, int), c: (int, int))
    ensures
        triangle_inside(q0, q1, q2, c) == triangle_inside(q1, q2, q0, c),
        triangle_inside(q0, q1, q2, c) == triangle_inside(q0, q2, q1, c),
{
    lemma_edge_swap(q1, q2, c);
    lemma_edge_swap(q0, q1, c);
    lemma_edge_swap(q2, q0, c);
}

/// A triangle holds the same cells, filled or as a border, whatever the order and winding
/// of its corners: rotating the corners or swapping two of them changes nothing.
pub proof fn lemma_triangle_cells_symmetric(
    p0: (usize, usize),
    p1: (usize, usize),
    p2: (usize, usize),
    border_only: bool,
    p: (int, int),
)
    ensures
        (in_triangle_box(p0, p1, p2, p) && triangle_cell(p0, p1, p2, border_only, p)) == (in_triangle_box(
            p1,
            p2,
            p0,
            p,
        ) && triangle_cell(p1, p2, p0, border_only, p)),
        (in_triangle_box(p0, p1, p2, p) && triangle_cell(p0, p1, p2, border_only, p)) == (in_triangle_box(
            p0,
            p2,
            p1,
            p,
        ) && triangle_cell(p0, p2, p1, border_only, p)),
{
    let q0 = (p0.0 as int, p0.1 as int);
    let q1 = (p1.0 as int, p1.1 as int);
    let q2 = (p2.0 as int, p2.1 as int);
    lemma_triangle_inside_symmetric(q0, q1, q2, (p.0, p.1));
    lemma_triangle_inside_symmetric(q0, q1, q2, (p.0 + 1, p.1));
    lemma_triangle_inside_symmetric(q0, q1, q2, (p.0 - 1, p.1));
    lemma_triangle_inside_symmetric(q0, q1, q2, (p.0, p.1 + 1));
    lemma_triangle_inside_symmetric(q0, q1, q2, (p.0, p.1 - 1));
}

/// Drawn row by row, a triangle gives the same list of cells whatever the order and winding
/// of its corners: the lists drawn for the corners `p0 p1 p2`, `p1 p2 p0` and `p0 p2 p1`
/// (each sorted and holding the triangle's cells, as `triangle` returns them) are equal.
pub proof fn lemma_triangle_corner_order(
    p0: (usize, usize),
    p1: (usize, usize),
    p2: (usize, usize),
    border_only: bool,
    a: Seq<(int, int)>,
    b: Seq<(int, int)>,
    c: Seq<(int, int)>,
)
    requires
        sorted_row_major(a),
        forall|p: (int, int)|
            #[trigger] a.contains(p) <==> (in_triangle_box(p0, p1, p2, p) && triangle_cell(p0, p1, p2, border_only, p)),
        sorted_row_major(b),
        forall|p: (int, int)|
            #[trigger] b.contains(p) <==> (in_triangle_box(p1, p2, p0, p) && triangle_cell(p1, p2, p0, border_only, p)),
        sorted_row_major(c),
        forall|p: (int, int)|
            #[trigger] c.contains(p) <==> (in_triangle_box(p0, p2, p1, p) && triangle_cell(p0, p2, p1, border_only, p)),
    ensures
        a == b,
        a == c,
{
    assert forall|p: (int, int)| a.contains(p) <==> b.contains(p) by {
        lemma_triangle_cells_symmetric(p0, p1, p2, border_only, p);
    }
    assert forall|p: (int, int)| a.contains(p) <==> c.contains(p) by {
        lemma_triangle_cells_symmetric(p0, p1, p2, border_only, p);
    }
    lemma_row_major_unique(a, b);
    lemma_row_major_unique(a, c);
}

/// The two filled triangles agree: the list that `raster::triangle` returns and the one that
/// `shape_utils::triangle` returns for the same corners, without border, hold the same
/// cells in the same order (each contract fixes a sorted list of the triangle's cells).
pub proof fn lemma_filled_triangles_agree(
    p0: (usize, usize),
    p1: (usize, usize),
    p2: (usize, usize),
    from_raster: Seq<(int, int)>,
    from_shape_utils: Seq<(int, int)>,
)
    requires
        sorted_row_major(from_raster),
        forall|p: (int, int)|
            #[trigger] from_raster.contains(p) <==> (in_triangle_box(p0, p1, p2, p) && triangle_cell(p0, p1, p2, false, p)),
        sorted_row_major(from_shape_utils),
        forall|p: (int, int)|
            #[trigger] from_shape_utils.contains(p) <==> (in_triangle_box(p0, p1, p2, p) && triangle_cell(
                p0,
                p1,
                p2,
                false,
                p,
            )),
    ensures
        from_raster == from_shape_utils,
{
    lemma_row_major_unique(from_raster, from_shape_utils);
}

/// Keeping the cells of a row-major sorted list that satisfy `keep` leaves a sorted list
/// that holds exactly the kept cells.
pub proof fn lemma_filter_sorted(s: Seq<(int, int)>, keep: spec_fn((int, int)) -> bool)
    requires
        sorted_row_major(s),
    ensures
        sorted_row_major(s.filter(keep)),
        forall|p: (int, int)| #[trigger] s.filter(keep).contains(p) <==> s.contains(p) && keep(p),
    decreases s.len(),
{
    reveal(Seq::filter);
    if s.len() == 0 {
        assert forall|p: (int, int)| #[trigger] s.filter(keep).contains(p) <==> s.contains(p) && keep(p) by {
            vstd::seq_lib::lemma_seq_empty_contains_nothing::<(int, int)>(p);
            assert(s.filter(keep) =~= s);
        }
    } else {
        let rest = s.drop_last();
        let last = s.last();
        assert forall|i: int, j: int| 0 <= i < j < rest.len() implies row_major_lt(#[trigger] rest[i], #[trigger] rest[j]) by {
            assert(row_major_lt(s[i], s[j]));
        }
        lemma_filter_sorted(rest, keep);
        let sub = rest.filter(keep);
        assert forall|p: (int, int)| #[trigger] sub.contains(p) implies row_major_lt(p, last) by {
            let k = choose|k: int| 0 <= k < rest.len() && rest[k] == p;
            assert(row_major_lt(s[k], s[s.len() - 1]));
        }
        assert forall|p: (int, int)| #[trigger] rest.contains(p) || p == last <==> s.contains(p) by {
            if rest.contains(p) {
                let k = choose|k: int| 0 <= k < rest.len() && rest[k] == p;
                assert(s[k] == p);
            }
            if p == last {
                assert(s[s.len() - 1] == p);
            }
            if s.contains(p) {
                let k = choose|k: int| 0 <= k < s.len() && s[k] == p;
                if k < s.len() - 1 {
                    assert(rest[k] == p);
                }
            }
        }
        if keep(last) {
            let out = sub.push(last);
            assert(s.filter(keep) == out);
            assert forall|i: int, j: int| 0 <= i < j < out.len() implies row_major_lt(#[trigger] out[i], #[trigger] out[j]) by {
                if j == sub.len() {
                    assert(sub.contains(sub[i]));
                } else {
                    assert(out[i] == sub[i] && out[j] == sub[j]);
                }
            }
            assert forall|p: (int, int)| #[trigger] out.contains(p) <==> sub.contains(p) || p == last by {
                if out.contains(p) {
                    let k = choose|k: int| 0 <= k < out.len() && out[k] == p;
                    if k < sub.len() {
                        assert(sub[k] == p);
                    }
                }
                if sub.contains(p) {
                    let k = choose|k: int| 0 <= k < sub.len() && sub[k] == p;
                    assert(out[k] == p);
                }
                if p == last {
                    assert(out[sub.len() as int] == p);
                }
            }
        } else {
            assert(s.filter(keep) == sub);
        }
    }
}

/// A cell with one of its four neighbours outside the oval that fills the
/// `(2 rx + 1) x (2 ry + 1)` box around `(cx, cy)`.
pub open spec fn box_oval_edge_cell(cx: int, cy: int, rx: int, ry: int, p: (int, int)) -> bool {
    ||| !box_oval_inside(cx, cy, rx, ry, p.0 + 1, p.1)
    ||| !box_oval_inside(cx, cy, rx, ry, p.0 - 1, p.1)
    ||| !box_oval_inside(cx, cy, rx, ry, p.0, p.1 + 1)
    ||| !box_oval_inside(cx, cy, rx, ry, p.0, p.1 - 1)
}

/// An oval's border, drawn row by row by `raster::oval`, is its filled drawing with only the
/// cells kept that have a neighbour outside the oval, in the same order; so every border
/// cell belongs to the filled oval.
pub proof fn lemma_oval_border_is_filtered_fill(
    cx: usize,
    cy: usize,
    rx: usize,
    ry: usize,
    filled: Seq<(int, int)>,
    border: Seq<(int, int)>,
)
    requires
        rx != 0,
        ry != 0,
        sorted_row_major(filled),
        forall|p: (int, int)|
            #[trigger] filled.contains(p) <==> (in_box(
                p,
                sat_sub(cx as int, rx as int),
                cx + rx + 1,
                sat_sub(cy as int, ry as int),
                cy + ry + 1,
            ) && box_oval_cell(cx as int, cy as int, rx as int, ry as int, false, p)),
        sorted_row_major(border),
        forall|p: (int, int)|
            #[trigger] border.contains(p) <==> (in_box(
                p,
                sat_sub(cx as int, rx as int),
                cx + rx + 1,
                sat_sub(cy as int, ry as int),
                cy + ry + 1,
            ) && box_oval_cell(cx as int, cy as int, rx as int, ry as int, true, p)),
    ensures
        border == filled.filter(|p: (int, int)| box_oval_edge_cell(cx as int, cy as int, rx as int, ry as int, p)),
{
    let keep = |p: (int, int)| box_oval_edge_cell(cx as int, cy as int, rx as int, ry as int, p);
    lemma_filter_sorted(filled, keep);
    let f = filled.filter(keep);
    assert forall|p: (int, int)| border.contains(p) <==> f.contains(p) by {
        assert(f.contains(p) <==> filled.contains(p) && keep(p));
    }
    lemma_row_major_unique(border, f);
}

/// Killing a particle keeps the grid and the particles in agreement.
pub proof fn lemma_kill_keeps_grid_consistent<P>(parts: Seq<Particle<P>>, cells: Seq<Option<usize>>, width: int, index: int)
    requires
        parts.len() <= usize::MAX,
        0 <= index < parts.len(),
        grid_consistent(parts, cells, width),
    ensures
        ({
            let e = kill_effect(parts, cells, width, index);
            grid_consistent(e.0, e.1, width)
        }),
{
    if !parts[index].is_dead {
        let c = cell_index(parts[index], width);
        let e = kill_effect(parts, cells, width, index);
        assert(cells[c] == Some(index as usize));
        assert forall|k: int| 0 <= k < e.1.len() && (#[trigger] e.1[k]) is Some implies {
            let j = e.1[k].unwrap() as int;
            &&& j < e.0.len()
            &&& lands_at(e.0, width, j, k)
        } by {
            assert(e.1[k] == cells[k]);
            let j = cells[k].unwrap() as int;
            assert(lands_at(parts, width, j, k));
            assert(j != index);
            assert(e.0[j] == parts[j]);
        }
        assert forall|j: int| 0 <= j < e.0.len() && !(#[trigger] e.0[j]).is_dead implies {
            let k = cell_index(e.0[j], width);
            &&& 0 <= k < e.1.len()
            &&& e.1[k] == Some(j as usize)
        } by {
            assert(j != index);
            assert(e.0[j] == parts[j]);
            assert(cells[cell_index(parts[j], width)] == Some(j as usize));
        }
    }
}

/// A move of a live particle into the cell that its new position rounds to keeps the grid
/// and the particles in agreement, whether it moves, sinks through a lighter particle or is
/// blocked.
pub proof fn lemma_move_keeps_grid_consistent<P: Copy>(
    w: World<P>,
    index: int,
    cell_x: int,
    cell_y: int,
    grid_x: usize,
    grid_y: usize,
)
    requires
        w.wf(),
        w.particles_flat@.len() <= usize::MAX,
        grid_consistent(w.particles_flat@, w.particles_grid@, w.particles_grid.width as int),
        0 <= index < w.particles_flat@.len(),
        !w.particles_flat@[index].is_dead,
        grid_x == cell_x,
        grid_y == cell_y,
    ensures
        ({
            let (parts, cells, out) = w.move_effect(index, cell_x, cell_y, grid_x, grid_y);
            grid_consistent(parts, cells, w.particles_grid.width as int)
        }),
{
    let (parts, cells, out) = w.move_effect(index, cell_x, cell_y, grid_x, grid_y);
    let old_parts = w.particles_flat@;
    let old_cells = w.particles_grid@;
    let width = w.particles_grid.width as int;
    let p = old_parts[index];
    let f = flat_index(cell_x, cell_y, width);
    let c = cell_index(p, width);
    assert(old_cells[c] == Some(index as usize));
    if w.particles_grid.in_bounds(cell_x, cell_y) {
        lemma_in_grid(cell_x, cell_y, width, w.particles_grid.height as int);
        assert(cell_index(moved_to(p, grid_x, grid_y), width) == f);
        match w.particles_grid.spec_get(cell_x, cell_y) {
            CellState::Empty => {
                assert(old_cells[f] is None);
                assert forall|k: int| 0 <= k < cells.len() && (#[trigger] cells[k]) is Some implies {
                    let j = cells[k].unwrap() as int;
                    &&& j < parts.len()
                    &&& lands_at(parts, width, j, k)
                } by {
                    if k != f {
                        assert(cells[k] == old_cells[k]);
                        let j = old_cells[k].unwrap() as int;
                        assert(lands_at(old_parts, width, j, k));
                        assert(j != index);
                        assert(parts[j] == old_parts[j]);
                    }
                }
                assert forall|j: int| 0 <= j < parts.len() && !(#[trigger] parts[j]).is_dead implies {
                    let k = cell_index(parts[j], width);
                    &&& 0 <= k < cells.len()
                    &&& cells[k] == Some(j as usize)
                } by {
                    if j != index {
                        assert(parts[j] == old_parts[j]);
                        let k = cell_index(old_parts[j], width);
                        assert(old_cells[k] == Some(j as usize));
                        assert(k != c && k != f);
                    }
                }
            },
            CellState::Occupied(o) => {
                assert(old_cells[f] == Some(o));
                assert(lands_at(old_parts, width, o as int, f));
                if o as int == index {
                    assert forall|k: int| 0 <= k < cells.len() && (#[trigger] cells[k]) is Some implies {
                        let j = cells[k].unwrap() as int;
                        &&& j < parts.len()
                        &&& lands_at(parts, width, j, k)
                    } by {
                        let j = old_cells[k].unwrap() as int;
                        assert(lands_at(old_parts, width, j, k));
                    }
                    assert forall|j: int| 0 <= j < parts.len() && !(#[trigger] parts[j]).is_dead implies {
                        let k = cell_index(parts[j], width);
                        &&& 0 <= k < cells.len()
                        &&& cells[k] == Some(j as usize)
                    } by {
                        assert(old_cells[cell_index(old_parts[j], width)] == Some(j as usize));
                    }
                } else if denser(p, old_parts[o as int]) {
                    let q = old_parts[o as int];
                    assert(cell_index(moved_to(q, p.grid_x, p.grid_y), width) == c);
                    assert(f != c);
                    assert forall|k: int| 0 <= k < cells.len() && (#[trigger] cells[k]) is Some implies {
                        let j = cells[k].unwrap() as int;
                        &&& j < parts.len()
                        &&& lands_at(parts, width, j, k)
                    } by {
                        if k != f && k != c {
                            assert(cells[k] == old_cells[k]);
                            let j = old_cells[k].unwrap() as int;
                            assert(lands_at(old_parts, width, j, k));
                            assert(j != index && j != o as int);
                            assert(parts[j] == old_parts[j]);
                        }
                    }
                    assert forall|j: int| 0 <= j < parts.len() && !(#[trigger] parts[j]).is_dead implies {
                        let k = cell_index(parts[j], width);
                        &&& 0 <= k < cells.len()
                        &&& cells[k] == Some(j as usize)
                    } by {
                        if j != index && j != o as int {
                            assert(parts[j] == old_parts[j]);
                            let k = cell_index(old_parts[j], width);
                            assert(old_cells[k] == Some(j as usize));
                            assert(k != c && k != f);
                        }
                    }
                }
            },
            CellState::OutOfBounds => {},
        }
    }
}

/// A spawn into a cell of the grid that holds no particle, or that `Override` clears first,
/// of a particle whose position rounds to that cell, keeps the grid and the particles in
/// agreement.
pub proof fn lemma_spawn_keeps_grid_consistent<P: Copy>(
    w: World<P>,
    cell_x: int,
    cell_y: int,
    mode: ParticleSpawnMode,
    new_parts: Seq<Particle<P>>,
    new_cells: Seq<Option<usize>>,
)
    requires
        w.wf(),
        w.particles_flat@.len() < usize::MAX,
        grid_consistent(w.particles_flat@, w.particles_grid@, w.particles_grid.width as int),
        w.particles_grid.in_bounds(cell_x, cell_y),
        mode == ParticleSpawnMode::Overlap ==> w.particles_grid.spec_get(cell_x, cell_y) == CellState::Empty,
        ({
            let (parts, cells) = w.cleared_for_spawn(cell_x, cell_y, mode);
            if w.spawn_adds(cell_x, cell_y, mode) {
                &&& new_parts == parts.push(new_parts.last())
                &&& !new_parts.last().is_dead
                &&& new_parts.last().grid_x == cell_x
                &&& new_parts.last().grid_y == cell_y
                &&& new_cells == cells.update(
                    flat_index(cell_x, cell_y, w.particles_grid.width as int),
                    Some(parts.len() as usize),
                )
            } else {
                &&& new_parts == parts
                &&& new_cells == cells
            }
        }),
    ensures
        grid_consistent(new_parts, new_cells, w.particles_grid.width as int),
{
    let width = w.particles_grid.width as int;
    let f = flat_index(cell_x, cell_y, width);
    lemma_in_grid(cell_x, cell_y, width, w.particles_grid.height as int);
    let (parts, cells) = w.cleared_for_spawn(cell_x, cell_y, mode);
    if let CellState::Occupied(i) = w.particles_grid.spec_get(cell_x, cell_y) {
        assert(w.particles_grid@[f] == Some(i));
        assert(lands_at(w.particles_flat@, width, i as int, f));
        if mode == ParticleSpawnMode::Override {
            lemma_kill_keeps_grid_consistent(w.particles_flat@, w.particles_grid@, width, i as int);
            assert(cells[f] is None);
        }
    }
    if w.spawn_adds(cell_x, cell_y, mode) {
        assert(cells[f] is None);
        assert(parts.len() == w.particles_flat@.len());
        let n = parts.len() as int;
        assert(cell_index(new_parts[n], width) == f);
        assert forall|k: int| 0 <= k < new_cells.len() && (#[trigger] new_cells[k]) is Some implies {
            let j = new_cells[k].unwrap() as int;
            &&& j < new_parts.len()
            &&& lands_at(new_parts, width, j, k)
        } by {
            if k != f {
                assert(new_cells[k] == cells[k]);
                let j = cells[k].unwrap() as int;
                assert(lands_at(parts, width, j, k));
                assert(new_parts[j] == parts[j]);
            }
        }
        assert forall|j: int| 0 <= j < new_parts.len() && !(#[trigger] new_parts[j]).is_dead implies {
            let k = cell_index(new_parts[j], width);
            &&& 0 <= k < new_cells.len()
            &&& new_cells[k] == Some(j as usize)
        } by {
            if j != n {
                assert(new_parts[j] == parts[j]);
                let k = cell_index(parts[j], width);
                assert(cells[k] == Some(j as usize));
                assert(k != f);
            }
        }
    }
}

/// Rebuilding the grid from particles whose live ones sit in distinct cells of the grid
/// brings the grid and the particles into agreement.
pub proof fn lemma_populate_makes_grid_consistent<P>(parts: Seq<Particle<P>>, cells: Seq<Option<usize>>, width: int)
    requires
        parts.len() <= usize::MAX,
        forall|j: int|
            0 <= j < parts.len() && !(#[trigger] parts[j]).is_dead ==> 0 <= cell_index(parts[j], width) < cells.len(),
        forall|i: int, j: int|
            0 <= i < j < parts.len() && !(#[trigger] parts[i]).is_dead && !(#[trigger] parts[j]).is_dead
                ==> cell_index(parts[i], width) != cell_index(parts[j], width),
        forall|k: int| 0 <= k < cells.len() ==> #[trigger] cells[k] == last_lander(parts, parts.len(), width, k),
    ensures
        grid_consistent(parts, cells, width),
{
    assert forall|k: int| 0 <= k < cells.len() && (#[trigger] cells[k]) is Some implies {
        let j = cells[k].unwrap() as int;
        &&& j < parts.len()
        &&& lands_at(parts, width, j, k)
    } by {
        lemma_last_lander_valid(parts, parts.len(), width, k);
    }
    assert forall|j: int| 0 <= j < parts.len() && !(#[trigger] parts[j]).is_dead implies {
        let k = cell_index(parts[j], width);
        &&& 0 <= k < cells.len()
        &&& cells[k] == Some(j as usize)
    } by {
        let k = cell_index(parts[j], width);
        lemma_last_lander_valid(parts, parts.len(), width, k);
        assert(lands_at(parts, width, j, k));
        let i = cells[k].unwrap() as int;
        assert(lands_at(parts, width, i, k));
        if i < j {
            assert(!parts[i].is_dead && !parts[j].is_dead);
        } else if j < i {
            assert(!parts[j].is_dead && !parts[i].is_dead);
        }
    }
}

/// Sinking: a particle moved into a cell that another particle `o` holds trades places with
/// it exactly when it is strictly denser (in kg/m³), and is blocked, changing nothing,
/// exactly when it is not. After a swap the mover has its new position and the target
/// cell, and `o` has the mover's old position and the mover's old cell.
pub proof fn lemma_move_sinks_exactly_when_denser<P: Copy>(
    w: World<P>,
    index: int,
    cell_x: int,
    cell_y: int,
    grid_x: usize,
    grid_y: usize,
    o: usize,
)
    requires
        w.wf(),
        w.particles_flat@.len() <= usize::MAX,
        0 <= index < w.particles_flat@.len(),
        o < w.particles_flat@.len(),
        o != index,
        w.particles_grid.spec_get(cell_x, cell_y) == CellState::Occupied(o),
        cell_index(w.particles_flat@[index], w.particles_grid.width as int) < w.particles_grid@.len(),
    ensures
        ({
            let (parts, cells, out) = w.move_effect(index, cell_x, cell_y, grid_x, grid_y);
            let before = w.particles_flat@;
            let mover = before[index];
            let other = before[o as int];
            let width = w.particles_grid.width as int;
            &&& out == MoveOutcome::Swapped(o) <==> mover.element.spec_density_per_mille()
                > other.element.spec_density_per_mille()
            &&& out == MoveOutcome::Blocked <==> mover.element.spec_density_per_mille()
                <= other.element.spec_density_per_mille()
            &&& out == MoveOutcome::Blocked ==> parts == before && cells == w.particles_grid@
            &&& out == MoveOutcome::Swapped(o) ==> {
                &&& parts[index].grid_x == grid_x && parts[index].grid_y == grid_y
                &&& parts[o as int].grid_x == mover.grid_x && parts[o as int].grid_y == mover.grid_y
                &&& parts[index].element == mover.element && parts[o as int].element == other.element
                &&& cells[cell_index(mover, width)] == Some(o)
                &&& cell_index(mover, width) != flat_index(cell_x, cell_y, width) ==> cells[flat_index(
                    cell_x,
                    cell_y,
                    width,
                )] == Some(index as usize)
            }
        }),
{
    lemma_in_grid(cell_x, cell_y, w.particles_grid.width as int, w.particles_grid.height as int);
}

/// Moving into an empty cell always succeeds: the particle takes its new position, the
/// target cell names it and its old cell is emptied.
pub proof fn lemma_move_into_empty<P: Copy>(
    w: World<P>,
    index: int,
    cell_x: int,
    cell_y: int,
    grid_x: usize,
    grid_y: usize,
)
    requires
        w.wf(),
        w.particles_flat@.len() <= usize::MAX,
        0 <= index < w.particles_flat@.len(),
        w.particles_grid.spec_get(cell_x, cell_y) == CellState::Empty,
        cell_index(w.particles_flat@[index], w.particles_grid.width as int) < w.particles_grid@.len(),
    ensures
        ({
            let (parts, cells, out) = w.move_effect(index, cell_x, cell_y, grid_x, grid_y);
            let width = w.particles_grid.width as int;
            let mover = w.particles_flat@[index];
            &&& out == MoveOutcome::Moved
            &&& parts[index].grid_x == grid_x && parts[index].grid_y == grid_y
            &&& parts[index].element == mover.element
            &&& cells[flat_index(cell_x, cell_y, width)] == Some(index as usize)
            &&& cell_index(mover, width) != flat_index(cell_x, cell_y, width) ==> cells[cell_index(mover, width)]
                is None
        }),
{
    lemma_in_grid(cell_x, cell_y, w.particles_grid.width as int, w.particles_grid.height as int);
}

/// A filled round oval (both radii `r`) holds exactly the cells within distance `r` of its
/// centre: those with `dx^2 + dy^2 <= r^2`.
pub proof fn lemma_round_oval_is_disc(cx: int, cy: int, r: int, x: int, y: int)
    requires
        r >= 1,
    ensures
        radius_oval_inside(cx, cy, r, r, x, y) <==> (x - cx) * (x - cx) + (y - cy) * (y - cy) <= r * r,
{
    let d = (x - cx) * (x - cx) + (y - cy) * (y - cy);
    let r2 = r * r;
    assert(r2 >= 1) by (nonlinear_arith)
        requires
            r2 == r * r,
            r >= 1,
    ;
    assert((x - cx) * (x - cx) * r2 + (y - cy) * (y - cy) * r2 == d * r2) by (nonlinear_arith)
        requires
            d == (x - cx) * (x - cx) + (y - cy) * (y - cy),
    ;
    assert(d * r2 <= r2 * r2 <==> d <= r2) by (nonlinear_arith)
        requires
            r2 >= 1,
    ;
}

/// A filled oval holds the cell `(x, y)` of its box exactly when
/// `(x - cx)^2 ry^2 + (y - cy)^2 rx^2 <= rx^2 ry^2`; in particular its centre and the four
/// ends of its axes, and no cell beyond an axis end.
pub proof fn lemma_oval_radius_test(cx: int, cy: int, rx: int, ry: int, x: int, y: int)
    requires
        rx >= 1,
        ry >= 1,
    ensures
        radius_oval_inside(cx, cy, rx, ry, x, y) <==> (x - cx) * (x - cx) * (ry * ry) + (y - cy) * (y - cy) * (
        rx * rx) <= (rx * rx) * (ry * ry),
        radius_oval_inside(cx, cy, rx, ry, cx, cy),
        radius_oval_inside(cx, cy, rx, ry, cx + rx, cy),
        radius_oval_inside(cx, cy, rx, ry, cx - rx, cy),
        radius_oval_inside(cx, cy, rx, ry, cx, cy + ry),
        radius_oval_inside(cx, cy, rx, ry, cx, cy - ry),
        !radius_oval_inside(cx, cy, rx, ry, cx + rx + 1, cy),
        !radius_oval_inside(cx, cy, rx, ry, cx, cy + ry + 1),
{
    let a = rx * rx;
    let b = ry * ry;
    assert(a >= 1 && b >= 1) by (nonlinear_arith)
        requires
            a == rx * rx,
            b == ry * ry,
            rx >= 1,
            ry >= 1,
    ;
    assert(0 * 0 * b + 0 * 0 * a <= a * b) by (nonlinear_arith)
        requires
            a >= 1,
            b >= 1,
    ;
    assert(rx * rx * b + 0 * 0 * a <= a * b) by (nonlinear_arith)
        requires
            a == rx * rx,
    ;
    assert((-rx) * (-rx) * b + 0 * 0 * a <= a * b) by (nonlinear_arith)
        requires
            a == rx * rx,
    ;
    assert(0 * 0 * b + ry * ry * a <= a * b) by (nonlinear_arith)
        requires
            b == ry * ry,
    ;
    assert(0 * 0 * b + (-ry) * (-ry) * a <= a * b) by (nonlinear_arith)
        requires
            b == ry * ry,
    ;
    assert((rx + 1) * (rx + 1) * b + 0 * 0 * a > a * b) by (nonlinear_arith)
        requires
            a == rx * rx,
            b >= 1,
            rx >= 1,
    ;
    assert(0 * 0 * b + (ry + 1) * (ry + 1) * a > a * b) by (nonlinear_arith)
        requires
            b == ry * ry,
            a >= 1,
            ry >= 1,
    ;
    assert((cx + rx) - cx == rx);
    assert((cx - rx) - cx == -rx);
    assert((cy + ry) - cy == ry);
    assert((cy - ry) - cy == -ry);
    assert((cx + rx + 1) - cx == rx + 1);
    assert((cy + ry + 1) - cy == ry + 1);
}

/// The oval that fills a square box (both radii `r`) holds exactly the cells within
/// distance `r + 1/2` of its centre: those with `4 (dx^2 + dy^2) <= (2 r + 1)^2`.
pub proof fn lemma_round_box_oval_is_disc(cx: int, cy: int, r: int, x: int, y: int)
    requires
        r >= 0,
    ensures
        box_oval_inside(cx, cy, r, r, x, y) <==> 4 * ((x - cx) * (x - cx) + (y - cy) * (y - cy)) <= (2 * r + 1)
            * (2 * r + 1),
{
    let w = 2 * r + 1;
    let w2 = w * w;
    let d = (x - cx) * (x - cx) + (y - cy) * (y - cy);
    assert(w2 >= 1) by (nonlinear_arith)
        requires
            w2 == w * w,
            w >= 1,
    ;
    assert(4 * (x - cx) * (x - cx) * w2 + 4 * (y - cy) * (y - cy) * w2 == (4 * d) * w2) by (nonlinear_arith)
        requires
            d == (x - cx) * (x - cx) + (y - cy) * (y - cy),
    ;
    assert((4 * d) * w2 <= w2 * w2 <==> 4 * d <= w2) by (nonlinear_arith)
        requires
            w2 >= 1,
    ;
}

/// Scaling an odd size by `amount`, when the result needs no clamping, changes it by exactly
/// `2 * amount`: one cell on each side per step.
pub proof fn lemma_scale_exact(size: usize, amount: isize)
    requires
        size % 2 == 1,
        size <= isize::MAX,
        SIZE_MIN <= size + 2 * amount <= SIZE_MAX,
    ensures
        scaled(size, amount) == size + 2 * amount,
{
}

/// Scaling an odd size in range by `amount` and back by `-amount`, with no clamping on the
/// way, restores it.
pub proof fn lemma_scale_round_trip(size: usize, amount: isize)
    requires
        size % 2 == 1,
        SIZE_MIN <= size <= SIZE_MAX,
        SIZE_MIN <= size + 2 * amount <= SIZE_MAX,
    ensures
        scaled(scaled(size, amount), (-amount) as isize) == size,
{
    lemma_scale_exact(size, amount);
    let t = scaled(size, amount);
    assert(t == size + 2 * amount);
    assert(t % 2 == 1);
    lemma_scale_exact(t, (-amount) as isize);
}

/// Scaling past the limits clamps: a result below `SIZE_MIN` gives `SIZE_MIN`, one above
/// `SIZE_MAX` gives the odd size just above it.
pub proof fn lemma_scale_clamps(size: usize, amount: isize)
    requires
        size <= isize::MAX,
    ensures
        size + 2 * amount < SIZE_MIN ==> scaled(size, amount) == SIZE_MIN,
        size + 2 * amount > SIZE_MAX ==> scaled(size, amount) == SIZE_MAX + 1,
{
}

/// `(m p + k q) a = m (p a) + k (q a)`.
proof fn lemma_two_term_product(m: int, k: int, p: int, q: int, a: int)
    ensures
        (m * p + k * q) * a == m * (p * a) + k * (q * a),
{
    assert((m * p + k * q) * a == (m * p) * a + (k * q) * a) by (nonlinear_arith);
    assert((m * p) * a == m * (p * a)) by (nonlinear_arith);
    assert((k * q) * a == k * (q * a)) by (nonlinear_arith);
}

/// Moving a cell along the segment from `a` to `b` changes every edge test in proportion:
/// for `n c = (n - k) a + k b`, `n edge(u, v, c) = (n - k) edge(u, v, a) + k edge(u, v, b)`.
proof fn lemma_edge_affine(u: (int, int), v: (int, int), a: (int, int), b: (int, int), c: (int, int), n: int, k: int)
    requires
        n * c.0 == (n - k) * a.0 + k * b.0,
        n * c.1 == (n - k) * a.1 + k * b.1,
    ensures
        n * edge(u, v, c) == (n - k) * edge(u, v, a) + k * edge(u, v, b),
{
    let ax = v.1 - u.1;
    let bx = v.0 - u.0;
    let pc = c.0 - u.0;
    let qc = c.1 - u.1;
    let pa = a.0 - u.0;
    let qa = a.1 - u.1;
    let pb = b.0 - u.0;
    let qb = b.1 - u.1;
    assert(n * pc == (n - k) * pa + k * pb) by (nonlinear_arith)
        requires
            n * c.0 == (n - k) * a.0 + k * b.0,
            pc == c.0 - u.0,
            pa == a.0 - u.0,
            pb == b.0 - u.0,
    ;
    assert(n * qc == (n - k) * qa + k * qb) by (nonlinear_arith)
        requires
            n * c.1 == (n - k) * a.1 + k * b.1,
            qc == c.1 - u.1,
            qa == a.1 - u.1,
            qb == b.1 - u.1,
    ;
    let x = n * pc;
    let y = n * qc;
    assert(n * (pc * ax - qc * bx) == x * ax - y * bx) by (nonlinear_arith)
        requires
            x == n * pc,
            y == n * qc,
    ;
    let m = n - k;
    lemma_two_term_product(m, k, pa, pb, ax);
    lemma_two_term_product(m, k, qa, qb, bx);
    assert(m * (pa * ax - qa * bx) == m * (pa * ax) - m * (qa * bx)) by (nonlinear_arith);
    assert(k * (pb * ax - qb * bx) == k * (pb * ax) - k * (qb * bx)) by (nonlinear_arith);
    assert(x == m * pa + k * pb);
    assert(y == m * qa + k * qb);
    assert(edge(u, v, c) == pc * ax - qc * bx);
    assert(edge(u, v, a) == pa * ax - qa * bx);
    assert(edge(u, v, b) == pb * ax - qb * bx);
}

/// The three edge tests of a corner: the two edges through it give 0, and the opposite one
/// gives twice the signed area, the same for every corner.
proof fn lemma_corner_edges(q0: (int, int), q1: (int, int), q2: (int, int))
    ensures
        edge(q2, q0, q0) == 0,
        edge(q0, q1, q0) == 0,
        edge(q0, q1, q1) == 0,
        edge(q1, q2, q1) == 0,
        edge(q2, q0, q1) == edge(q1, q2, q0),
{
    let e1 = (q1.0 - q2.0) * (q0.1 - q2.1) - (q1.1 - q2.1) * (q0.0 - q2.0);
    let e0 = (q0.0 - q1.0) * (q2.1 - q1.1) - (q0.1 - q1.1) * (q2.0 - q1.0);
    assert(e1 == e0) by (nonlinear_arith)
        requires
            e1 == (q1.0 - q2.0) * (q0.1 - q2.1) - (q1.1 - q2.1) * (q0.0 - q2.0),
            e0 == (q0.0 - q1.0) * (q2.1 - q1.1) - (q0.1 - q1.1) * (q2.0 - q1.0),
    ;
    assert(edge(q2, q0, q0) == 0) by (nonlinear_arith);
    assert(edge(q0, q1, q0) == 0) by (nonlinear_arith);
    assert(edge(q0, q1, q1) == 0) by (nonlinear_arith);
    assert(edge(q1, q2, q1) == 0) by (nonlinear_arith);
}

/// A closed triangle holds every point of its side from `q0` to `q1`: the points
/// `c = ((n - k) q0 + k q1) / n` for `0 <= k <= n`, its two corners among them. This holds
/// for flat triangles too, whose three corners lie on one line.
pub proof fn lemma_triangle_holds_side(q0: (int, int), q1: (int, int), q2: (int, int), c: (int, int), n: int, k: int)
    requires
        1 <= n,
        0 <= k <= n,
        n * c.0 == (n - k) * q0.0 + k * q1.0,
        n * c.1 == (n - k) * q0.1 + k * q1.1,
    ensures
        triangle_inside(q0, q1, q2, c),
{
    lemma_corner_edges(q0, q1, q2);
    lemma_edge_affine(q1, q2, q0, q1, c, n, k);
    lemma_edge_affine(q2, q0, q0, q1, c, n, k);
    lemma_edge_affine(q0, q1, q0, q1, c, n, k);
    let e = edge(q1, q2, q0);
    let w0 = edge(q1, q2, c);
    let w1 = edge(q2, q0, c);
    let w2 = edge(q0, q1, c);
    assert(n * w2 == 0);
    assert(w2 == 0) by (nonlinear_arith)
        requires
            n * w2 == 0,
            n >= 1,
    ;
    assert(n * w0 == (n - k) * e);
    assert(n * w1 == k * e);
    if e >= 0 {
        assert(w0 >= 0 && w1 >= 0) by (nonlinear_arith)
            requires
                n * w0 == (n - k) * e,
                n * w1 == k * e,
                n >= 1,
                0 <= k <= n,
                e >= 0,
        ;
    } else {
        assert(w0 <= 0 && w1 <= 0) by (nonlinear_arith)
            requires
                n * w0 == (n - k) * e,
                n * w1 == k * e,
                n >= 1,
                0 <= k <= n,
                e < 0,
        ;
    }
}

/// The smallest of three values is at most each, the largest at least each.
proof fn lemma_min_max3(a: int, b: int, c: int)
    ensures
        crate::raster::min3(a, b, c) <= a && crate::raster::min3(a, b, c) <= b && crate::raster::min3(a, b, c) <= c,
        crate::scan::max3(a, b, c) >= a && crate::scan::max3(a, b, c) >= b && crate::scan::max3(a, b, c) >= c,
{
}

/// Every corner of a filled triangle is one of its cells, and so is every cell on its sides,
/// whatever the corners; so a flat triangle (its corners on one line, as for the thinnest
/// triangle brushes) still draws its corners and the cells between them.
pub proof fn lemma_filled_triangle_holds_sides(
    p0: (usize, usize),
    p1: (usize, usize),
    p2: (usize, usize),
    c: (int, int),
    n: int,
    k: int,
)
    requires
        1 <= n,
        0 <= k <= n,
        ({
            let q0 = (p0.0 as int, p0.1 as int);
            let q1 = (p1.0 as int, p1.1 as int);
            let q2 = (p2.0 as int, p2.1 as int);
            ||| n * c.0 == (n - k) * q0.0 + k * q1.0 && n * c.1 == (n - k) * q0.1 + k * q1.1
            ||| n * c.0 == (n - k) * q1.0 + k * q2.0 && n * c.1 == (n - k) * q1.1 + k * q2.1
            ||| n * c.0 == (n - k) * q2.0 + k * q0.0 && n * c.1 == (n - k) * q2.1 + k * q0.1
        }),
    ensures
        triangle_cell(p0, p1, p2, false, c),
        in_triangle_box(p0, p1, p2, (p0.0 as int, p0.1 as int)) && triangle_cell(
            p0,
            p1,
            p2,
            false,
            (p0.0 as int, p0.1 as int),
        ),
        in_triangle_box(p0, p1, p2, (p1.0 as int, p1.1 as int)) && triangle_cell(
            p0,
            p1,
            p2,
            false,
            (p1.0 as int, p1.1 as int),
        ),
        in_triangle_box(p0, p1, p2, (p2.0 as int, p2.1 as int)) && triangle_cell(
            p0,
            p1,
            p2,
            false,
            (p2.0 as int, p2.1 as int),
        ),
{
    let q0 = (p0.0 as int, p0.1 as int);
    let q1 = (p1.0 as int, p1.1 as int);
    let q2 = (p2.0 as int, p2.1 as int);
    let cc = (c.0, c.1);
    if n * c.0 == (n - k) * q0.0 + k * q1.0 && n * c.1 == (n - k) * q0.1 + k * q1.1 {
        lemma_triangle_holds_side(q0, q1, q2, cc, n, k);
    } else if n * c.0 == (n - k) * q1.0 + k * q2.0 && n * c.1 == (n - k) * q1.1 + k * q2.1 {
        lemma_triangle_holds_side(q1, q2, q0, cc, n, k);
        lemma_triangle_inside_symmetric(q0, q1, q2, cc);
    } else {
        lemma_triangle_holds_side(q2, q0, q1, cc, n, k);
        lemma_triangle_inside_symmetric(q2, q0, q1, cc);
        lemma_triangle_inside_symmetric(q0, q1, q2, cc);
    }
    assert(1 * q0.0 == (1 - 0) * q0.0 + 0 * q1.0 && 1 * q0.1 == (1 - 0) * q0.1 + 0 * q1.1);
    lemma_triangle_holds_side(q0, q1, q2, q0, 1, 0);
    assert(1 * q1.0 == (1 - 1) * q0.0 + 1 * q1.0 && 1 * q1.1 == (1 - 1) * q0.1 + 1 * q1.1);
    lemma_triangle_holds_side(q0, q1, q2, q1, 1, 1);
    assert(1 * q2.0 == (1 - 0) * q2.0 + 0 * q0.0 && 1 * q2.1 == (1 - 0) * q2.1 + 0 * q0.1);
    lemma_triangle_holds_side(q2, q0, q1, q2, 1, 0);
    lemma_triangle_inside_symmetric(q2, q0, q1, q2);
    lemma_triangle_inside_symmetric(q0, q1, q2, q2);
    lemma_min_max3(q0.0, q1.0, q2.0);
    lemma_min_max3(q0.1, q1.1, q2.1);
}

/// A filled rectangle holds exactly the cells `(x, y)` with `0 <= x < width` and
/// `0 <= y < height`; its border holds those of them in the first or last column or row,
/// so every corner of a non-empty rectangle is on its border.
pub proof fn lemma_rect_cells(width: usize, height: usize, p: (int, int))
    ensures
        rect_cell(width as int, height as int, false, p) <==> (0 <= p.0 < width && 0 <= p.1 < height),
        rect_cell(width as int, height as int, true, p) <==> (0 <= p.0 < width && 0 <= p.1 < height && (p.0
            == 0 || p.0 == width - 1 || p.1 == 0 || p.1 == height - 1)),
        1 <= width && 1 <= height ==> {
            &&& rect_cell(width as int, height as int, true, (0, 0))
            &&& rect_cell(width as int, height as int, true, (width - 1, 0))
            &&& rect_cell(width as int, height as int, true, (0, height - 1))
            &&& rect_cell(width as int, height as int, true, (width - 1, height - 1))
        },
{
}

/// The oval that fills the `(2 rx + 1) x (2 ry + 1)` box around `(cx, cy)` holds the cell
/// `(x, y)` exactly when `(x - cx)^2 / (rx + 1/2)^2 + (y - cy)^2 / (ry + 1/2)^2 <= 1`, in
/// integers `4 (x - cx)^2 (2 ry + 1)^2 + 4 (y - cy)^2 (2 rx + 1)^2 <= (2 rx + 1)^2 (2 ry + 1)^2`;
/// in particular it holds its centre and the four ends of its axes, and nothing beyond them.
pub proof fn lemma_box_oval_test(cx: int, cy: int, rx: int, ry: int, x: int, y: int)
    requires
        rx >= 0,
        ry >= 0,
    ensures
        box_oval_inside(cx, cy, rx, ry, x, y) <==> 4 * ((x - cx) * (x - cx)) * ((2 * ry + 1) * (2 * ry + 1)) + 4 * ((y
            - cy) * (y - cy)) * ((2 * rx + 1) * (2 * rx + 1)) <= ((2 * rx + 1) * (2 * rx + 1)) * ((2 * ry + 1) * (2
            * ry + 1)),
        box_oval_inside(cx, cy, rx, ry, cx, cy),
        box_oval_inside(cx, cy, rx, ry, cx + rx, cy),
        box_oval_inside(cx, cy, rx, ry, cx - rx, cy),
        box_oval_inside(cx, cy, rx, ry, cx, cy + ry),
        box_oval_inside(cx, cy, rx, ry, cx, cy - ry),
        !box_oval_inside(cx, cy, rx, ry, cx + rx + 1, cy),
        !box_oval_inside(cx, cy, rx, ry, cx, cy + ry + 1),
{
    let w = 2 * rx + 1;
    let h = 2 * ry + 1;
    let w2 = w * w;
    let h2 = h * h;
    assert(w2 >= 1 && h2 >= 1) by (nonlinear_arith)
        requires
            w2 == w * w,
            h2 == h * h,
            w >= 1,
            h >= 1,
    ;
    let dx = x - cx;
    let dy = y - cy;
    assert(4 * dx * dx * h2 == 4 * (dx * dx) * h2) by (nonlinear_arith);
    assert(4 * dy * dy * w2 == 4 * (dy * dy) * w2) by (nonlinear_arith);
    assert(4 * (rx * rx) <= w2 && 4 * ((rx + 1) * (rx + 1)) > w2) by (nonlinear_arith)
        requires
            w2 == w * w,
            w == 2 * rx + 1,
            rx >= 0,
    ;
    assert(4 * (ry * ry) <= h2 && 4 * ((ry + 1) * (ry + 1)) > h2) by (nonlinear_arith)
        requires
            h2 == h * h,
            h == 2 * ry + 1,
            ry >= 0,
    ;
    assert(4 * (rx * rx) * h2 <= w2 * h2 && 4 * ((rx + 1) * (rx + 1)) * h2 > w2 * h2) by (nonlinear_arith)
        requires
            4 * (rx * rx) <= w2,
            4 * ((rx + 1) * (rx + 1)) > w2,
            h2 >= 1,
    ;
    assert(4 * (ry * ry) * w2 <= w2 * h2 && 4 * ((ry + 1) * (ry + 1)) * w2 > w2 * h2) by (nonlinear_arith)
        requires
            4 * (ry * ry) <= h2,
            4 * ((ry + 1) * (ry + 1)) > h2,
            w2 >= 1,
    ;
    assert(4 * 0 * 0 * h2 == 0 && 4 * 0 * 0 * w2 == 0) by (nonlinear_arith);
    assert(4 * rx * rx * h2 == 4 * (rx * rx) * h2) by (nonlinear_arith);
    assert(4 * (-rx) * (-rx) * h2 == 4 * (rx * rx) * h2) by (nonlinear_arith);
    assert(4 * ry * ry * w2 == 4 * (ry * ry) * w2) by (nonlinear_arith);
    assert(4 * (-ry) * (-ry) * w2 == 4 * (ry * ry) * w2) by (nonlinear_arith);
    assert(4 * (rx + 1) * (rx + 1) * h2 == 4 * ((rx + 1) * (rx + 1)) * h2) by (nonlinear_arith);
    assert(4 * (ry + 1) * (ry + 1) * w2 == 4 * ((ry + 1) * (ry + 1)) * w2) by (nonlinear_arith);
    assert((cx + rx) - cx == rx);
    assert((cx - rx) - cx == -rx);
    assert((cy + ry) - cy == ry);
    assert((cy - ry) - cy == -ry);
    assert((cx + rx + 1) - cx == rx + 1);
    assert((cy + ry + 1) - cy == ry + 1);
}

} // verus!
