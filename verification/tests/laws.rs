use dogeis_powder::element::Element;
use dogeis_powder::raster;
use dogeis_powder::shape_utils;
use dogeis_powder::world::{CellState, MoveOutcome, ParticleSpawnMode, World};

fn grid_consistent(w: &World<u32>) -> bool {
    let width = w.particles_grid.width;
    for (k, cell) in w.particles_grid.cells.iter().enumerate() {
        if let Some(j) = cell {
            if *j >= w.particles_flat.len() {
                return false;
            }
            let p = &w.particles_flat[*j];
            if p.is_dead || p.grid_x + p.grid_y * width != k {
                return false;
            }
        }
    }
    for (j, p) in w.particles_flat.iter().enumerate() {
        if !p.is_dead && w.particles_grid.cells[p.grid_x + p.grid_y * width] != Some(j) {
            return false;
        }
    }
    true
}

fn spawn(w: &mut World<u32>, e: Element, x: usize, y: usize, mode: ParticleSpawnMode) {
    let body = w.particles_flat.len() as u32;
    w.spawn_particle(e, body, x as isize, y as isize, x, y, mode);
}

#[test]
fn law_triangle_corner_order_and_winding() {
    for border in [false, true] {
        let a = raster::triangle((2, 0), (0, 4), (4, 4), border);
        assert_eq!(a, raster::triangle((0, 4), (4, 4), (2, 0), border));
        assert_eq!(a, raster::triangle((2, 0), (4, 4), (0, 4), border));
        let b = raster::triangle((1, 1), (7, 3), (3, 6), border);
        assert_eq!(b, raster::triangle((7, 3), (3, 6), (1, 1), border));
        assert_eq!(b, raster::triangle((1, 1), (3, 6), (7, 3), border));
    }
}

#[test]
fn law_filled_triangles_agree() {
    assert_eq!(
        shape_utils::triangle((2, 0), (0, 4), (4, 4), false),
        raster::triangle((2, 0), (0, 4), (4, 4), false)
    );
    assert_eq!(
        shape_utils::triangle((1, 1), (7, 3), (3, 6), false),
        raster::triangle((1, 1), (7, 3), (3, 6), false)
    );
}

#[test]
fn law_raster_oval_border_is_filtered_fill() {
    let (cx, cy, rx, ry) = (6i64, 5i64, 4i64, 3i64);
    let (w, h) = (2 * rx + 1, 2 * ry + 1);
    let inside = |x: i64, y: i64| 4 * (x - cx) * (x - cx) * h * h + 4 * (y - cy) * (y - cy) * w * w <= w * w * h * h;
    let filled = raster::oval(6, 5, 4, 3, false);
    let expected: Vec<(usize, usize)> = filled
        .iter()
        .copied()
        .filter(|&(x, y)| {
            let (x, y) = (x as i64, y as i64);
            !inside(x + 1, y) || !inside(x - 1, y) || !inside(x, y + 1) || !inside(x, y - 1)
        })
        .collect();
    assert_eq!(raster::oval(6, 5, 4, 3, true), expected);
    assert!(expected.len() < filled.len());
}

#[test]
fn law_midpoint_border_shape() {
    let (cx, cy, rx, ry) = (10usize, 3usize, 7usize, 5usize);
    let pts = shape_utils::oval(cx, cy, rx, ry, true);
    assert_eq!(pts[0], (cx, cy + ry));
    for &(x, y) in &pts {
        assert!(x + rx >= cx && x <= cx + rx);
        assert!(y + ry >= cy && y <= cy + ry);
        assert!(pts.contains(&(2 * cx - x, y)));
        if 2 * cy >= y {
            assert!(pts.contains(&(x, 2 * cy - y)));
        }
    }
    let big = shape_utils::oval(50, 40, 30, 20, true);
    assert_eq!(big[0], (50, 60));
    assert!(big.contains(&(50, 20)));
}

#[test]
fn law_grid_stays_consistent() {
    let mut w: World<u32> = World::new(8, 6);
    spawn(&mut w, Element::Sand, 1, 1, ParticleSpawnMode::Overlap);
    spawn(&mut w, Element::Water, 2, 1, ParticleSpawnMode::EmptyOnly);
    spawn(&mut w, Element::Wood, 3, 1, ParticleSpawnMode::Override);
    spawn(&mut w, Element::Sand, 2, 1, ParticleSpawnMode::Override);
    spawn(&mut w, Element::Water, 2, 1, ParticleSpawnMode::EmptyOnly);
    spawn(&mut w, Element::Water, 4, 4, ParticleSpawnMode::Overlap);
    assert!(grid_consistent(&w));
    assert_eq!(w.try_move_particle(0, 1, 2, 1, 2), MoveOutcome::Moved);
    assert!(grid_consistent(&w));
    assert_eq!(w.try_move_particle(3, 4, 4, 4, 4), MoveOutcome::Swapped(4));
    assert!(grid_consistent(&w));
    assert_eq!(w.try_move_particle(2, 2, 1, 2, 1), MoveOutcome::Blocked);
    assert!(grid_consistent(&w));
    w.kill_particle(2);
    assert!(grid_consistent(&w));
    w.kill_particle_at(1, 2);
    assert!(grid_consistent(&w));
    w.cleanup_dead_particles();
    assert!(grid_consistent(&w));
    assert_eq!(w.particles_flat.len(), 2);
    assert_eq!(w.particles_grid.get(4, 4), CellState::Occupied(1));
    assert_eq!(w.particles_grid.get(2, 1), CellState::Occupied(0));
}

#[test]
fn law_populate_makes_grid_consistent() {
    let mut w: World<u32> = World::new(5, 4);
    spawn(&mut w, Element::Sand, 0, 0, ParticleSpawnMode::Overlap);
    spawn(&mut w, Element::Water, 4, 3, ParticleSpawnMode::Overlap);
    spawn(&mut w, Element::Wood, 2, 2, ParticleSpawnMode::Overlap);
    w.particles_flat[1].is_dead = true;
    w.particles_grid.empty();
    assert!(!grid_consistent(&w));
    w.populate_grid();
    assert!(grid_consistent(&w));
    assert_eq!(w.particles_grid.get(4, 3), CellState::Empty);
    assert_eq!(w.particles_grid.get(2, 2), CellState::Occupied(2));
}
