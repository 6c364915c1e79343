use dogeis_powder::color::Color;
use dogeis_powder::element::Element;
use dogeis_powder::world::{CellState, Edge, MoveOutcome, ParticleSpawnMode, World};

fn world_with(parts: &[(Element, isize, isize)]) -> World<u32> {
    let mut w: World<u32> = World::new(8, 6);
    for (i, (e, x, y)) in parts.iter().enumerate() {
        w.spawn_particle(*e, i as u32, *x, *y, *x as usize, *y as usize, ParticleSpawnMode::Overlap);
    }
    w
}

#[test]
fn world_new_is_empty() {
    let w: World<u32> = World::new(8, 6);
    assert!(w.particles_flat.is_empty());
    assert_eq!(w.particles_grid.width, 8);
    assert_eq!(w.particles_grid.height, 6);
    assert_eq!(w.particles_grid.get(3, 3), CellState::Empty);
    assert_eq!(w.edge, Edge::Stop);
    assert_eq!(w.background_color, Color { value: 0xFF1A_1A1A });
}

#[test]
fn world_spawn_overlap_points_grid_at_new() {
    let mut w = world_with(&[(Element::Sand, 2, 3)]);
    assert_eq!(w.particles_grid.get(2, 3), CellState::Occupied(0));
    w.spawn_particle(Element::Water, 9, 2, 3, 2, 3, ParticleSpawnMode::Overlap);
    assert_eq!(w.particles_flat.len(), 2);
    assert!(!w.particles_flat[0].is_dead);
    assert_eq!(w.particles_grid.get(2, 3), CellState::Occupied(1));
    assert_eq!(w.particles_flat[1].body, 9);
    assert_eq!(w.particles_flat[1].element, Element::Water);
}

#[test]
fn world_spawn_override_kills_old() {
    let mut w = world_with(&[(Element::Sand, 2, 3)]);
    w.spawn_particle(Element::Water, 9, 2, 3, 2, 3, ParticleSpawnMode::Override);
    assert_eq!(w.particles_flat.len(), 2);
    assert!(w.particles_flat[0].is_dead);
    assert_eq!(w.particles_grid.get(2, 3), CellState::Occupied(1));
}

#[test]
fn world_spawn_empty_only() {
    let mut w = world_with(&[(Element::Sand, 2, 3)]);
    w.spawn_particle(Element::Water, 9, 2, 3, 2, 3, ParticleSpawnMode::EmptyOnly);
    assert_eq!(w.particles_flat.len(), 1);
    w.spawn_particle(Element::Water, 9, 4, 3, 4, 3, ParticleSpawnMode::EmptyOnly);
    assert_eq!(w.particles_flat.len(), 2);
    assert_eq!(w.particles_grid.get(4, 3), CellState::Occupied(1));
    w.spawn_particle(Element::Water, 9, -1, 3, 0, 3, ParticleSpawnMode::EmptyOnly);
    assert_eq!(w.particles_flat.len(), 2);
}

#[test]
fn world_kill_particle_at() {
    let mut w = world_with(&[(Element::Sand, 2, 3), (Element::Water, 5, 1)]);
    w.kill_particle_at(5, 1);
    assert!(w.particles_flat[1].is_dead);
    assert_eq!(w.particles_grid.get(5, 1), CellState::Empty);
    w.kill_particle_at(5, 1);
    w.kill_particle_at(-3, 1);
    assert!(!w.particles_flat[0].is_dead);
}

#[test]
fn world_kill_twice_same_as_once() {
    let mut w = world_with(&[(Element::Sand, 2, 3)]);
    w.kill_particle(0);
    w.particles_grid.set(2, 3, Some(0));
    w.kill_particle(0);
    assert!(w.particles_flat[0].is_dead);
    assert_eq!(w.particles_grid.get(2, 3), CellState::Occupied(0));
}

#[test]
fn world_move_into_empty() {
    let mut w = world_with(&[(Element::Sand, 2, 3)]);
    assert_eq!(w.try_move_particle(0, 2, 4, 2, 4), MoveOutcome::Moved);
    assert_eq!(w.particles_grid.get(2, 3), CellState::Empty);
    assert_eq!(w.particles_grid.get(2, 4), CellState::Occupied(0));
    assert_eq!((w.particles_flat[0].grid_x, w.particles_flat[0].grid_y), (2, 4));
}

#[test]
fn world_move_within_own_cell() {
    let mut w = world_with(&[(Element::Sand, 2, 3)]);
    assert_eq!(w.try_move_particle(0, 2, 3, 3, 3), MoveOutcome::Moved);
    assert_eq!(w.particles_grid.get(2, 3), CellState::Occupied(0));
    assert_eq!(w.particles_flat[0].grid_x, 3);
}

#[test]
fn world_heavier_sinks_lighter_blocks() {
    let mut w = world_with(&[(Element::Sand, 2, 3), (Element::Water, 2, 4)]);
    assert_eq!(w.try_move_particle(1, 2, 3, 2, 3), MoveOutcome::Blocked);
    assert_eq!(w.particles_grid.get(2, 4), CellState::Occupied(1));
    assert_eq!(w.try_move_particle(0, 2, 4, 2, 4), MoveOutcome::Swapped(1));
    assert_eq!(w.particles_grid.get(2, 4), CellState::Occupied(0));
    assert_eq!(w.particles_grid.get(2, 3), CellState::Occupied(1));
    assert_eq!((w.particles_flat[1].grid_x, w.particles_flat[1].grid_y), (2, 3));
}

#[test]
fn world_equal_density_blocks() {
    let mut w = world_with(&[(Element::Sand, 2, 3), (Element::Sand, 2, 4)]);
    assert_eq!(w.try_move_particle(0, 2, 4, 2, 4), MoveOutcome::Blocked);
}

#[test]
fn world_move_off_grid_blocked() {
    let mut w = world_with(&[(Element::Sand, 0, 0)]);
    assert_eq!(w.try_move_particle(0, -1, 0, 0, 0), MoveOutcome::Blocked);
    assert_eq!(w.try_move_particle(0, 0, 6, 0, 6), MoveOutcome::Blocked);
    assert_eq!(w.particles_grid.get(0, 0), CellState::Occupied(0));
}

#[test]
fn world_populate_last_particle_wins() {
    let mut w = world_with(&[(Element::Sand, 1, 1), (Element::Water, 1, 1), (Element::Wood, 3, 2)]);
    w.particles_grid.empty();
    w.kill_particle(2);
    w.populate_grid();
    assert_eq!(w.particles_grid.get(1, 1), CellState::Occupied(1));
    assert_eq!(w.particles_grid.get(3, 2), CellState::Empty);
}

#[test]
fn world_cleanup_fills_holes_from_the_end() {
    let mut w = world_with(&[
        (Element::Sand, 0, 0),
        (Element::Sand, 1, 0),
        (Element::Water, 2, 0),
        (Element::Sand, 3, 0),
        (Element::Wood, 4, 0),
        (Element::Ice, 5, 0),
    ]);
    w.kill_particle(1);
    w.kill_particle(3);
    w.cleanup_dead_particles();
    let bodies: Vec<u32> = w.particles_flat.iter().map(|p| p.body).collect();
    assert_eq!(bodies, vec![0, 4, 2, 5]);
    assert!(w.particles_flat.iter().all(|p| !p.is_dead));
    assert_eq!(w.particles_grid.get(5, 0), CellState::Occupied(3));
    assert_eq!(w.particles_grid.get(4, 0), CellState::Occupied(1));
}

#[test]
fn world_cleanup_moves_one_particle_twice() {
    let mut w = world_with(&[(Element::Sand, 0, 0), (Element::Sand, 1, 0), (Element::Sand, 2, 0), (Element::Water, 3, 0)]);
    w.kill_particle(1);
    w.kill_particle(2);
    w.cleanup_dead_particles();
    let bodies: Vec<u32> = w.particles_flat.iter().map(|p| p.body).collect();
    assert_eq!(bodies, vec![0, 3]);
    assert_eq!(w.particles_grid.get(3, 0), CellState::Occupied(1));
}
