use dogeis_powder::world::{CellState, IndexGrid};

#[test]
fn grid_new_is_empty() {
    let g = IndexGrid::new(4, 3);
    assert_eq!(g.width, 4);
    assert_eq!(g.height, 3);
    for y in 0..3 {
        for x in 0..4 {
            assert_eq!(g.get(x, y), CellState::Empty);
        }
    }
}

#[test]
fn grid_out_of_bounds() {
    let g = IndexGrid::new(4, 3);
    assert_eq!(g.get(-1, 0), CellState::OutOfBounds);
    assert_eq!(g.get(0, -1), CellState::OutOfBounds);
    assert_eq!(g.get(4, 0), CellState::OutOfBounds);
    assert_eq!(g.get(0, 3), CellState::OutOfBounds);
}

#[test]
fn grid_set_then_get() {
    let mut g = IndexGrid::new(4, 3);
    g.set(2, 1, Some(7));
    assert_eq!(g.get(2, 1), CellState::Occupied(7));
    assert_eq!(g.get(1, 2), CellState::Empty);
    g.set(2, 1, None);
    assert_eq!(g.get(2, 1), CellState::Empty);
}

#[test]
fn grid_set_past_row_end_writes_next_row() {
    let mut g = IndexGrid::new(4, 3);
    g.set(5, 0, Some(1));
    assert_eq!(g.get(1, 1), CellState::Occupied(1));
}

#[test]
fn grid_empty_clears() {
    let mut g = IndexGrid::new(2, 2);
    g.set(0, 0, Some(1));
    g.set(1, 1, Some(2));
    g.empty();
    assert_eq!(g.get(0, 0), CellState::Empty);
    assert_eq!(g.get(1, 1), CellState::Empty);
    assert_eq!(g.width, 2);
}
