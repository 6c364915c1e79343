use dogeis_powder::shape::Shape;
use dogeis_powder::tool::{stroke, stroke_cells};

#[test]
fn tool_stroke_stamps_every_line_cell() {
    let cells = stroke(&vec![(5, 5), (6, 5)], &vec![(-1, 0), (0, 0)]);
    assert_eq!(cells, vec![(4, 5), (5, 5), (5, 5), (6, 5)]);
}

#[test]
fn tool_stroke_cells_point_brush() {
    assert_eq!(stroke_cells(5, 5, 7, 5, &Shape::Rect(1, 1)), vec![(5, 5), (6, 5), (7, 5)]);
}

#[test]
fn tool_stroke_cells_count() {
    let cells = stroke_cells(0, 0, 3, 1, &Shape::Rect(3, 3));
    assert_eq!(cells.len(), 4 * 9);
    assert_eq!(cells[0], (-1, -1));
    assert_eq!(*cells.last().unwrap(), (4, 2));
}
