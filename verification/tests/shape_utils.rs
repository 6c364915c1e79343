use dogeis_powder::shape_utils;

#[test]
fn shape_utils_rect_and_line_match_raster() {
    assert_eq!(shape_utils::rect(4, 3, true), dogeis_powder::raster::rect(4, 3, true));
    assert_eq!(shape_utils::line(7, 1, 2, 4), dogeis_powder::raster::line(7, 1, 2, 4));
}

#[test]
fn shape_utils_oval_filled() {
    assert_eq!(
        shape_utils::oval(2, 2, 2, 1, false),
        vec![(2, 1), (0, 2), (1, 2), (2, 2), (3, 2), (4, 2), (2, 3)]
    );
}

#[test]
fn shape_utils_oval_border_midpoint() {
    assert_eq!(
        shape_utils::oval(2, 2, 2, 1, true),
        vec![(2, 3), (2, 3), (2, 1), (2, 1), (3, 3), (1, 3), (3, 1), (1, 1), (4, 2), (0, 2), (4, 2), (0, 2)]
    );
}

#[test]
fn shape_utils_oval_border_circle() {
    assert_eq!(
        shape_utils::oval(5, 5, 3, 3, true),
        vec![
            (5, 8), (5, 8), (5, 2), (5, 2), (6, 8), (4, 8), (6, 2), (4, 2), (7, 7), (3, 7),
            (7, 3), (3, 3), (8, 6), (2, 6), (8, 4), (2, 4), (8, 5), (2, 5), (8, 5), (2, 5)
        ]
    );
}

#[test]
fn shape_utils_oval_border_drops_cells_off_grid() {
    assert_eq!(shape_utils::oval(0, 0, 2, 1, true), vec![(0, 1), (0, 1), (1, 1), (2, 0), (2, 0)]);
}

#[test]
fn shape_utils_oval_zero_radius() {
    assert_eq!(shape_utils::oval(3, 4, 0, 0, true), vec![(3, 4)]);
}

#[test]
fn shape_utils_triangle_border_is_three_lines() {
    assert_eq!(
        shape_utils::triangle((1, 0), (0, 2), (2, 2), true),
        vec![(1, 0), (0, 1), (0, 2), (0, 2), (1, 2), (2, 2), (2, 2), (1, 1), (1, 0)]
    );
}

#[test]
fn shape_utils_triangle_filled() {
    assert_eq!(
        shape_utils::triangle((0, 0), (2, 0), (0, 2), false),
        vec![(0, 0), (1, 0), (2, 0), (0, 1), (1, 1), (0, 2)]
    );
}

#[test]
fn shape_utils_oval_border_large_radius() {
    let pts = shape_utils::oval(500, 500, 300, 300, true);
    assert_eq!(pts.len(), 1700);
    assert_eq!(&pts[..6], &[(500, 800), (500, 800), (500, 200), (500, 200), (501, 800), (499, 800)]);
    assert_eq!(&pts[1696..], &[(800, 500), (200, 500), (800, 500), (200, 500)]);
    assert_eq!(pts.iter().map(|p| p.0).min(), Some(200));
    assert_eq!(pts.iter().map(|p| p.0).max(), Some(800));
    assert_eq!(pts.iter().map(|p| p.1).min(), Some(200));
    assert_eq!(pts.iter().map(|p| p.1).max(), Some(800));
}

#[test]
fn shape_utils_oval_filled_at_the_isize_edge() {
    let cx = isize::MAX as usize - 1;
    assert_eq!(
        shape_utils::oval(cx, 5, 1, 1, false),
        vec![(cx, 4), (cx - 1, 5), (cx, 5), (cx + 1, 5), (cx, 6)]
    );
}
