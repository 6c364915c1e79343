use dogeis_powder::raster;

#[test]
fn rect_filled_row_by_row() {
    assert_eq!(raster::rect(3, 2, false), vec![(0, 0), (1, 0), (2, 0), (0, 1), (1, 1), (2, 1)]);
}

#[test]
fn rect_border_skips_inside() {
    let pts = raster::rect(3, 3, true);
    assert_eq!(pts.len(), 8);
    assert!(!pts.contains(&(1, 1)));
}

#[test]
fn rect_empty_when_zero_sized() {
    assert!(raster::rect(0, 5, false).is_empty());
    assert!(raster::rect(4, 0, true).is_empty());
}

#[test]
fn rect_filled_count_is_area() {
    assert_eq!(raster::rect(7, 5, false).len(), 35);
}

#[test]
fn line_shallow() {
    assert_eq!(raster::line(0, 0, 5, 2), vec![(0, 0), (1, 0), (2, 1), (3, 1), (4, 2), (5, 2)]);
}

#[test]
fn line_steep_backwards() {
    assert_eq!(raster::line(3, 1, 0, 7), vec![(3, 1), (2, 2), (2, 3), (1, 4), (1, 5), (0, 6), (0, 7)]);
}

#[test]
fn line_single_point() {
    assert_eq!(raster::line(2, 2, 2, 2), vec![(2, 2)]);
}

#[test]
fn line_horizontal_reverse() {
    assert_eq!(raster::line(4, 0, 0, 0), vec![(4, 0), (3, 0), (2, 0), (1, 0), (0, 0)]);
}

#[test]
fn line_laws_on_concrete_values() {
    let pts = raster::line(10, 3, 2, 9);
    assert_eq!(pts[0], (10, 3));
    assert_eq!(*pts.last().unwrap(), (2, 9));
    assert_eq!(pts.len(), 9);
    for w in pts.windows(2) {
        let dx = w[0].0 as isize - w[1].0 as isize;
        let dy = w[0].1 as isize - w[1].1 as isize;
        assert!(dx.abs() <= 1 && dy.abs() <= 1 && (dx, dy) != (0, 0));
    }
    for p in &pts {
        assert!(2 <= p.0 && p.0 <= 10 && 3 <= p.1 && p.1 <= 9);
    }
}

#[test]
fn oval_zero_radius_is_centre() {
    assert_eq!(raster::oval(5, 5, 0, 3, false), vec![(5, 5)]);
    assert_eq!(raster::oval(5, 5, 3, 0, true), vec![(5, 5)]);
}

#[test]
fn oval_unit_fills_box() {
    assert_eq!(
        raster::oval(1, 1, 1, 1, false),
        vec![(0, 0), (1, 0), (2, 0), (0, 1), (1, 1), (2, 1), (0, 2), (1, 2), (2, 2)]
    );
}

#[test]
fn oval_unit_border_skips_centre() {
    assert_eq!(
        raster::oval(1, 1, 1, 1, true),
        vec![(0, 0), (1, 0), (2, 0), (0, 1), (2, 1), (0, 2), (1, 2), (2, 2)]
    );
}

#[test]
fn oval_wide() {
    assert_eq!(
        raster::oval(2, 1, 2, 1, false),
        vec![(1, 0), (2, 0), (3, 0), (0, 1), (1, 1), (2, 1), (3, 1), (4, 1), (1, 2), (2, 2), (3, 2)]
    );
}

#[test]
fn oval_border_bigger() {
    assert_eq!(
        raster::oval(3, 3, 3, 2, true),
        vec![
            (1, 1), (2, 1), (3, 1), (4, 1), (5, 1), (0, 2), (6, 2), (0, 3),
            (6, 3), (0, 4), (6, 4), (1, 5), (2, 5), (3, 5), (4, 5), (5, 5)
        ]
    );
}

#[test]
fn oval_clipped_at_grid_corner() {
    assert_eq!(raster::oval(0, 0, 2, 2, false), vec![(0, 0), (1, 0), (2, 0), (0, 1), (1, 1), (2, 1), (0, 2), (1, 2)]);
}

#[test]
fn triangle_filled_corner() {
    assert_eq!(
        raster::triangle((0, 0), (2, 0), (0, 2), false),
        vec![(0, 0), (1, 0), (2, 0), (0, 1), (1, 1), (0, 2)]
    );
}

#[test]
fn triangle_filled_upright() {
    assert_eq!(
        raster::triangle((2, 0), (0, 4), (4, 4), false),
        vec![(2, 0), (2, 1), (1, 2), (2, 2), (3, 2), (1, 3), (2, 3), (3, 3), (0, 4), (1, 4), (2, 4), (3, 4), (4, 4)]
    );
}

#[test]
fn triangle_border_upright() {
    assert_eq!(
        raster::triangle((2, 0), (0, 4), (4, 4), true),
        vec![(2, 0), (2, 1), (1, 2), (3, 2), (1, 3), (3, 3), (0, 4), (1, 4), (2, 4), (3, 4), (4, 4)]
    );
}

#[test]
fn oval_filled_at_the_isize_edge() {
    let cx = isize::MAX as usize - 1;
    let pts = raster::oval(cx, 5, 1, 1, false);
    assert_eq!(pts.len(), 9);
    assert_eq!(pts[0], (cx - 1, 4));
    assert_eq!(pts[8], (cx + 1, 6));
}
