use dogeis_powder::shape::Shape;

#[test]
fn shape_scale_grows_both_sides() {
    let mut s = Shape::Rect(15, 15);
    s.scale_by(1);
    assert_eq!(s, Shape::Rect(17, 17));
    s.scale_by(-2);
    assert_eq!(s, Shape::Rect(13, 13));
}

#[test]
fn shape_scale_clamps_and_stays_odd() {
    let mut s = Shape::Oval(5, 9);
    s.scale_by(-100);
    assert_eq!(s, Shape::Oval(1, 1));
    s.scale_by(1000);
    assert_eq!(s, Shape::Oval(501, 501));
    let mut t = Shape::Tri(4, 10);
    t.scale_by(0);
    assert_eq!(t, Shape::Tri(5, 11));
}

#[test]
fn shape_cycle_forward_and_back() {
    let mut s = Shape::Oval(3, 5);
    s.cycle_forward();
    assert_eq!(s, Shape::Rect(3, 5));
    s.cycle_forward();
    assert_eq!(s, Shape::Tri(3, 5));
    s.cycle_forward();
    assert_eq!(s, Shape::Oval(3, 5));
    s.cycle_backwards();
    assert_eq!(s, Shape::Tri(3, 5));
    s.cycle_forward();
    assert_eq!(s, Shape::Oval(3, 5));
}

#[test]
fn shape_default_is_point_oval() {
    assert_eq!(Shape::default(), Shape::Oval(0, 0));
    assert_eq!(Shape::default().for_each_point(false), vec![(0, 0)]);
}

#[test]
fn shape_rect_points_around_centre() {
    assert_eq!(
        Shape::Rect(3, 3).for_each_point(false),
        vec![(-1, -1), (0, -1), (1, -1), (-1, 0), (0, 0), (1, 0), (-1, 1), (0, 1), (1, 1)]
    );
    assert_eq!(
        Shape::Rect(3, 3).for_each_point(true),
        vec![(-1, -1), (0, -1), (1, -1), (-1, 0), (1, 0), (-1, 1), (0, 1), (1, 1)]
    );
}

#[test]
fn shape_oval_points() {
    assert_eq!(
        Shape::Oval(5, 5).for_each_point(false),
        vec![
            (-1, -2), (0, -2), (1, -2), (-2, -1), (-1, -1), (0, -1), (1, -1), (2, -1), (-2, 0), (-1, 0), (0, 0),
            (1, 0), (2, 0), (-2, 1), (-1, 1), (0, 1), (1, 1), (2, 1), (-1, 2), (0, 2), (1, 2)
        ]
    );
    assert_eq!(Shape::Oval(1, 1).for_each_point(true), vec![(0, 0)]);
}

#[test]
fn shape_tri_points() {
    assert_eq!(Shape::Tri(3, 3).for_each_point(false), vec![(0, -1), (0, 0), (-1, 1), (0, 1), (1, 1)]);
}
