//! Rasterisation of lines, rectangles, ovals and triangles into lists of grid cells.
//!
//! Each routine returns the cells in the order in which it visits them.

use vstd::prelude::*;
use crate::scan::{Region, scan, sorted_row_major, in_box, max3, tri_coord_ok, box_oval_ok};

verus! {

/// The absolute value of an integer.
pub open spec fn abs(a: int) -> int {
    if a < 0 {
        -a
    } else {
        a
    }
}

/// The unit step that leads from `from` towards `to` (`-1` when they are equal).
pub open spec fn step_toward(from: int, to: int) -> int {
    if from < to {
        1
    } else {
        -1
    }
}

/// Cells given as machine coordinates, read as mathematical integers.
pub open spec fn int_points(s: Seq<(usize, usize)>) -> Seq<(int, int)> {
    s.map_values(|p: (usize, usize)| (p.0 as int, p.1 as int))
}

/// One iteration of the integer line walk from the state `(x, y, err)`: a step along x
/// when `2 * err >= dy`, a step along y when `2 * err <= dx`, both decided on the
/// error before the iteration.
pub open spec fn line_next(x: int, y: int, err: int, dx: int, dy: int, sx: int, sy: int) -> (
    int,
    int,
    int,
) {
    let e2 = 2 * err;
    let x2 = if e2 >= dy {
        x + sx
    } else {
        x
    };
    let err2 = if e2 >= dy {
        err + dy
    } else {
        err
    };
    if e2 <= dx {
        (x2, y + sy, err2 + dx)
    } else {
        (x2, y, err2)
    }
}

/// The cells visited by the line walk from state `(x, y, err)` until it reaches `(x1, y1)`,
/// taking at most `fuel` further iterations.
pub open spec fn line_walk(
    x: int,
    y: int,
    err: int,
    x1: int,
    y1: int,
    dx: int,
    dy: int,
    sx: int,
    sy: int,
    fuel: nat,
) -> Seq<(int, int)>
    decreases fuel,
{
    if (x == x1 && y == y1) || fuel == 0 {
        seq![(x, y)]
    } else {
        let n = line_next(x, y, err, dx, dy, sx, sy);
        seq![(x, y)] + line_walk(n.0, n.1, n.2, x1, y1, dx, dy, sx, sy, (fuel - 1) as nat)
    }
}

/// The cells of the integer (Bresenham) line from `(x0, y0)` to `(x1, y1)`, in the order
/// of the walk.
pub open spec fn line_points(x0: int, y0: int, x1: int, y1: int) -> Seq<(int, int)> {
    let dx = abs(x1 - x0);
    let dy = -abs(y1 - y0);
    line_walk(
        x0,
        y0,
        dx + dy,
        x1,
        y1,
        dx,
        dy,
        step_toward(x0, x1),
        step_toward(y0, y1),
        (dx - dy) as nat,
    )
}

/// The largest coordinate for which the line walk's arithmetic fits in `isize`.
pub open spec fn line_coord_max() -> int {
    isize::MAX as int / 4
}

/// Steps taken along x from `x0` towards `x1` to reach `x`.
pub open spec fn steps_from(x0: int, x: int, x1: int) -> int {
    if x0 < x1 {
        x - x0
    } else {
        x0 - x
    }
}

/// What holds of every state that the line walk from `(x0, y0)` to `(x1, y1)` reaches.
pub open spec fn line_inv(x: int, y: int, err: int, x0: int, y0: int, x1: int, y1: int) -> bool {
    let a = abs(x1 - x0);
    let b = abs(y1 - y0);
    let nx = steps_from(x0, x, x1);
    let ny = steps_from(y0, y, y1);
    &&& 0 <= nx <= a
    &&& 0 <= ny <= b
    &&& err == a * (ny + 1) - b * (nx + 1)
    &&& -3 * b <= 2 * err <= 3 * a
}

/// Iterations still needed from `(x, y)` when every iteration moves at least one step.
pub open spec fn line_dist(x: int, y: int, x1: int, y1: int) -> int {
    abs(x1 - x) + abs(y1 - y)
}

/// One iteration of the line walk keeps the walk's invariant and comes strictly closer to
/// the end point.
pub proof fn lemma_line_step(x: int, y: int, err: int, x0: int, y0: int, x1: int, y1: int)
    requires
        line_inv(x, y, err, x0, y0, x1, y1),
        !(x == x1 && y == y1),
    ensures
        ({
            let n = line_next(
                x,
                y,
                err,
                abs(x1 - x0),
                -abs(y1 - y0),
                step_toward(x0, x1),
                step_toward(y0, y1),
            );
            &&& line_inv(n.0, n.1, n.2, x0, y0, x1, y1)
            &&& line_dist(n.0, n.1, x1, y1) < line_dist(x, y, x1, y1)
        }),
{
    let a = abs(x1 - x0);
    let b = abs(y1 - y0);
    let nx = steps_from(x0, x, x1);
    let ny = steps_from(y0, y, y1);
    let e2 = 2 * err;
    let xstep = e2 >= -b;
    let ystep = e2 <= a;
    // no step along x once x is reached
    if nx == a && xstep {
        assert(ny < b);
        assert(a * (ny + 1) <= a * b) by (nonlinear_arith)
            requires
                0 <= a,
                ny + 1 <= b,
        ;
        assert(b * (a + 1) == a * b + b) by (nonlinear_arith);
        assert(false);
    }
    // no step along y once y is reached
    if ny == b && ystep {
        assert(nx < a);
        assert(b * (nx + 1) <= a * b) by (nonlinear_arith)
            requires
                0 <= b,
                nx + 1 <= a,
        ;
        assert(a * (b + 1) == a * b + a) by (nonlinear_arith);
        assert(false);
    }
    let nx2 = if xstep {
        nx + 1
    } else {
        nx
    };
    let ny2 = if ystep {
        ny + 1
    } else {
        ny
    };
    let err2 = err + (if xstep {
        -b
    } else {
        0
    }) + (if ystep {
        a
    } else {
        0
    });
    assert(a * (ny2 + 1) - b * (nx2 + 1) == a * (ny + 1) - b * (nx + 1) + (if xstep {
        -b
    } else {
        0
    }) + (if ystep {
        a
    } else {
        0
    })) by (nonlinear_arith)
        requires
            nx2 == nx + (if xstep {
                1int
            } else {
                0
            }),
            ny2 == ny + (if ystep {
                1int
            } else {
                0
            }),
    ;
}

/// The cells of the straight line from `(x0, y0)` to `(x1, y1)`, both ends included, in the
/// order of the integer (Bresenham) walk.
pub fn line(x0: usize, y0: usize, x1: usize, y1: usize) -> (pts: Vec<(usize, usize)>)
    requires
        x0 <= line_coord_max(),
        y0 <= line_coord_max(),
        x1 <= line_coord_max(),
        y1 <= line_coord_max(),
    ensures
        int_points(pts@) == line_points(x0 as int, y0 as int, x1 as int, y1 as int),
{
    let mut x: isize = x0 as isize;
    let mut y: isize = y0 as isize;
    let ex: isize = x1 as isize;
    let ey: isize = y1 as isize;
    let dx: isize = if ex >= x {
        ex - x
    } else {
        x - ex
    };
    let dy: isize = if ey >= y {
        y - ey
    } else {
        ey - y
    };
    let sx: isize = if x < ex {
        1
    } else {
        -1
    };
    let sy: isize = if y < ey {
        1
    } else {
        -1
    };
    let mut err: isize = dx + dy;
    let mut pts: Vec<(usize, usize)> = Vec::new();
    let ghost mut fuel: nat = (dx - dy) as nat;
    let ghost spec_pts = line_points(x0 as int, y0 as int, x1 as int, y1 as int);
    assert(int_points(pts@) =~= Seq::<(int, int)>::empty());
    proof {
        let a = abs(x1 - x0);
        let b = abs(y1 - y0);
        assert(a * (0 + 1) - b * (0 + 1) == a - b) by (nonlinear_arith);
    }
    while !(x == ex && y == ey)
        invariant
            dx == abs(x1 - x0),
            dy == -abs(y1 - y0),
            sx == step_toward(x0 as int, x1 as int),
            sy == step_toward(y0 as int, y1 as int),
            ex == x1,
            ey == y1,
            x0 <= line_coord_max(),
            y0 <= line_coord_max(),
            x1 <= line_coord_max(),
            y1 <= line_coord_max(),
            line_inv(x as int, y as int, err as int, x0 as int, y0 as int, x1 as int, y1 as int),
            fuel >= line_dist(x as int, y as int, x1 as int, y1 as int),
            spec_pts == line_points(x0 as int, y0 as int, x1 as int, y1 as int),
            int_points(pts@) + line_walk(
                x as int,
                y as int,
                err as int,
                x1 as int,
                y1 as int,
                dx as int,
                dy as int,
                sx as int,
                sy as int,
                fuel,
            ) == spec_pts,
        decreases line_dist(x as int, y as int, x1 as int, y1 as int),
    {
        proof {
            lemma_line_step(x as int, y as int, err as int, x0 as int, y0 as int, x1 as int, y1 as int);
        }
        let ghost old_pts = pts@;
        let ghost (gx, gy, gerr) = (x as int, y as int, err as int);
        pts.push((x as usize, y as usize));
        assert(int_points(pts@) =~= int_points(old_pts).push((gx, gy)));
        let e2: isize = 2 * err;
        if e2 >= dy {
            err = err + dy;
            x = x + sx;
        }
        if e2 <= dx {
            err = err + dx;
            y = y + sy;
        }
        proof {
            let n = line_next(gx, gy, gerr, dx as int, dy as int, sx as int, sy as int);
            assert(n == (x as int, y as int, err as int));
            assert(int_points(old_pts).push((gx, gy)) + line_walk(
                x as int,
                y as int,
                err as int,
                x1 as int,
                y1 as int,
                dx as int,
                dy as int,
                sx as int,
                sy as int,
                (fuel - 1) as nat,
            ) =~= int_points(old_pts) + line_walk(
                gx,
                gy,
                gerr,
                x1 as int,
                y1 as int,
                dx as int,
                dy as int,
                sx as int,
                sy as int,
                fuel,
            ));
            fuel = (fuel - 1) as nat;
        }
    }
    let ghost old_pts = pts@;
    pts.push((x as usize, y as usize));
    assert(int_points(pts@) =~= int_points(old_pts).push((x as int, y as int)));
    assert(int_points(pts@) =~= spec_pts);
    pts
}


/// `a - b`, or 0 when `b > a`.
pub open spec fn sat_sub(a: int, b: int) -> int {
    if a >= b {
        a - b
    } else {
        0
    }
}

/// The smallest of three integers.
pub open spec fn min3(a: int, b: int, c: int) -> int {
    if a <= b && a <= c {
        a
    } else if b <= c {
        b
    } else {
        c
    }
}

/// The cells that `rect` draws: all cells of the `width x height` rectangle at the origin,
/// or with `border_only` those in its first or last row or column.
pub open spec fn rect_cell(width: int, height: int, border_only: bool, p: (int, int)) -> bool {
    Region::Rect { width: width as usize, height: height as usize, border_only }.keeps(p.0, p.1)
}

/// The cells of the `width x height` rectangle whose top-left cell is `(0, 0)`, or only its
/// outermost cells, row by row.
pub fn rect(width: usize, height: usize, border_only: bool) -> (pts: Vec<(usize, usize)>)
    ensures
        sorted_row_major(int_points(pts@)),
        forall|p: (int, int)|
            #![trigger int_points(pts@).contains(p)]
            int_points(pts@).contains(p) <==> rect_cell(width as int, height as int, border_only, p),
{
    let region = Region::Rect { width, height, border_only };
    let pts = scan(&region, 0, width, 0, height);
    assert forall|p: (int, int)|
        #![trigger int_points(pts@).contains(p)]
        int_points(pts@).contains(p) <==> rect_cell(width as int, height as int, border_only, p) by {
        if rect_cell(width as int, height as int, border_only, p) {
            assert(in_box(p, 0, width as int, 0, height as int));
        }
    }
    pts
}

/// The oval test that `oval` draws: the oval filling the `(2 rx + 1) x (2 ry + 1)` box
/// around `(cx, cy)`, or with `border_only` its cells with a neighbour outside it.
pub open spec fn box_oval_cell(cx: int, cy: int, rx: int, ry: int, border_only: bool, p: (int, int)) -> bool {
    Region::BoxOval { cx: cx as usize, cy: cy as usize, rx: rx as usize, ry: ry as usize, border_only }.keeps(p.0, p.1)
}

/// The cells of the oval with radii `rx`, `ry` centred on `(cx, cy)` (or its border), row by
/// row within its bounding box; just the centre when a radius is 0.
pub fn oval(cx: usize, cy: usize, rx: usize, ry: usize, border_only: bool) -> (pts: Vec<(usize, usize)>)
    requires
        rx == 0 || ry == 0 || box_oval_ok(cx as int, cy as int, rx as int, ry as int, border_only),
    ensures
        rx == 0 || ry == 0 ==> pts@ == seq![(cx, cy)],
        rx != 0 && ry != 0 ==> sorted_row_major(int_points(pts@)),
        rx != 0 && ry != 0 ==> forall|p: (int, int)|
            #![trigger int_points(pts@).contains(p)]
            int_points(pts@).contains(p) <==> (in_box(
                p,
                sat_sub(cx as int, rx as int),
                cx + rx + 1,
                sat_sub(cy as int, ry as int),
                cy + ry + 1,
            ) && box_oval_cell(cx as int, cy as int, rx as int, ry as int, border_only, p)),
{
    if rx == 0 || ry == 0 {
        let mut pts: Vec<(usize, usize)> = Vec::new();
        pts.push((cx, cy));
        assert(pts@ =~= seq![(cx, cy)]);
        return pts;
    }
    let start_y: usize = cy.saturating_sub(ry);
    let start_x: usize = cx.saturating_sub(rx);
    let region = Region::BoxOval { cx, cy, rx, ry, border_only };
    scan(&region, start_x, cx + rx + 1, start_y, cy + ry + 1)
}

/// The smaller of two coordinates.
fn min_usize(a: usize, b: usize) -> (m: usize)
    ensures
        m == if a <= b {
            a
        } else {
            b
        },
{
    if a <= b {
        a
    } else {
        b
    }
}

/// The larger of two coordinates.
fn max_usize(a: usize, b: usize) -> (m: usize)
    ensures
        m == if a >= b {
            a
        } else {
            b
        },
{
    if a >= b {
        a
    } else {
        b
    }
}

/// The six corner coordinates are small enough for the edge tests.
pub open spec fn triangle_fits(p0: (usize, usize), p1: (usize, usize), p2: (usize, usize)) -> bool {
    &&& tri_coord_ok(p0.0 as int) && tri_coord_ok(p0.1 as int)
    &&& tri_coord_ok(p1.0 as int) && tri_coord_ok(p1.1 as int)
    &&& tri_coord_ok(p2.0 as int) && tri_coord_ok(p2.1 as int)
}

/// The cells that `triangle` draws: those of the closed triangle, or with `border_only`
/// its cells with a neighbour outside it.
pub open spec fn triangle_cell(
    p0: (usize, usize),
    p1: (usize, usize),
    p2: (usize, usize),
    border_only: bool,
    p: (int, int),
) -> bool {
    Region::Triangle { p0, p1, p2, border_only }.keeps(p.0, p.1)
}

/// The bounding box of a triangle holds `p`.
pub open spec fn in_triangle_box(p0: (usize, usize), p1: (usize, usize), p2: (usize, usize), p: (int, int)) -> bool {
    in_box(
        p,
        min3(p0.0 as int, p1.0 as int, p2.0 as int),
        max3(p0.0 as int, p1.0 as int, p2.0 as int) + 1,
        min3(p0.1 as int, p1.1 as int, p2.1 as int),
        max3(p0.1 as int, p1.1 as int, p2.1 as int) + 1,
    )
}

/// The cells of the triangle `p0 p1 p2` (or its border), row by row within its bounding
/// box.
pub fn triangle(p0: (usize, usize), p1: (usize, usize), p2: (usize, usize), border_only: bool) -> (pts: Vec<(usize, usize)>)
    requires
        triangle_fits(p0, p1, p2),
    ensures
        sorted_row_major(int_points(pts@)),
        forall|p: (int, int)|
            #![trigger int_points(pts@).contains(p)]
            int_points(pts@).contains(p) <==> (in_triangle_box(p0, p1, p2, p) && triangle_cell(p0, p1, p2, border_only, p)),
{
    proof {
        crate::scan::lemma_tri_coord_small(p0.0 as int);
        crate::scan::lemma_tri_coord_small(p1.0 as int);
        crate::scan::lemma_tri_coord_small(p2.0 as int);
        crate::scan::lemma_tri_coord_small(p0.1 as int);
        crate::scan::lemma_tri_coord_small(p1.1 as int);
        crate::scan::lemma_tri_coord_small(p2.1 as int);
    }
    let min_x = min_usize(min_usize(p0.0, p1.0), p2.0);
    let max_x = max_usize(max_usize(p0.0, p1.0), p2.0);
    let min_y = min_usize(min_usize(p0.1, p1.1), p2.1);
    let max_y = max_usize(max_usize(p0.1, p1.1), p2.1);
    let region = Region::Triangle { p0, p1, p2, border_only };
    scan(&region, min_x, max_x + 1, min_y, max_y + 1)
}

} // verus!
