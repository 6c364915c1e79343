//! A second set of rasterisers: the same rectangle and line as `raster`, a filled oval by
//! the radius test with a midpoint-algorithm border, and a triangle whose border is drawn
//! with three lines.

use vstd::prelude::*;
use crate::raster::{self, int_points, line_points, line_coord_max, rect_cell, sat_sub, triangle_fits, in_triangle_box, triangle_cell};
use crate::scan::{Region, scan, sorted_row_major, in_box, radius_oval_ok, radius_oval_inside};

verus! {

/// The cells of the `width x height` rectangle at the origin, or only its outermost
/// cells, row by row.
pub fn rect(width: usize, height: usize, border_only: bool) -> (pts: Vec<(usize, usize)>)
    ensures
        sorted_row_major(int_points(pts@)),
        forall|p: (int, int)|
            #![trigger int_points(pts@).contains(p)]
            int_points(pts@).contains(p) <==> rect_cell(width as int, height as int, border_only, p),
{
    raster::rect(width, height, border_only)
}

/// The cells of the straight line from `(x0, y0)` to `(x1, y1)`, both ends included.
pub fn line(x0: usize, y0: usize, x1: usize, y1: usize) -> (pts: Vec<(usize, usize)>)
    requires
        x0 <= line_coord_max(),
        y0 <= line_coord_max(),
        x1 <= line_coord_max(),
        y1 <= line_coord_max(),
    ensures
        int_points(pts@) == line_points(x0 as int, y0 as int, x1 as int, y1 as int),
{
    raster::line(x0, y0, x1, y1)
}

/// A coordinate that a grid cell can have.
pub open spec fn fits_usize(c: int) -> bool {
    0 <= c <= usize::MAX
}

/// The cell `(a, b)` when both coordinates are valid, else nothing.
pub open spec fn cell_if_valid(a: int, b: int) -> Seq<(int, int)> {
    if fits_usize(a) && fits_usize(b) {
        seq![(a, b)]
    } else {
        Seq::empty()
    }
}

/// The four mirror images of the offset `(x, y)` around `(cx, cy)`, in the order
/// `(+x, +y)`, `(-x, +y)`, `(+x, -y)`, `(-x, -y)`, leaving out those off the grid.
pub open spec fn plot_four(cx: int, cy: int, x: int, y: int) -> Seq<(int, int)> {
    cell_if_valid(cx + x, cy + y) + cell_if_valid(cx - x, cy + y) + cell_if_valid(cx + x, cy - y)
        + cell_if_valid(cx - x, cy - y)
}

/// The first region of the midpoint walk continues while the slope is above -1.
pub open spec fn mp_first_cond(rx2: int, ry2: int, x: int, y: int) -> bool {
    2 * ry2 * x <= 2 * rx2 * y
}

/// One step of the first region: x always advances, y drops when the decision is not
/// negative.
pub open spec fn mp_first_next(rx2: int, ry2: int, x: int, y: int, p: int) -> (int, int, int) {
    let x1 = x + 1;
    if p < 0 {
        (x1, y, p + 2 * ry2 * x1 + ry2)
    } else {
        let y1 = y - 1;
        (x1, y1, p + 2 * ry2 * x1 - 2 * rx2 * y1 + ry2)
    }
}

/// The cells plotted in the first region from state `(x, y, p)`.
pub open spec fn mp_first_points(cx: int, cy: int, rx2: int, ry2: int, x: int, y: int, p: int, fuel: nat) -> Seq<
    (int, int),
>
    decreases fuel,
{
    if !mp_first_cond(rx2, ry2, x, y) || fuel == 0 {
        Seq::empty()
    } else {
        let n = mp_first_next(rx2, ry2, x, y, p);
        plot_four(cx, cy, x, y) + mp_first_points(cx, cy, rx2, ry2, n.0, n.1, n.2, (fuel - 1) as nat)
    }
}

/// The state in which the first region ends.
pub open spec fn mp_first_end(rx2: int, ry2: int, x: int, y: int, p: int, fuel: nat) -> (int, int, int)
    decreases fuel,
{
    if !mp_first_cond(rx2, ry2, x, y) || fuel == 0 {
        (x, y, p)
    } else {
        let n = mp_first_next(rx2, ry2, x, y, p);
        mp_first_end(rx2, ry2, n.0, n.1, n.2, (fuel - 1) as nat)
    }
}

/// Division by 4 rounding towards zero.
pub open spec fn trunc_div4(v: int) -> int {
    if v >= 0 {
        v / 4
    } else {
        -((-v) / 4)
    }
}

/// The decision value with which the second region starts:
/// `ry^2 (x + 1/2)^2 + rx^2 (y - 1)^2 - rx^2 ry^2`, rounded towards zero.
pub open spec fn mp_second_start(rx2: int, ry2: int, x: int, y: int) -> int {
    trunc_div4(ry2 * ((2 * x + 1) * (2 * x + 1)) + 4 * rx2 * ((y - 1) * (y - 1)) - 4 * rx2 * ry2)
}

/// One step of the second region: y always drops, x advances when the decision is not
/// positive.
pub open spec fn mp_second_next(rx2: int, ry2: int, x: int, y: int, p: int) -> (int, int, int) {
    let y1 = y - 1;
    if p > 0 {
        (x, y1, p + rx2 - 2 * rx2 * y1)
    } else {
        let x1 = x + 1;
        (x1, y1, p + 2 * ry2 * x1 - 2 * rx2 * y1 + rx2)
    }
}

/// The cells plotted in the second region from state `(x, y, p)`, until y is negative.
pub open spec fn mp_second_points(cx: int, cy: int, rx2: int, ry2: int, x: int, y: int, p: int, fuel: nat) -> Seq<
    (int, int),
>
    decreases fuel,
{
    if y < 0 || fuel == 0 {
        Seq::empty()
    } else {
        let n = mp_second_next(rx2, ry2, x, y, p);
        plot_four(cx, cy, x, y) + mp_second_points(cx, cy, rx2, ry2, n.0, n.1, n.2, (fuel - 1) as nat)
    }
}

/// The cells of the border of the oval with radii `rx`, `ry` around `(cx, cy)`, as the
/// midpoint algorithm plots them (mirror images of each first-quadrant point, repeats
/// included).
pub open spec fn oval_border_points(cx: int, cy: int, rx: int, ry: int) -> Seq<(int, int)> {
    let rx2 = rx * rx;
    let ry2 = ry * ry;
    let p0 = ry2 - rx2 * ry + rx2 / 4;
    let fuel1 = (rx2 + 2) as nat;
    let e = mp_first_end(rx2, ry2, 0, ry, p0, fuel1);
    mp_first_points(cx, cy, rx2, ry2, 0, ry, p0, fuel1) + mp_second_points(
        cx,
        cy,
        rx2,
        ry2,
        e.0,
        e.1,
        mp_second_start(rx2, ry2, e.0, e.1),
        (e.1 + 1) as nat,
    )
}

/// The size that bounds every value of the midpoint walk for radii `rx`, `ry` (whose `x`
/// never passes `rx`).
pub open spec fn mp_size(rx: int, ry: int) -> int {
    let rx2 = rx * rx;
    let ry2 = ry * ry;
    let big_x = rx + 1;
    ry2 * ((2 * big_x + 3) * (2 * big_x + 3)) + 4 * rx2 * ((ry + 2) * (ry + 2)) + 4 * rx2 * ry2
}

/// The radii for which the midpoint walk's arithmetic fits in `isize` and the start of its
/// second region, a sum of multiples of 1/4 below `2^51` in size, is exact in `f64`.
pub open spec fn midpoint_oval_ok(rx: int, ry: int) -> bool {
    &&& 1 <= rx && 1 <= ry
    &&& 8 * mp_size(rx, ry) + 64 <= isize::MAX
    &&& mp_size(rx, ry) <= 0x10_0000_0000_0000
}

/// While the first region runs, the point `(x, y - 1/2)` lies inside the oval:
/// `ry^2 x^2 + rx^2 (y - 1/2)^2 <= rx^2 ry^2`.
pub open spec fn mp_first_inv(rx2: int, ry2: int, x: int, y: int) -> bool {
    mp_first_cond(rx2, ry2, x, y) ==> 4 * ry2 * (x * x) + rx2 * ((2 * y - 1) * (2 * y - 1)) <= 4 * rx2 * ry2
}


/// Four times the first region's decision value, exactly: `4 F(x + 1, y - 1/2)` for
/// `F(u, v) = ry^2 u^2 + rx^2 v^2 - rx^2 ry^2`.
pub open spec fn mp_first_poly(rx2: int, ry2: int, x: int, y: int) -> int {
    4 * ry2 * ((x + 1) * (x + 1)) + rx2 * ((2 * y - 1) * (2 * y - 1)) - 4 * rx2 * ry2
}

/// Four times the second region's decision value, exactly: `4 F(x + 1/2, y - 1)`.
pub open spec fn mp_second_poly(rx2: int, ry2: int, x: int, y: int) -> int {
    ry2 * ((2 * x + 1) * (2 * x + 1)) + 4 * rx2 * ((y - 1) * (y - 1)) - 4 * rx2 * ry2
}

/// Every value that the midpoint walk computes at a state with `0 <= x <= rx + 1`
/// and `-1 <= y <= ry` is bounded by `mp_size(rx, ry)`.
proof fn lemma_mp_bounds(rx: int, ry: int, x: int, y: int)
    requires
        1 <= rx,
        1 <= ry,
        0 <= x <= rx + 1,
        -1 <= y <= ry,
    ensures
        ({
            let rx2 = rx * rx;
            let ry2 = ry * ry;
            let s = mp_size(rx, ry);
            &&& 1 <= rx2 <= s
            &&& 1 <= ry2 <= s
            &&& 0 <= 4 * rx2 * ry2 <= s
            &&& -s <= mp_first_poly(rx2, ry2, x, y) <= s
            &&& -s <= mp_second_poly(rx2, ry2, x, y) <= s
            &&& 0 <= 2 * ry2 * x <= s
            &&& -s <= 2 * rx2 * y <= s
            &&& 0 <= ry2 * ((2 * x + 1) * (2 * x + 1)) <= s
            &&& 0 <= 4 * rx2 * ((y - 1) * (y - 1)) <= s
            &&& 0 <= (2 * x + 1) * (2 * x + 1) <= s
            &&& 0 <= (y - 1) * (y - 1) <= s
            &&& 0 <= 4 * rx2 <= s
            &&& 0 <= rx2 * ry <= s
        }),
{
    let rx2 = rx * rx;
    let ry2 = ry * ry;
    let bx = rx + 1;
    let k = (2 * bx + 3) * (2 * bx + 3);
    let m = (ry + 2) * (ry + 2);
    let s = mp_size(rx, ry);
    assert(1 <= rx2 && 1 <= ry2) by (nonlinear_arith)
        requires
            rx2 == rx * rx,
            ry2 == ry * ry,
            1 <= rx,
            1 <= ry,
    ;
    assert(s == ry2 * k + 4 * rx2 * m + 4 * rx2 * ry2);
    assert(k >= 1 && m >= 1) by (nonlinear_arith)
        requires
            k == (2 * bx + 3) * (2 * bx + 3),
            m == (ry + 2) * (ry + 2),
            bx >= 0,
            ry >= 0,
    ;
    crate::scan::lemma_mul_mono(ry2, 1, ry2, k);
    crate::scan::lemma_mul_mono(rx2, 1, rx2, m);
    crate::scan::lemma_mul_mono(rx2, ry2, rx2, ry2);
    assert(0 <= 4 * rx2 * ry2) by (nonlinear_arith)
        requires
            rx2 >= 1,
            ry2 >= 1,
    ;
    assert(4 * rx2 * ry2 == 4 * (rx2 * ry2)) by (nonlinear_arith);
    assert(4 * rx2 * m == 4 * (rx2 * m)) by (nonlinear_arith);
    // first polynomial
    assert(0 <= 4 * ((x + 1) * (x + 1)) <= k) by (nonlinear_arith)
        requires
            0 <= x <= bx,
            k == (2 * bx + 3) * (2 * bx + 3),
    ;
    crate::scan::lemma_mul_mono(ry2, 4 * ((x + 1) * (x + 1)), ry2, k);
    assert(4 * ry2 * ((x + 1) * (x + 1)) == ry2 * (4 * ((x + 1) * (x + 1)))) by (nonlinear_arith);
    crate::scan::lemma_mul_abs_bound(2 * y - 1, 2 * y - 1, 2 * (ry + 2), 2 * (ry + 2));
    assert((2 * (ry + 2)) * (2 * (ry + 2)) == 4 * m) by (nonlinear_arith)
        requires
            m == (ry + 2) * (ry + 2),
    ;
    assert(0 <= (2 * y - 1) * (2 * y - 1)) by (nonlinear_arith);
    crate::scan::lemma_mul_mono(rx2, (2 * y - 1) * (2 * y - 1), rx2, 4 * m);
    assert(rx2 * (4 * m) == 4 * rx2 * m) by (nonlinear_arith);
    // second polynomial
    assert(0 <= (2 * x + 1) * (2 * x + 1) <= k) by (nonlinear_arith)
        requires
            0 <= x <= bx,
            k == (2 * bx + 3) * (2 * bx + 3),
    ;
    crate::scan::lemma_mul_mono(ry2, (2 * x + 1) * (2 * x + 1), ry2, k);
    crate::scan::lemma_mul_abs_bound(y - 1, y - 1, ry + 2, ry + 2);
    assert(0 <= (y - 1) * (y - 1)) by (nonlinear_arith);
    crate::scan::lemma_mul_mono(rx2, (y - 1) * (y - 1), rx2, m);
    assert(4 * rx2 * ((y - 1) * (y - 1)) == 4 * (rx2 * ((y - 1) * (y - 1)))) by (nonlinear_arith);
    // linear terms
    assert(0 <= 2 * x <= k) by (nonlinear_arith)
        requires
            0 <= x <= bx,
            k == (2 * bx + 3) * (2 * bx + 3),
    ;
    crate::scan::lemma_mul_mono(ry2, 2 * x, ry2, k);
    assert(2 * ry2 * x == ry2 * (2 * x)) by (nonlinear_arith);
    assert(-(4 * m) <= 2 * y <= 4 * m) by (nonlinear_arith)
        requires
            -1 <= y <= ry,
            m == (ry + 2) * (ry + 2),
    ;
    crate::scan::lemma_mul_abs_bound(rx2, 2 * y, rx2, 4 * m);
    assert(2 * rx2 * y == rx2 * (2 * y)) by (nonlinear_arith);
    crate::scan::lemma_mul_mono(1, (2 * x + 1) * (2 * x + 1), ry2, k);
    crate::scan::lemma_mul_mono(1, (y - 1) * (y - 1), rx2, m);
    crate::scan::lemma_mul_mono(4 * rx2, 1, 4 * rx2, m);
    assert(4 * rx2 * m == (4 * rx2) * m) by (nonlinear_arith);
    assert(ry <= 4 * m) by (nonlinear_arith)
        requires
            m == (ry + 2) * (ry + 2),
            ry >= 1,
    ;
    crate::scan::lemma_mul_mono(rx2, ry, rx2, 4 * m);
}

/// The first region starts at `(0, ry)` with its point `(0, ry - 1/2)` inside the oval and
/// with `4 p` equal to `4 F(1, ry - 1/2)` less the remainder of `rx^2 / 4`.
pub proof fn lemma_first_start(rx: int, ry: int)
    requires
        1 <= rx,
        1 <= ry,
    ensures
        ({
            let a2 = rx * rx;
            let b2 = ry * ry;
            &&& mp_first_inv(a2, b2, 0, ry)
            &&& 4 * (b2 - a2 * ry + a2 / 4) == mp_first_poly(a2, b2, 0, ry) - a2 % 4
        }),
{
    let a2 = rx * rx;
    let b2 = ry * ry;
    let p0 = b2 - a2 * ry + a2 / 4;
    assert(a2 >= 1) by (nonlinear_arith)
        requires
            a2 == rx * rx,
            rx >= 1,
    ;
    assert(a2 == 4 * (a2 / 4) + a2 % 4);
    assert(4 * p0 == mp_first_poly(a2, b2, 0, ry) - (a2 % 4)) by (nonlinear_arith)
        requires
            p0 == b2 - a2 * ry + a2 / 4,
            a2 == 4 * (a2 / 4) + a2 % 4,
            b2 == ry * ry,
    ;
    let t = (2 * ry - 1) * (2 * ry - 1);
    assert(0 <= t <= 4 * b2) by (nonlinear_arith)
        requires
            t == (2 * ry - 1) * (2 * ry - 1),
            b2 == ry * ry,
            ry >= 1,
    ;
    crate::scan::lemma_mul_mono(a2, t, a2, 4 * b2);
    assert(a2 * (4 * b2) == 4 * a2 * b2) by (nonlinear_arith);
    assert(4 * b2 * (0 * 0) == 0) by (nonlinear_arith);
}

/// At a step of the first region `y` is not negative and `x` is below `rx`.
pub proof fn lemma_first_head(rx: int, ry: int, x: int, y: int)
    requires
        1 <= rx,
        1 <= ry,
        0 <= x,
        mp_first_cond(rx * rx, ry * ry, x, y),
        mp_first_inv(rx * rx, ry * ry, x, y),
    ensures
        0 <= y,
        x < rx,
{
    let a2 = rx * rx;
    let b2 = ry * ry;
    assert(a2 >= 1 && b2 >= 1) by (nonlinear_arith)
        requires
            a2 == rx * rx,
            b2 == ry * ry,
            rx >= 1,
            ry >= 1,
    ;
    assert(y >= 0) by (nonlinear_arith)
        requires
            2 * b2 * x <= 2 * a2 * y,
            x >= 0,
            b2 >= 1,
            a2 >= 1,
    ;
    let t = (2 * y - 1) * (2 * y - 1);
    if y >= 1 {
        assert(t >= 1) by (nonlinear_arith)
            requires
                t == (2 * y - 1) * (2 * y - 1),
                y >= 1,
        ;
    } else {
        assert(t == 1) by (nonlinear_arith)
            requires
                t == (2 * y - 1) * (2 * y - 1),
                y == 0,
        ;
    }
    crate::scan::lemma_mul_mono(a2, 1, a2, t);
    if x * x >= a2 {
        crate::scan::lemma_mul_mono(b2, a2, b2, x * x);
        assert(4 * b2 * (x * x) == 4 * (b2 * (x * x))) by (nonlinear_arith);
        assert(4 * a2 * b2 == 4 * (b2 * a2)) by (nonlinear_arith);
        assert(false);
    }
    if x >= rx {
        crate::scan::lemma_mul_mono(rx, rx, x, x);
    }
}

/// One step of the first region keeps the point of the next step inside the oval and the
/// decision value exact up to the remainder of `rx^2 / 4`.
pub proof fn lemma_first_step(rx: int, ry: int, x: int, y: int, p: int)
    requires
        1 <= rx,
        1 <= ry,
        0 <= x,
        mp_first_cond(rx * rx, ry * ry, x, y),
        mp_first_inv(rx * rx, ry * ry, x, y),
        4 * p == mp_first_poly(rx * rx, ry * ry, x, y) - (rx * rx) % 4,
    ensures
        ({
            let n = mp_first_next(rx * rx, ry * ry, x, y, p);
            &&& mp_first_inv(rx * rx, ry * ry, n.0, n.1)
            &&& 4 * n.2 == mp_first_poly(rx * rx, ry * ry, n.0, n.1) - (rx * rx) % 4
            &&& n.0 == x + 1
            &&& y - 1 <= n.1 <= y
        }),
{
    let a2 = rx * rx;
    let b2 = ry * ry;
    assert(b2 >= 1) by (nonlinear_arith)
        requires
            b2 == ry * ry,
            ry >= 1,
    ;
    let x1 = x + 1;
    if p < 0 {
        assert(mp_first_poly(a2, b2, x1, y) == mp_first_poly(a2, b2, x, y) + 4 * (2 * b2 * x1 + b2))
            by (nonlinear_arith)
            requires
                x1 == x + 1,
        ;
    } else {
        let y1 = y - 1;
        assert(mp_first_poly(a2, b2, x1, y1) == mp_first_poly(a2, b2, x, y) + 4 * (2 * b2 * x1 - 2 * a2 * y1
            + b2)) by (nonlinear_arith)
            requires
                x1 == x + 1,
                y1 == y - 1,
        ;
        let lhs_old = 4 * b2 * (x * x) + a2 * ((2 * y - 1) * (2 * y - 1));
        let lhs_new = 4 * b2 * (x1 * x1) + a2 * ((2 * y1 - 1) * (2 * y1 - 1));
        assert(lhs_new == lhs_old + 8 * b2 * x + 4 * b2 - 8 * a2 * y1) by (nonlinear_arith)
            requires
                x1 == x + 1,
                y1 == y - 1,
                lhs_old == 4 * b2 * (x * x) + a2 * ((2 * y - 1) * (2 * y - 1)),
                lhs_new == 4 * b2 * (x1 * x1) + a2 * ((2 * y1 - 1) * (2 * y1 - 1)),
        ;
        if mp_first_cond(a2, b2, x1, y1) {
            assert(lhs_new <= 4 * a2 * b2) by (nonlinear_arith)
                requires
                    lhs_new == lhs_old + 8 * b2 * x + 4 * b2 - 8 * a2 * y1,
                    lhs_old <= 4 * a2 * b2,
                    2 * b2 * x1 <= 2 * a2 * y1,
                    x1 == x + 1,
                    b2 >= 1,
            ;
        }
    }
}

/// One step of the second region keeps `x` within `rx` and the decision value exact up to
/// the rounding `e` of the region's start.
pub proof fn lemma_second_step(rx: int, ry: int, x: int, y: int, q: int, e: int)
    requires
        1 <= rx,
        1 <= ry,
        0 <= x <= rx,
        -3 <= e <= 3,
        4 * q == mp_second_poly(rx * rx, ry * ry, x, y) - e,
    ensures
        ({
            let n = mp_second_next(rx * rx, ry * ry, x, y, q);
            &&& x <= n.0 <= rx
            &&& n.1 == y - 1
            &&& 4 * n.2 == mp_second_poly(rx * rx, ry * ry, n.0, n.1) - e
        }),
{
    let a2 = rx * rx;
    let b2 = ry * ry;
    assert(a2 >= 1 && b2 >= 1) by (nonlinear_arith)
        requires
            a2 == rx * rx,
            b2 == ry * ry,
            rx >= 1,
            ry >= 1,
    ;
    let y1 = y - 1;
    if q > 0 {
        assert(mp_second_poly(a2, b2, x, y1) == mp_second_poly(a2, b2, x, y) + 4 * (a2 - 2 * a2 * y1))
            by (nonlinear_arith)
            requires
                y1 == y - 1,
        ;
    } else {
        let x1 = x + 1;
        assert(mp_second_poly(a2, b2, x1, y1) == mp_second_poly(a2, b2, x, y) + 4 * (2 * b2 * x1 - 2 * a2 * y1
            + a2)) by (nonlinear_arith)
            requires
                x1 == x + 1,
                y1 == y - 1,
        ;
        if x >= rx {
            let t = (2 * x + 1) * (2 * x + 1);
            assert(t >= 4 * a2 + 5) by (nonlinear_arith)
                requires
                    t == (2 * x + 1) * (2 * x + 1),
                    x >= rx,
                    rx >= 1,
                    a2 == rx * rx,
            ;
            crate::scan::lemma_mul_mono(b2, 4 * a2 + 5, b2, t);
            assert(b2 * (4 * a2 + 5) == 4 * a2 * b2 + 5 * b2) by (nonlinear_arith);
            assert(0 <= (y - 1) * (y - 1)) by (nonlinear_arith);
            crate::scan::lemma_mul_mono(4 * a2, 0, 4 * a2, (y - 1) * (y - 1));
            assert(4 * a2 * ((y - 1) * (y - 1)) == (4 * a2) * ((y - 1) * (y - 1)));
            assert(false);
        }
    }
}

/// Every cell of `s` lies within `rx` columns and `ry` rows of `(cx, cy)`.
pub open spec fn within_radii(s: Seq<(int, int)>, cx: int, cy: int, rx: int, ry: int) -> bool {
    forall|p: (int, int)| #[trigger] s.contains(p) ==> cx - rx <= p.0 <= cx + rx && cy - ry <= p.1 <= cy + ry
}

/// With each of its cells, `s` holds the cell's mirror image about the column `cx` and the
/// one about the row `cy`, each whenever it lies on the grid.
pub open spec fn mirror_closed(s: Seq<(int, int)>, cx: int, cy: int) -> bool {
    forall|p: (int, int)|
        #[trigger] s.contains(p) ==> (fits_usize(2 * cx - p.0) ==> s.contains((2 * cx - p.0, p.1))) && (
        fits_usize(2 * cy - p.1) ==> s.contains((p.0, 2 * cy - p.1)))
}

/// `cell_if_valid(a, b)` holds exactly the cell `(a, b)`, when that is on the grid.
proof fn lemma_cell_if_valid_contains(a: int, b: int, p: (int, int))
    ensures
        cell_if_valid(a, b).contains(p) <==> (fits_usize(a) && fits_usize(b) && p == (a, b)),
{
    let s = cell_if_valid(a, b);
    if fits_usize(a) && fits_usize(b) {
        if p == (a, b) {
            assert(s[0] == p);
        }
    } else {
        vstd::seq_lib::lemma_seq_empty_contains_nothing::<(int, int)>(p);
    }
}

/// The cells that `plot_four` gives for `(x, y)` are the four mirror images
/// `(cx +- x, cy +- y)` that lie on the grid.
pub proof fn lemma_plot_four_contains(cx: int, cy: int, x: int, y: int, p: (int, int))
    ensures
        plot_four(cx, cy, x, y).contains(p) <==> (fits_usize(p.0) && fits_usize(p.1) && (p.0 == cx + x || p.0
            == cx - x) && (p.1 == cy + y || p.1 == cy - y)),
{
    let c1 = cell_if_valid(cx + x, cy + y);
    let c2 = cell_if_valid(cx - x, cy + y);
    let c3 = cell_if_valid(cx + x, cy - y);
    let c4 = cell_if_valid(cx - x, cy - y);
    vstd::seq_lib::lemma_seq_concat_contains_all_elements(c1 + c2 + c3, c4, p);
    vstd::seq_lib::lemma_seq_concat_contains_all_elements(c1 + c2, c3, p);
    vstd::seq_lib::lemma_seq_concat_contains_all_elements(c1, c2, p);
    lemma_cell_if_valid_contains(cx + x, cy + y, p);
    lemma_cell_if_valid_contains(cx - x, cy + y, p);
    lemma_cell_if_valid_contains(cx + x, cy - y, p);
    lemma_cell_if_valid_contains(cx - x, cy - y, p);
}

/// The cells that `plot_four` gives for an offset within the radii lie within the radii and
/// are closed under mirroring.
proof fn lemma_plot_four_shape(cx: int, cy: int, rx: int, ry: int, x: int, y: int)
    requires
        0 <= x <= rx,
        0 <= y <= ry,
    ensures
        within_radii(plot_four(cx, cy, x, y), cx, cy, rx, ry),
        mirror_closed(plot_four(cx, cy, x, y), cx, cy),
{
    let s = plot_four(cx, cy, x, y);
    assert forall|p: (int, int)| #[trigger] s.contains(p) implies cx - rx <= p.0 <= cx + rx && cy - ry <= p.1
        <= cy + ry by {
        lemma_plot_four_contains(cx, cy, x, y, p);
    }
    assert forall|p: (int, int)| #[trigger] s.contains(p) implies (fits_usize(2 * cx - p.0) ==> s.contains(
        (2 * cx - p.0, p.1),
    )) && (fits_usize(2 * cy - p.1) ==> s.contains((p.0, 2 * cy - p.1))) by {
        lemma_plot_four_contains(cx, cy, x, y, p);
        lemma_plot_four_contains(cx, cy, x, y, (2 * cx - p.0, p.1));
        lemma_plot_four_contains(cx, cy, x, y, (p.0, 2 * cy - p.1));
    }
}

/// Lying within the radii and being closed under mirroring both carry over to a
/// concatenation.
pub proof fn lemma_concat_shape(a: Seq<(int, int)>, b: Seq<(int, int)>, cx: int, cy: int, rx: int, ry: int)
    requires
        within_radii(a, cx, cy, rx, ry),
        within_radii(b, cx, cy, rx, ry),
        mirror_closed(a, cx, cy),
        mirror_closed(b, cx, cy),
    ensures
        within_radii(a + b, cx, cy, rx, ry),
        mirror_closed(a + b, cx, cy),
{
    assert forall|p: (int, int)| #[trigger] (a + b).contains(p) implies cx - rx <= p.0 <= cx + rx && cy - ry
        <= p.1 <= cy + ry by {
        vstd::seq_lib::lemma_seq_concat_contains_all_elements(a, b, p);
    }
    assert forall|p: (int, int)| #[trigger] (a + b).contains(p) implies (fits_usize(2 * cx - p.0) ==> (a
        + b).contains((2 * cx - p.0, p.1))) && (fits_usize(2 * cy - p.1) ==> (a + b).contains(
        (p.0, 2 * cy - p.1),
    )) by {
        vstd::seq_lib::lemma_seq_concat_contains_all_elements(a, b, p);
        vstd::seq_lib::lemma_seq_concat_contains_all_elements(a, b, (2 * cx - p.0, p.1));
        vstd::seq_lib::lemma_seq_concat_contains_all_elements(a, b, (p.0, 2 * cy - p.1));
    }
}

/// From a state of the walk, the cells of the first region lie within the radii and are
/// closed under mirroring, and the region ends at a state with `0 <= x <= rx`, `y <= ry`.
pub proof fn lemma_first_points_shape(cx: int, cy: int, rx: int, ry: int, x: int, y: int, p: int, fuel: nat)
    requires
        1 <= rx,
        1 <= ry,
        0 <= x <= rx,
        y <= ry,
        mp_first_inv(rx * rx, ry * ry, x, y),
        4 * p == mp_first_poly(rx * rx, ry * ry, x, y) - (rx * rx) % 4,
    ensures
        within_radii(mp_first_points(cx, cy, rx * rx, ry * ry, x, y, p, fuel), cx, cy, rx, ry),
        mirror_closed(mp_first_points(cx, cy, rx * rx, ry * ry, x, y, p, fuel), cx, cy),
        ({
            let e = mp_first_end(rx * rx, ry * ry, x, y, p, fuel);
            0 <= e.0 <= rx && e.1 <= ry
        }),
    decreases fuel,
{
    let a2 = rx * rx;
    let b2 = ry * ry;
    if !mp_first_cond(a2, b2, x, y) || fuel == 0 {
        assert forall|q: (int, int)| !(#[trigger] Seq::<(int, int)>::empty().contains(q)) by {
            vstd::seq_lib::lemma_seq_empty_contains_nothing::<(int, int)>(q);
        }
    } else {
        lemma_first_head(rx, ry, x, y);
        lemma_first_step(rx, ry, x, y, p);
        let n = mp_first_next(a2, b2, x, y, p);
        lemma_first_points_shape(cx, cy, rx, ry, n.0, n.1, n.2, (fuel - 1) as nat);
        lemma_plot_four_shape(cx, cy, rx, ry, x, y);
        lemma_concat_shape(
            plot_four(cx, cy, x, y),
            mp_first_points(cx, cy, a2, b2, n.0, n.1, n.2, (fuel - 1) as nat),
            cx,
            cy,
            rx,
            ry,
        );
    }
}

/// From a state of the walk, the cells of the second region lie within the radii and are
/// closed under mirroring.
pub proof fn lemma_second_points_shape(
    cx: int,
    cy: int,
    rx: int,
    ry: int,
    x: int,
    y: int,
    q: int,
    e: int,
    fuel: nat,
)
    requires
        1 <= rx,
        1 <= ry,
        0 <= x <= rx,
        y <= ry,
        -3 <= e <= 3,
        4 * q == mp_second_poly(rx * rx, ry * ry, x, y) - e,
    ensures
        within_radii(mp_second_points(cx, cy, rx * rx, ry * ry, x, y, q, fuel), cx, cy, rx, ry),
        mirror_closed(mp_second_points(cx, cy, rx * rx, ry * ry, x, y, q, fuel), cx, cy),
    decreases fuel,
{
    let a2 = rx * rx;
    let b2 = ry * ry;
    if y < 0 || fuel == 0 {
        assert forall|c: (int, int)| !(#[trigger] Seq::<(int, int)>::empty().contains(c)) by {
            vstd::seq_lib::lemma_seq_empty_contains_nothing::<(int, int)>(c);
        }
    } else {
        lemma_second_step(rx, ry, x, y, q, e);
        let n = mp_second_next(a2, b2, x, y, q);
        lemma_second_points_shape(cx, cy, rx, ry, n.0, n.1, n.2, e, (fuel - 1) as nat);
        lemma_plot_four_shape(cx, cy, rx, ry, x, y);
        lemma_concat_shape(
            plot_four(cx, cy, x, y),
            mp_second_points(cx, cy, a2, b2, n.0, n.1, n.2, (fuel - 1) as nat),
            cx,
            cy,
            rx,
            ry,
        );
    }
}

/// Rounding towards zero after dividing by 4 is off by at most 3/4.
pub proof fn lemma_trunc_div4(v: int)
    ensures
        -3 <= v - 4 * trunc_div4(v) <= 3,
{
}

/// Appends the cell `(cx + dx, cy + dy)` when it is on the grid.
fn push_offset(pts: &mut Vec<(usize, usize)>, cx: usize, cy: usize, dx: isize, dy: isize)
    requires
        dx > isize::MIN,
        dy > isize::MIN,
    ensures
        int_points(final(pts)@) == int_points(old(pts)@) + cell_if_valid(cx + dx, cy + dy),
{
    let ghost before = pts@;
    let ox = cx.checked_add_signed(dx);
    let oy = cy.checked_add_signed(dy);
    match (ox, oy) {
        (Some(px), Some(py)) => {
            pts.push((px, py));
            assert(int_points(pts@) =~= int_points(before) + cell_if_valid(cx + dx, cy + dy));
        },
        _ => {
            assert(int_points(pts@) =~= int_points(before) + cell_if_valid(cx + dx, cy + dy));
        },
    }
}

/// Appends the four mirror images of `(x, y)` around `(cx, cy)` that are on the grid.
fn push_four(pts: &mut Vec<(usize, usize)>, cx: usize, cy: usize, x: isize, y: isize)
    requires
        isize::MIN < x,
        isize::MIN < y,
    ensures
        int_points(final(pts)@) == int_points(old(pts)@) + plot_four(cx as int, cy as int, x as int, y as int),
{
    let ghost before = int_points(pts@);
    push_offset(pts, cx, cy, x, y);
    push_offset(pts, cx, cy, -x, y);
    push_offset(pts, cx, cy, x, -y);
    push_offset(pts, cx, cy, -x, -y);
    assert(int_points(pts@) =~= before + plot_four(cx as int, cy as int, x as int, y as int));
}


/// The border of the oval with radii `rx`, `ry` around `(cx, cy)` by the midpoint algorithm.
fn oval_border(cx: usize, cy: usize, rx: usize, ry: usize) -> (pts: Vec<(usize, usize)>)
    requires
        midpoint_oval_ok(rx as int, ry as int),
    ensures
        int_points(pts@) == oval_border_points(cx as int, cy as int, rx as int, ry as int),
{
    let ghost s = mp_size(rx as int, ry as int);
    proof {
        lemma_mp_bounds(rx as int, ry as int, 0, ry as int);
        lemma_first_start(rx as int, ry as int);
        assert(rx <= rx * rx) by (nonlinear_arith)
            requires
                rx >= 1,
        ;
        assert(ry <= ry * ry) by (nonlinear_arith)
            requires
                ry >= 1,
        ;
    }
    let rxi: isize = rx as isize;
    let ryi: isize = ry as isize;
    let rx2: isize = rxi * rxi;
    let ry2: isize = ryi * ryi;
    let ghost a2: int = rx2 as int;
    let ghost b2: int = ry2 as int;
    let mut x: isize = 0;
    let mut y: isize = ryi;
    let quarter: isize = (rx2 as usize / 4) as isize;
    let mut p: isize = ry2 - rx2 * ryi + quarter;
    let ghost p0: int = p as int;
    let ghost mut fuel: nat = (a2 + 2) as nat;
    let ghost total1 = mp_first_points(cx as int, cy as int, a2, b2, 0, ry as int, p0, fuel);
    let ghost end1 = mp_first_end(a2, b2, 0, ry as int, p0, fuel);
    let mut pts: Vec<(usize, usize)> = Vec::new();
    assert(int_points(pts@) =~= Seq::<(int, int)>::empty());
    while 2 * ry2 * x <= 2 * rx2 * y
        invariant
            a2 == rx * rx,
            b2 == ry * ry,
            rx2 == a2,
            ry2 == b2,
            s == mp_size(rx as int, ry as int),
            midpoint_oval_ok(rx as int, ry as int),
            1 <= a2 <= s,
            1 <= b2 <= s,
            rx <= a2,
            0 <= x <= rx,
            -1 <= y <= ry,
            0 <= 2 * ry2 * x <= s,
            -s <= 2 * rx2 * y <= s,
            mp_first_inv(a2, b2, x as int, y as int),
            4 * p == mp_first_poly(a2, b2, x as int, y as int) - (a2 % 4),
            fuel + x == a2 + 2,
            int_points(pts@) + mp_first_points(cx as int, cy as int, a2, b2, x as int, y as int, p as int, fuel)
                == total1,
            mp_first_end(a2, b2, x as int, y as int, p as int, fuel) == end1,
        decreases a2 + 2 - x,
    {
        proof {
            lemma_first_head(rx as int, ry as int, x as int, y as int);
            lemma_mp_bounds(rx as int, ry as int, x as int, y as int);
        }
        let ghost (gx, gy, gp) = (x as int, y as int, p as int);
        let ghost before = int_points(pts@);
        push_four(&mut pts, cx, cy, x, y);
        let ghost next = mp_first_next(a2, b2, gx, gy, gp);
        proof {
            lemma_first_step(rx as int, ry as int, gx, gy, gp);
            lemma_mp_bounds(rx as int, ry as int, next.0, next.1);
        }
        x = x + 1;
        if p < 0 {
            p = p + 2 * ry2 * x + ry2;
        } else {
            y = y - 1;
            p = p + 2 * ry2 * x - 2 * rx2 * y + ry2;
        }
        proof {
            assert((x as int, y as int, p as int) == next);
            assert(before + plot_four(cx as int, cy as int, gx, gy) + mp_first_points(
                cx as int,
                cy as int,
                a2,
                b2,
                x as int,
                y as int,
                p as int,
                (fuel - 1) as nat,
            ) =~= before + mp_first_points(cx as int, cy as int, a2, b2, gx, gy, gp, fuel));
            fuel = (fuel - 1) as nat;
        }
    }
    assert(int_points(pts@) =~= total1);
    proof {
        lemma_mp_bounds(rx as int, ry as int, x as int, y as int);
    }
    let v: isize = ry2 * ((2 * x + 1) * (2 * x + 1)) + 4 * rx2 * ((y - 1) * (y - 1)) - 4 * rx2 * ry2;
    let mut q: isize = if v >= 0 {
        v / 4
    } else {
        -((-v) / 4)
    };
    let ghost e: int = v - 4 * q;
    let ghost mut fuel2: nat = (y + 1) as nat;
    let ghost total2 = mp_second_points(cx as int, cy as int, a2, b2, x as int, y as int, q as int, fuel2);
    let ghost first_part = int_points(pts@);
    proof {
        assert(q == mp_second_start(a2, b2, x as int, y as int));
        assert(-3 <= e <= 3);
        assert(first_part + total2 == oval_border_points(cx as int, cy as int, rx as int, ry as int));
    }
    while y >= 0
        invariant
            a2 == rx * rx,
            b2 == ry * ry,
            rx2 == a2,
            ry2 == b2,
            s == mp_size(rx as int, ry as int),
            midpoint_oval_ok(rx as int, ry as int),
            1 <= a2 <= s,
            1 <= b2 <= s,
            rx <= a2,
            0 <= x <= rx,
            -1 <= y <= ry,
            -3 <= e <= 3,
            4 * q == mp_second_poly(a2, b2, x as int, y as int) - e,
            fuel2 == y + 1,
            int_points(pts@) + mp_second_points(cx as int, cy as int, a2, b2, x as int, y as int, q as int, fuel2)
                == first_part + total2,
        decreases y + 1,
    {
        proof {
            lemma_mp_bounds(rx as int, ry as int, x as int, y as int);
        }
        let ghost (gx, gy, gq) = (x as int, y as int, q as int);
        let ghost before = int_points(pts@);
        push_four(&mut pts, cx, cy, x, y);
        let ghost next = mp_second_next(a2, b2, gx, gy, gq);
        proof {
            lemma_second_step(rx as int, ry as int, gx, gy, gq, e);
            lemma_mp_bounds(rx as int, ry as int, next.0, next.1);
        }
        y = y - 1;
        if q > 0 {
            q = q + rx2 - 2 * rx2 * y;
        } else {
            x = x + 1;
            q = q + 2 * ry2 * x - 2 * rx2 * y + rx2;
        }
        proof {
            assert((x as int, y as int, q as int) == next);
            assert(before + plot_four(cx as int, cy as int, gx, gy) + mp_second_points(
                cx as int,
                cy as int,
                a2,
                b2,
                x as int,
                y as int,
                q as int,
                (fuel2 - 1) as nat,
            ) =~= before + mp_second_points(cx as int, cy as int, a2, b2, gx, gy, gq, fuel2));
            fuel2 = (fuel2 - 1) as nat;
        }
    }
    assert(int_points(pts@) =~= oval_border_points(cx as int, cy as int, rx as int, ry as int));
    pts
}


/// The cells of the oval with radii `rx`, `ry` around `(cx, cy)`: filled, row by row within
/// its bounding box, or its border as the midpoint algorithm plots it; just the centre when
/// a radius is 0.
pub fn oval(cx: usize, cy: usize, rx: usize, ry: usize, border_only: bool) -> (pts: Vec<(usize, usize)>)
    requires
        rx == 0 || ry == 0 || (if border_only {
            midpoint_oval_ok(rx as int, ry as int)
        } else {
            radius_oval_ok(cx as int, cy as int, rx as int, ry as int)
        }),
    ensures
        rx == 0 || ry == 0 ==> pts@ == seq![(cx, cy)],
        rx != 0 && ry != 0 && border_only ==> int_points(pts@) == oval_border_points(
            cx as int,
            cy as int,
            rx as int,
            ry as int,
        ),
        rx != 0 && ry != 0 && !border_only ==> sorted_row_major(int_points(pts@)),
        rx != 0 && ry != 0 && !border_only ==> forall|p: (int, int)|
            #![trigger int_points(pts@).contains(p)]
            int_points(pts@).contains(p) <==> (in_box(
                p,
                sat_sub(cx as int, rx as int),
                cx + rx + 1,
                sat_sub(cy as int, ry as int),
                cy + ry + 1,
            ) && radius_oval_inside(cx as int, cy as int, rx as int, ry as int, p.0, p.1)),
{
    if rx == 0 || ry == 0 {
        let mut pts: Vec<(usize, usize)> = Vec::new();
        pts.push((cx, cy));
        assert(pts@ =~= seq![(cx, cy)]);
        return pts;
    }
    if border_only {
        oval_border(cx, cy, rx, ry)
    } else {
        let start_y: usize = cy.saturating_sub(ry);
        let start_x: usize = cx.saturating_sub(rx);
        let region = Region::RadiusOval { cx, cy, rx, ry };
        scan(&region, start_x, cx + rx + 1, start_y, cy + ry + 1)
    }
}

/// The cells of the triangle `p0 p1 p2`: filled, row by row within its bounding box, or its
/// border as the three lines `p0 p1`, `p1 p2`, `p2 p0` one after the other.
pub fn triangle(p0: (usize, usize), p1: (usize, usize), p2: (usize, usize), border_only: bool) -> (pts: Vec<(usize, usize)>)
    requires
        if border_only {
            &&& p0.0 <= line_coord_max() && p0.1 <= line_coord_max()
            &&& p1.0 <= line_coord_max() && p1.1 <= line_coord_max()
            &&& p2.0 <= line_coord_max() && p2.1 <= line_coord_max()
        } else {
            triangle_fits(p0, p1, p2)
        },
    ensures
        border_only ==> int_points(pts@) == line_points(p0.0 as int, p0.1 as int, p1.0 as int, p1.1 as int)
            + line_points(p1.0 as int, p1.1 as int, p2.0 as int, p2.1 as int) + line_points(
            p2.0 as int,
            p2.1 as int,
            p0.0 as int,
            p0.1 as int,
        ),
        !border_only ==> sorted_row_major(int_points(pts@)),
        !border_only ==> forall|p: (int, int)|
            #![trigger int_points(pts@).contains(p)]
            int_points(pts@).contains(p) <==> (in_triangle_box(p0, p1, p2, p) && triangle_cell(p0, p1, p2, false, p)),
{
    if border_only {
        let mut pts = raster::line(p0.0, p0.1, p1.0, p1.1);
        let mut second = raster::line(p1.0, p1.1, p2.0, p2.1);
        let mut third = raster::line(p2.0, p2.1, p0.0, p0.1);
        let ghost (a, b, c) = (pts@, second@, third@);
        pts.append(&mut second);
        pts.append(&mut third);
        assert(pts@ =~= a + b + c);
        assert(int_points(pts@) =~= int_points(a) + int_points(b) + int_points(c));
        pts
    } else {
        raster::triangle(p0, p1, p2, false)
    }
}

} // verus!
