//! Row-major scanning of a rectangular box of cells, keeping the cells that a region
//! contains. The rasterisers of filled shapes are built on it.

use vstd::prelude::*;
use crate::raster::int_points;

verus! {

/// `p` comes before `q` when cells are read row by row, each row from left to right.
pub open spec fn row_major_lt(p: (int, int), q: (int, int)) -> bool {
    p.1 < q.1 || (p.1 == q.1 && p.0 < q.0)
}

/// The cells of `s` are strictly increasing in row-major order (so none repeats).
pub open spec fn sorted_row_major(s: Seq<(int, int)>) -> bool {
    forall|i: int, j: int| 0 <= i < j < s.len() ==> row_major_lt(#[trigger] s[i], #[trigger] s[j])
}

/// `p` lies in the box `[x_lo, x_end) x [y_lo, y_end)`.
pub open spec fn in_box(p: (int, int), x_lo: int, x_end: int, y_lo: int, y_end: int) -> bool {
    x_lo <= p.0 < x_end && y_lo <= p.1 < y_end
}

/// The squared-distance test of the oval that fills the `(2 rx + 1) x (2 ry + 1)` box
/// centred on `(cx, cy)`: `(x - cx)^2 / (rx + 1/2)^2 + (y - cy)^2 / (ry + 1/2)^2 <= 1`.
pub open spec fn box_oval_inside(cx: int, cy: int, rx: int, ry: int, x: int, y: int) -> bool {
    let w = 2 * rx + 1;
    let h = 2 * ry + 1;
    4 * (x - cx) * (x - cx) * (h * h) + 4 * (y - cy) * (y - cy) * (w * w) <= (w * w) * (h * h)
}

/// The squared-distance test of the oval with radii `rx`, `ry` centred on `(cx, cy)`:
/// `(x - cx)^2 ry^2 + (y - cy)^2 rx^2 <= rx^2 ry^2`.
pub open spec fn radius_oval_inside(cx: int, cy: int, rx: int, ry: int, x: int, y: int) -> bool {
    (x - cx) * (x - cx) * (ry * ry) + (y - cy) * (y - cy) * (rx * rx) <= (rx * rx) * (ry * ry)
}

/// The signed area test of `c` against the directed edge from `a` to `b`.
pub open spec fn edge(a: (int, int), b: (int, int), c: (int, int)) -> int {
    (c.0 - a.0) * (b.1 - a.1) - (c.1 - a.1) * (b.0 - a.0)
}

/// `c` lies in the closed triangle `p0 p1 p2` (on the same side of all three edges,
/// whichever the orientation).
pub open spec fn triangle_inside(p0: (int, int), p1: (int, int), p2: (int, int), c: (int, int)) -> bool {
    let w0 = edge(p1, p2, c);
    let w1 = edge(p2, p0, c);
    let w2 = edge(p0, p1, c);
    (w0 >= 0 && w1 >= 0 && w2 >= 0) || (w0 <= 0 && w1 <= 0 && w2 <= 0)
}

/// A cell is kept in a border-only drawing when the shape holds it but not one of its four
/// neighbours.
pub open spec fn on_border(inside: spec_fn(int, int) -> bool, x: int, y: int) -> bool {
    inside(x, y) && (!inside(x + 1, y) || !inside(x - 1, y) || !inside(x, y + 1) || !inside(x, y - 1))
}

/// The shapes that a box scan can test cell by cell.
pub enum Region {
    /// The cells of a `width x height` rectangle at the origin, or only its outermost ones.
    Rect { width: usize, height: usize, border_only: bool },
    /// The oval that fills the box of radii `rx`, `ry` around `(cx, cy)`, or its border.
    BoxOval { cx: usize, cy: usize, rx: usize, ry: usize, border_only: bool },
    /// The oval of radii `rx`, `ry` around `(cx, cy)`, filled.
    RadiusOval { cx: usize, cy: usize, rx: usize, ry: usize },
    /// The triangle with the three corners, or its border.
    Triangle { p0: (usize, usize), p1: (usize, usize), p2: (usize, usize), border_only: bool },
}

/// The largest triangle coordinate for which the edge tests fit in `isize`.
pub open spec fn tri_coord_ok(v: int) -> bool {
    2 * (v + 1) * (v + 1) <= isize::MAX
}

/// The bound under which the box-oval test, at any cell of the box (and, for a border, at
/// the neighbours of those cells), fits in `isize`.
pub open spec fn box_oval_ok(cx: int, cy: int, rx: int, ry: int, border_only: bool) -> bool {
    let reach: int = if border_only {
        1
    } else {
        0
    };
    &&& cx + rx + reach <= isize::MAX
    &&& cy + ry + reach <= isize::MAX
    &&& 2 * ((2 * rx + 2) * (2 * ry + 2)) * ((2 * rx + 2) * (2 * ry + 2)) <= isize::MAX
}

/// The bound under which the radius-oval test, at any cell of its box, fits in `isize`.
pub open spec fn radius_oval_ok(cx: int, cy: int, rx: int, ry: int) -> bool {
    &&& cx + rx <= isize::MAX
    &&& cy + ry <= isize::MAX
    &&& 1 <= rx && 1 <= ry
    &&& 2 * (rx * ry) * (rx * ry) <= isize::MAX
}

impl Region {
    /// The cell `(x, y)` belongs to the region.
    pub open spec fn keeps(self, x: int, y: int) -> bool {
        match self {
            Region::Rect { width, height, border_only } => {
                0 <= x < width && 0 <= y < height && (!border_only || x == 0 || x == width - 1
                    || y == 0 || y == height - 1)
            },
            Region::BoxOval { cx, cy, rx, ry, border_only } => {
                let inside = |a: int, b: int| box_oval_inside(cx as int, cy as int, rx as int, ry as int, a, b);
                if border_only {
                    on_border(inside, x, y)
                } else {
                    inside(x, y)
                }
            },
            Region::RadiusOval { cx, cy, rx, ry } => {
                radius_oval_inside(cx as int, cy as int, rx as int, ry as int, x, y)
            },
            Region::Triangle { p0, p1, p2, border_only } => {
                let q0 = (p0.0 as int, p0.1 as int);
                let q1 = (p1.0 as int, p1.1 as int);
                let q2 = (p2.0 as int, p2.1 as int);
                let inside = |a: int, b: int| triangle_inside(q0, q1, q2, (a, b));
                if border_only {
                    on_border(inside, x, y)
                } else {
                    inside(x, y)
                }
            },
        }
    }

    /// The region's test can be computed without overflow at every cell of the box
    /// `[x_lo, x_end) x [y_lo, y_end)`.
    pub open spec fn computable(self, x_lo: int, x_end: int, y_lo: int, y_end: int) -> bool {
        match self {
            Region::Rect { width, height, border_only } => true,
            Region::BoxOval { cx, cy, rx, ry, border_only } => {
                &&& box_oval_ok(cx as int, cy as int, rx as int, ry as int, border_only)
                &&& cx - rx <= x_lo && x_end <= cx + rx + 1
                &&& cy - ry <= y_lo && y_end <= cy + ry + 1
            },
            Region::RadiusOval { cx, cy, rx, ry } => {
                &&& radius_oval_ok(cx as int, cy as int, rx as int, ry as int)
                &&& cx - rx <= x_lo && x_end <= cx + rx + 1
                &&& cy - ry <= y_lo && y_end <= cy + ry + 1
            },
            Region::Triangle { p0, p1, p2, border_only } => {
                &&& tri_coord_ok(p0.0 as int) && tri_coord_ok(p0.1 as int)
                &&& tri_coord_ok(p1.0 as int) && tri_coord_ok(p1.1 as int)
                &&& tri_coord_ok(p2.0 as int) && tri_coord_ok(p2.1 as int)
                &&& x_end <= max3(p0.0 as int, p1.0 as int, p2.0 as int) + 1
                &&& y_end <= max3(p0.1 as int, p1.1 as int, p2.1 as int) + 1
            },
        }
    }
}

/// The largest of three integers.
pub open spec fn max3(a: int, b: int, c: int) -> int {
    if a >= b && a >= c {
        a
    } else if b >= c {
        b
    } else {
        c
    }
}


/// `|a * b| <= bound_a * bound_b` when `|a| <= bound_a` and `|b| <= bound_b`.
pub proof fn lemma_mul_abs_bound(a: int, b: int, bound_a: int, bound_b: int)
    requires
        -bound_a <= a <= bound_a,
        -bound_b <= b <= bound_b,
    ensures
        -(bound_a * bound_b) <= a * b <= bound_a * bound_b,
{
    assert(-(bound_a * bound_b) <= a * b <= bound_a * bound_b) by (nonlinear_arith)
        requires
            -bound_a <= a <= bound_a,
            -bound_b <= b <= bound_b,
    ;
}

/// `a * b <= c * d` for `0 <= a <= c` and `0 <= b <= d`.
pub proof fn lemma_mul_mono(a: int, b: int, c: int, d: int)
    requires
        0 <= a <= c,
        0 <= b <= d,
    ensures
        0 <= a * b <= c * d,
{
    assert(0 <= a * b <= c * d) by (nonlinear_arith)
        requires
            0 <= a <= c,
            0 <= b <= d,
    ;
}

/// The box-oval test at `(x, y)`, a cell of the oval's box or a neighbour of one.
pub fn box_oval_test(cx: usize, cy: usize, rx: usize, ry: usize, x: isize, y: isize) -> (b: bool)
    requires
        box_oval_ok(cx as int, cy as int, rx as int, ry as int, false),
        cx - rx - 1 <= x <= cx + rx + 1,
        cy - ry - 1 <= y <= cy + ry + 1,
    ensures
        b == box_oval_inside(cx as int, cy as int, rx as int, ry as int, x as int, y as int),
{
    let ghost big_r: int = 2 * rx + 2;
    let ghost big_s: int = 2 * ry + 2;
    let ghost p: int = (big_r * big_s) * (big_r * big_s);
    proof {
        assert(2 * p <= isize::MAX) by (nonlinear_arith)
            requires
                p == (big_r * big_s) * (big_r * big_s),
                2 * (big_r * big_s) * (big_r * big_s) <= isize::MAX,
        ;
        lemma_mul_mono(2, 2, big_r, big_s);
        lemma_mul_mono(big_r, 1, big_r, big_s);
        lemma_mul_mono(1, big_s, big_r, big_s);
        lemma_mul_mono(big_r * big_s, 1, big_r * big_s, big_r * big_s);
        assert(big_r <= big_r * big_s && big_s <= big_r * big_s) by (nonlinear_arith)
            requires
                big_r >= 2,
                big_s >= 2,
        ;
        lemma_mul_mono(big_r, big_r, big_r * big_s, big_r * big_s);
        lemma_mul_mono(big_s, big_s, big_r * big_s, big_r * big_s);
        assert(big_r <= p && big_s <= p);
    }
    let cxi: isize = cx as isize;
    let cyi: isize = cy as isize;
    let w: isize = 2 * (rx as isize) + 1;
    let h: isize = 2 * (ry as isize) + 1;
    proof {
        lemma_mul_mono(w as int, w as int, big_r, big_r);
        lemma_mul_mono(h as int, h as int, big_s, big_s);
        lemma_mul_mono(w as int * w as int, h as int * h as int, big_r * big_r, big_s * big_s);
        assert((big_r * big_r) * (big_s * big_s) == p) by (nonlinear_arith)
            requires
                p == (big_r * big_s) * (big_r * big_s),
        ;
    }
    let w2: isize = w * w;
    let h2: isize = h * h;
    let limit: isize = w2 * h2;
    let dx: isize = x - cxi;
    let dy: isize = y - cyi;
    proof {
        lemma_mul_abs_bound(dx as int, dx as int, rx + 1, rx + 1);
        assert(4 * ((rx + 1) * (rx + 1)) == big_r * big_r) by (nonlinear_arith)
            requires
                big_r == 2 * rx + 2,
        ;
        assert(dx * dx >= 0) by (nonlinear_arith);
        lemma_mul_mono(4 * (dx * dx), h2 as int, big_r * big_r, big_s * big_s);
        lemma_mul_abs_bound(dy as int, dy as int, ry + 1, ry + 1);
        assert(4 * ((ry + 1) * (ry + 1)) == big_s * big_s) by (nonlinear_arith)
            requires
                big_s == 2 * ry + 2,
        ;
        assert(dy * dy >= 0) by (nonlinear_arith);
        lemma_mul_mono(4 * (dy * dy), w2 as int, big_s * big_s, big_r * big_r);
        assert((big_s * big_s) * (big_r * big_r) == p) by (nonlinear_arith)
            requires
                p == (big_r * big_s) * (big_r * big_s),
        ;
    }
    let t1: isize = 4 * (dx * dx) * h2;
    let t2: isize = 4 * (dy * dy) * w2;
    proof {
        assert(4 * (dx as int) * (dx as int) * (h as int * h as int) == 4 * (dx * dx) * h2) by (nonlinear_arith)
            requires
                h2 == h * h,
        ;
        assert(4 * (dy as int) * (dy as int) * (w as int * w as int) == 4 * (dy * dy) * w2) by (nonlinear_arith)
            requires
                w2 == w * w,
        ;
    }
    t1 + t2 <= limit
}

/// The radius-oval test at `(x, y)`, a cell of the oval's box.
pub fn radius_oval_test(cx: usize, cy: usize, rx: usize, ry: usize, x: usize, y: usize) -> (b: bool)
    requires
        radius_oval_ok(cx as int, cy as int, rx as int, ry as int),
        cx - rx <= x <= cx + rx,
        cy - ry <= y <= cy + ry,
    ensures
        b == radius_oval_inside(cx as int, cy as int, rx as int, ry as int, x as int, y as int),
{
    let ghost q: int = (rx * ry) * (rx * ry);
    let rxi: isize = rx as isize;
    let ryi: isize = ry as isize;
    proof {
        assert(2 * q <= isize::MAX) by (nonlinear_arith)
            requires
                q == (rx * ry) * (rx * ry),
                2 * (rx * ry) * (rx * ry) <= isize::MAX,
        ;
        assert((rx * rx) * (ry * ry) == q) by (nonlinear_arith)
            requires
                q == (rx * ry) * (rx * ry),
        ;
        assert(rx * rx <= q) by (nonlinear_arith)
            requires
                q == (rx * rx) * (ry * ry),
                rx >= 1,
                ry >= 1,
        ;
        assert(ry * ry <= q) by (nonlinear_arith)
            requires
                q == (rx * rx) * (ry * ry),
                rx >= 1,
                ry >= 1,
        ;
    }
    let rx2: isize = rxi * rxi;
    let ry2: isize = ryi * ryi;
    let dx: isize = x as isize - cx as isize;
    let dy: isize = y as isize - cy as isize;
    proof {
        lemma_mul_abs_bound(dx as int, dx as int, rx as int, rx as int);
        lemma_mul_abs_bound(dy as int, dy as int, ry as int, ry as int);
        assert(dx * dx >= 0) by (nonlinear_arith);
        assert(dy * dy >= 0) by (nonlinear_arith);
        lemma_mul_mono(dx * dx, ry2 as int, rx * rx, ry * ry);
        lemma_mul_mono(dy * dy, rx2 as int, ry * ry, rx * rx);
        assert((ry * ry) * (rx * rx) == q) by (nonlinear_arith)
            requires
                q == (rx * ry) * (rx * ry),
        ;
    }
    let t1: isize = dx * dx * ry2;
    let t2: isize = dy * dy * rx2;
    t1 + t2 <= rx2 * ry2
}


/// The edge test of `(cx, cy)` against the edge from `a` to `b`, all coordinates at most `m`
/// (the tested cell at most one beyond).
fn edge_value(a: (usize, usize), b: (usize, usize), cx: isize, cy: isize, Ghost(m): Ghost<int>) -> (e: isize)
    requires
        tri_coord_ok(m),
        a.0 <= m,
        a.1 <= m,
        b.0 <= m,
        b.1 <= m,
        -1 <= cx <= m + 1,
        -1 <= cy <= m + 1,
    ensures
        e == edge((a.0 as int, a.1 as int), (b.0 as int, b.1 as int), (cx as int, cy as int)),
{
    let ax: isize = a.0 as isize;
    let ay: isize = a.1 as isize;
    let bxx: isize = b.0 as isize;
    let byy: isize = b.1 as isize;
    proof {
        assert(m + 1 <= isize::MAX) by (nonlinear_arith)
            requires
                2 * (m + 1) * (m + 1) <= isize::MAX,
                m >= 0,
        ;
        lemma_mul_abs_bound(cx - ax, byy - ay, m + 1, m + 1);
        lemma_mul_abs_bound(cy - ay, bxx - ax, m + 1, m + 1);
        assert(2 * (m + 1) * (m + 1) == 2 * ((m + 1) * (m + 1))) by (nonlinear_arith);
    }
    (cx - ax) * (byy - ay) - (cy - ay) * (bxx - ax)
}

/// A coordinate that passes `tri_coord_ok` is far below `isize::MAX`.
pub proof fn lemma_tri_coord_small(v: int)
    requires
        0 <= v,
        tri_coord_ok(v),
    ensures
        v + 2 <= isize::MAX,
{
    assert(v + 2 <= isize::MAX) by (nonlinear_arith)
        requires
            2 * (v + 1) * (v + 1) <= isize::MAX,
            v >= 0,
    ;
}

/// The triangle test at `(x, y)`, a cell of the triangle's box or a neighbour of one.
pub fn triangle_test(p0: (usize, usize), p1: (usize, usize), p2: (usize, usize), x: isize, y: isize) -> (b: bool)
    requires
        tri_coord_ok(p0.0 as int) && tri_coord_ok(p0.1 as int),
        tri_coord_ok(p1.0 as int) && tri_coord_ok(p1.1 as int),
        tri_coord_ok(p2.0 as int) && tri_coord_ok(p2.1 as int),
        -1 <= x <= max3(p0.0 as int, p1.0 as int, p2.0 as int) + 1,
        -1 <= y <= max3(p0.1 as int, p1.1 as int, p2.1 as int) + 1,
    ensures
        b == triangle_inside(
            (p0.0 as int, p0.1 as int),
            (p1.0 as int, p1.1 as int),
            (p2.0 as int, p2.1 as int),
            (x as int, y as int),
        ),
{
    let ghost m: int = max3(
        max3(p0.0 as int, p1.0 as int, p2.0 as int),
        max3(p0.1 as int, p1.1 as int, p2.1 as int),
        0,
    );
    let w0: isize = edge_value(p1, p2, x, y, Ghost(m));
    let w1: isize = edge_value(p2, p0, x, y, Ghost(m));
    let w2: isize = edge_value(p0, p1, x, y, Ghost(m));
    (w0 >= 0 && w1 >= 0 && w2 >= 0) || (w0 <= 0 && w1 <= 0 && w2 <= 0)
}


impl Region {
    /// Whether the region holds the cell `(x, y)` of a box in which its test is computable.
    pub fn holds(&self, x: usize, y: usize, Ghost(x_lo): Ghost<int>, Ghost(x_end): Ghost<int>, Ghost(y_lo): Ghost<int>, Ghost(y_end): Ghost<int>) -> (b: bool)
        requires
            self.computable(x_lo, x_end, y_lo, y_end),
            in_box((x as int, y as int), x_lo, x_end, y_lo, y_end),
        ensures
            b == self.keeps(x as int, y as int),
    {
        match self {
            Region::Rect { width, height, border_only } => {
                x < *width && y < *height && (!*border_only || x == 0 || x == *width - 1 || y == 0
                    || y == *height - 1)
            },
            Region::BoxOval { cx, cy, rx, ry, border_only } => {
                let xi: isize = x as isize;
                let yi: isize = y as isize;
                let inside = box_oval_test(*cx, *cy, *rx, *ry, xi, yi);
                if *border_only {
                    inside && (!box_oval_test(*cx, *cy, *rx, *ry, xi + 1, yi) || !box_oval_test(
                        *cx,
                        *cy,
                        *rx,
                        *ry,
                        xi - 1,
                        yi,
                    ) || !box_oval_test(*cx, *cy, *rx, *ry, xi, yi + 1) || !box_oval_test(
                        *cx,
                        *cy,
                        *rx,
                        *ry,
                        xi,
                        yi - 1,
                    ))
                } else {
                    inside
                }
            },
            Region::RadiusOval { cx, cy, rx, ry } => { radius_oval_test(*cx, *cy, *rx, *ry, x, y) },
            Region::Triangle { p0, p1, p2, border_only } => {
                proof {
                    lemma_tri_coord_small(p0.0 as int);
                    lemma_tri_coord_small(p1.0 as int);
                    lemma_tri_coord_small(p2.0 as int);
                    lemma_tri_coord_small(p0.1 as int);
                    lemma_tri_coord_small(p1.1 as int);
                    lemma_tri_coord_small(p2.1 as int);
                }
                let xi: isize = x as isize;
                let yi: isize = y as isize;
                let inside = triangle_test(*p0, *p1, *p2, xi, yi);
                if *border_only {
                    inside && (!triangle_test(*p0, *p1, *p2, xi + 1, yi) || !triangle_test(
                        *p0,
                        *p1,
                        *p2,
                        xi - 1,
                        yi,
                    ) || !triangle_test(*p0, *p1, *p2, xi, yi + 1) || !triangle_test(
                        *p0,
                        *p1,
                        *p2,
                        xi,
                        yi - 1,
                    ))
                } else {
                    inside
                }
            },
        }
    }
}

/// The cells of the box `[x_lo, x_end) x [y_lo, y_end)` that the region holds, read row by
/// row from the top, each row from left to right.
pub fn scan(region: &Region, x_lo: usize, x_end: usize, y_lo: usize, y_end: usize) -> (pts: Vec<(usize, usize)>)
    requires
        x_lo <= x_end,
        y_lo <= y_end,
        region.computable(x_lo as int, x_end as int, y_lo as int, y_end as int),
    ensures
        sorted_row_major(int_points(pts@)),
        forall|p: (int, int)|
            #![trigger int_points(pts@).contains(p)]
            int_points(pts@).contains(p) <==> (in_box(p, x_lo as int, x_end as int, y_lo as int, y_end as int)
                && region.keeps(p.0, p.1)),
{
    let mut pts: Vec<(usize, usize)> = Vec::new();
    let mut y: usize = y_lo;
    while y < y_end
        invariant
            x_lo <= x_end,
            y_lo <= y <= y_end,
            region.computable(x_lo as int, x_end as int, y_lo as int, y_end as int),
            sorted_row_major(int_points(pts@)),
            forall|i: int| 0 <= i < pts@.len() ==> row_major_lt(#[trigger] int_points(pts@)[i], (x_lo as int, y as int)),
            forall|p: (int, int)|
                #![trigger int_points(pts@).contains(p)]
                int_points(pts@).contains(p) <==> (in_box(p, x_lo as int, x_end as int, y_lo as int, y as int)
                    && region.keeps(p.0, p.1)),
        decreases y_end - y,
    {
        let mut x: usize = x_lo;
        while x < x_end
            invariant
                x_lo <= x <= x_end,
                y_lo <= y < y_end,
                region.computable(x_lo as int, x_end as int, y_lo as int, y_end as int),
                sorted_row_major(int_points(pts@)),
                forall|i: int| 0 <= i < pts@.len() ==> row_major_lt(#[trigger] int_points(pts@)[i], (x as int, y as int)),
                forall|p: (int, int)|
                    #![trigger int_points(pts@).contains(p)]
                    int_points(pts@).contains(p) <==> (in_box(p, x_lo as int, x_end as int, y_lo as int, y as int)
                        && region.keeps(p.0, p.1)) || (p.1 == y && x_lo <= p.0 < x && region.keeps(p.0, p.1)),
            decreases x_end - x,
        {
            let keep = region.holds(x, y, Ghost(x_lo as int), Ghost(x_end as int), Ghost(y_lo as int), Ghost(y_end as int));
            if keep {
                let ghost old_pts = int_points(pts@);
                pts.push((x, y));
                assert(int_points(pts@) =~= old_pts.push((x as int, y as int)));
                assert forall|p: (int, int)|
                    #![trigger int_points(pts@).contains(p)]
                    int_points(pts@).contains(p) <==> old_pts.contains(p) || p == (x as int, y as int) by {
                    if int_points(pts@).contains(p) {
                        let k = choose|k: int| 0 <= k < int_points(pts@).len() && int_points(pts@)[k] == p;
                        if k < old_pts.len() {
                            assert(old_pts[k] == p);
                        }
                    }
                    if old_pts.contains(p) {
                        let k = choose|k: int| 0 <= k < old_pts.len() && old_pts[k] == p;
                        assert(int_points(pts@)[k] == p);
                    }
                    if p == (x as int, y as int) {
                        assert(int_points(pts@)[old_pts.len() as int] == p);
                    }
                }
            }
            x = x + 1;
        }
        y = y + 1;
    }
    pts
}

} // verus!
