//! The brush shapes of the tools: ovals, rectangles and triangles of a given width and
//! height, drawn around a centre.

use vstd::prelude::*;
use crate::raster::{self, int_points, rect_cell, box_oval_cell, triangle_cell, in_triangle_box, triangle_fits};
use crate::scan::{sorted_row_major, row_major_lt, in_box, box_oval_ok, tri_coord_ok};

verus! {

/// The smallest width or height that scaling leaves a shape with.
pub const SIZE_MIN: usize = 1;

/// The largest width or height that scaling gives a shape, before it is made odd.
pub const SIZE_MAX: usize = 500;

/// A brush shape with its width and height.
#[derive(Debug, Clone, Copy, PartialEq, Eq, Structural)]
pub enum Shape {
    Oval(usize, usize),
    Rect(usize, usize),
    Tri(usize, usize),
}

/// The size after scaling by `amount`: `size + 2 * amount`, clamped to
/// `SIZE_MIN..=SIZE_MAX`, then made odd by setting its lowest bit.
pub open spec fn scaled(size: usize, amount: isize) -> usize {
    let n = (size as isize) as int + 2 * amount;
    let c = if n < SIZE_MIN {
        SIZE_MIN as int
    } else if n > SIZE_MAX {
        SIZE_MAX as int
    } else {
        n
    };
    (if c % 2 == 0 {
        c + 1
    } else {
        c
    }) as usize
}

/// Scaling `size` by `amount` cannot overflow `isize`.
pub open spec fn scale_fits(size: usize, amount: isize) -> bool {
    &&& isize::MIN <= 2 * amount <= isize::MAX
    &&& isize::MIN <= (size as isize) as int + 2 * amount <= isize::MAX
}

impl Shape {
    /// The shape's width.
    pub open spec fn width(self) -> usize {
        match self {
            Shape::Oval(w, _) => w,
            Shape::Rect(w, _) => w,
            Shape::Tri(w, _) => w,
        }
    }

    /// The shape's height.
    pub open spec fn height(self) -> usize {
        match self {
            Shape::Oval(_, h) => h,
            Shape::Rect(_, h) => h,
            Shape::Tri(_, h) => h,
        }
    }

    /// The shape of the same kind with the given size.
    pub open spec fn with_size(self, w: usize, h: usize) -> Shape {
        match self {
            Shape::Oval(_, _) => Shape::Oval(w, h),
            Shape::Rect(_, _) => Shape::Rect(w, h),
            Shape::Tri(_, _) => Shape::Tri(w, h),
        }
    }

    /// The next kind of shape: oval, then rectangle, then triangle, then oval again.
    pub open spec fn next_kind(self) -> Shape {
        match self {
            Shape::Oval(w, h) => Shape::Rect(w, h),
            Shape::Rect(w, h) => Shape::Tri(w, h),
            Shape::Tri(w, h) => Shape::Oval(w, h),
        }
    }

    /// The previous kind of shape.
    pub open spec fn prev_kind(self) -> Shape {
        match self {
            Shape::Oval(w, h) => Shape::Tri(w, h),
            Shape::Tri(w, h) => Shape::Rect(w, h),
            Shape::Rect(w, h) => Shape::Oval(w, h),
        }
    }

    /// Grows (or, for a negative amount, shrinks) the shape by `amount` cells on every side;
    /// width and height stay odd and between `SIZE_MIN` and `SIZE_MAX + 1`.
    pub fn scale_by(&mut self, amount: isize)
        requires
            scale_fits(old(self).width(), amount),
            scale_fits(old(self).height(), amount),
        ensures
            *final(self) == old(self).with_size(
                scaled(old(self).width(), amount),
                scaled(old(self).height(), amount),
            ),
    {
        match self {
            Shape::Oval(w, h) => {
                let nw = scale_size(*w, amount);
                let nh = scale_size(*h, amount);
                *self = Shape::Oval(nw, nh);
            },
            Shape::Rect(w, h) => {
                let nw = scale_size(*w, amount);
                let nh = scale_size(*h, amount);
                *self = Shape::Rect(nw, nh);
            },
            Shape::Tri(w, h) => {
                let nw = scale_size(*w, amount);
                let nh = scale_size(*h, amount);
                *self = Shape::Tri(nw, nh);
            },
        }
    }

    /// Switches to the next kind of shape, keeping the size.
    pub fn cycle_forward(&mut self)
        ensures
            *final(self) == old(self).next_kind(),
    {
        *self = match *self {
            Shape::Oval(w, h) => Shape::Rect(w, h),
            Shape::Rect(w, h) => Shape::Tri(w, h),
            Shape::Tri(w, h) => Shape::Oval(w, h),
        }
    }

    /// Switches to the previous kind of shape, keeping the size.
    pub fn cycle_backwards(&mut self)
        ensures
            *final(self) == old(self).prev_kind(),
    {
        *self = match *self {
            Shape::Oval(w, h) => Shape::Tri(w, h),
            Shape::Tri(w, h) => Shape::Rect(w, h),
            Shape::Rect(w, h) => Shape::Oval(w, h),
        }
    }
}

impl Default for Shape {
    /// A point-sized oval.
    fn default() -> (s: Self)
        ensures
            s == Shape::Oval(0, 0),
    {
        Shape::Oval(0, 0)
    }
}

/// One size scaled by `amount`.
fn scale_size(size: usize, amount: isize) -> (r: usize)
    requires
        scale_fits(size, amount),
    ensures
        r == scaled(size, amount),
{
    let n: isize = (size as isize) + amount * 2;
    let lo: isize = if n < SIZE_MIN as isize {
        SIZE_MIN as isize
    } else {
        n
    };
    let c: isize = if lo > SIZE_MAX as isize {
        SIZE_MAX as isize
    } else {
        lo
    };
    let odd: isize = c | 1;
    assert(odd as int == if c % 2 == 0 {
        c + 1
    } else {
        c as int
    }) by (bit_vector)
        requires
            1 <= c <= 500,
            odd == c | 1,
    ;
    odd as usize
}


/// Offsets given as machine integers, read as mathematical integers.
pub open spec fn int_offsets(s: Seq<(isize, isize)>) -> Seq<(int, int)> {
    s.map_values(|p: (isize, isize)| (p.0 as int, p.1 as int))
}

/// The corners of the triangle brush of width `w` and height `h`: top middle, bottom left,
/// bottom right.
pub open spec fn tri_corners(w: usize, h: usize) -> ((usize, usize), (usize, usize), (usize, usize)) {
    (((w / 2) as usize, 0usize), (0usize, (h - 1) as usize), ((w - 1) as usize, (h - 1) as usize))
}

impl Shape {
    /// The shape's cells can be listed as offsets: sizes that fit the rasterisers, and for a
    /// triangle a positive width and height.
    pub open spec fn points_fit(self) -> bool {
        match self {
            Shape::Rect(w, h) => w <= isize::MAX && h <= isize::MAX,
            Shape::Oval(w, h) => {
                let rx = w / 2;
                let ry = h / 2;
                rx == 0 || ry == 0 || box_oval_ok(rx as int, ry as int, rx as int, ry as int, true)
            },
            Shape::Tri(w, h) => {
                let (p0, p1, p2) = tri_corners(w, h);
                1 <= w && 1 <= h && triangle_fits(p0, p1, p2)
            },
        }
    }

    /// The offset `q` from the shape's centre `(width / 2, height / 2)` is one of the cells
    /// that `for_each_point` lists.
    pub open spec fn offset_cell(self, border_only: bool, q: (int, int)) -> bool {
        match self {
            Shape::Rect(w, h) => rect_cell(w as int, h as int, border_only, (q.0 + w / 2, q.1 + h / 2)),
            Shape::Oval(w, h) => {
                let rx = (w / 2) as int;
                let ry = (h / 2) as int;
                let c = (q.0 + rx, q.1 + ry);
                if rx == 0 || ry == 0 {
                    q == (0int, 0int)
                } else {
                    in_box(c, 0, 2 * rx + 1, 0, 2 * ry + 1) && box_oval_cell(rx, ry, rx, ry, border_only, c)
                }
            },
            Shape::Tri(w, h) => {
                let (p0, p1, p2) = tri_corners(w, h);
                let c = (q.0 + w / 2, q.1 + h / 2);
                in_triangle_box(p0, p1, p2, c) && triangle_cell(p0, p1, p2, border_only, c)
            },
        }
    }

    /// The cells of the shape (or of its border) as offsets from its centre
    /// `(width / 2, height / 2)`, row by row.
    pub fn for_each_point(&self, border_only: bool) -> (offsets: Vec<(isize, isize)>)
        requires
            self.points_fit(),
        ensures
            sorted_row_major(int_offsets(offsets@)),
            forall|q: (int, int)|
                #![trigger int_offsets(offsets@).contains(q)]
                int_offsets(offsets@).contains(q) <==> self.offset_cell(border_only, q),
    {
        match self {
            Shape::Rect(width, height) => {
                let rx = *width / 2;
                let ry = *height / 2;
                let pts = raster::rect(*width, *height, border_only);
                proof {
                    assert forall|i: int| 0 <= i < pts@.len() implies (#[trigger] pts@[i]).0 <= isize::MAX
                        && pts@[i].1 <= isize::MAX by {
                        assert(int_points(pts@)[i] == (pts@[i].0 as int, pts@[i].1 as int));
                        assert(int_points(pts@).contains(int_points(pts@)[i]));
                    }
                }
                let out = shift_points(&pts, rx, ry);
                proof {
                    lemma_shift(int_points(pts@), int_offsets(out@), rx as int, ry as int);
                }
                out
            },
            Shape::Oval(width, height) => {
                let rx = *width / 2;
                let ry = *height / 2;
                let pts = raster::oval(rx, ry, rx, ry, border_only);
                proof {
                    if rx != 0 && ry != 0 {
                        assert forall|i: int| 0 <= i < pts@.len() implies (#[trigger] pts@[i]).0 <= isize::MAX
                            && pts@[i].1 <= isize::MAX by {
                            assert(int_points(pts@)[i] == (pts@[i].0 as int, pts@[i].1 as int));
                            assert(int_points(pts@).contains(int_points(pts@)[i]));
                        }
                    }
                }
                let out = shift_points(&pts, rx, ry);
                proof {
                    lemma_shift(int_points(pts@), int_offsets(out@), rx as int, ry as int);
                    if rx == 0 || ry == 0 {
                        assert(int_offsets(out@) =~= seq![(0int, 0int)]);
                        assert forall|q: (int, int)|
                            #![trigger int_offsets(out@).contains(q)]
                            int_offsets(out@).contains(q) <==> q == (0int, 0int) by {
                            if q == (0int, 0int) {
                                assert(int_offsets(out@)[0] == q);
                            }
                        }
                    }
                }
                out
            },
            Shape::Tri(width, height) => {
                let rx = *width / 2;
                let ry = *height / 2;
                let p0 = (*width / 2, 0usize);
                let p1 = (0usize, *height - 1);
                let p2 = (*width - 1, *height - 1);
                let pts = raster::triangle(p0, p1, p2, border_only);
                proof {
                    crate::scan::lemma_tri_coord_small(p2.0 as int);
                    crate::scan::lemma_tri_coord_small(p2.1 as int);
                    assert forall|i: int| 0 <= i < pts@.len() implies (#[trigger] pts@[i]).0 <= isize::MAX
                        && pts@[i].1 <= isize::MAX by {
                        assert(int_points(pts@)[i] == (pts@[i].0 as int, pts@[i].1 as int));
                        assert(int_points(pts@).contains(int_points(pts@)[i]));
                    }
                }
                let out = shift_points(&pts, rx, ry);
                proof {
                    lemma_shift(int_points(pts@), int_offsets(out@), rx as int, ry as int);
                }
                out
            },
        }
    }
}

/// Each cell moved by `(-dx, -dy)`.
fn shift_points(pts: &Vec<(usize, usize)>, dx: usize, dy: usize) -> (out: Vec<(isize, isize)>)
    requires
        dx <= isize::MAX,
        dy <= isize::MAX,
        forall|i: int| 0 <= i < pts@.len() ==> (#[trigger] pts@[i]).0 <= isize::MAX && pts@[i].1 <= isize::MAX,
    ensures
        out@.len() == pts@.len(),
        forall|i: int|
            0 <= i < pts@.len() ==> #[trigger] int_offsets(out@)[i] == (int_points(pts@)[i].0 - dx, int_points(
                pts@,
            )[i].1 - dy),
{
    let mut out: Vec<(isize, isize)> = Vec::new();
    let mut i: usize = 0;
    while i < pts.len()
        invariant
            i <= pts@.len(),
            out@.len() == i,
            dx <= isize::MAX,
            dy <= isize::MAX,
            forall|j: int| 0 <= j < pts@.len() ==> (#[trigger] pts@[j]).0 <= isize::MAX && pts@[j].1 <= isize::MAX,
            forall|j: int|
                0 <= j < i ==> #[trigger] int_offsets(out@)[j] == (int_points(pts@)[j].0 - dx, int_points(
                    pts@,
                )[j].1 - dy),
        decreases pts@.len() - i,
    {
        let (x, y) = pts[i];
        assert(pts@[i as int] == (x, y));
        let ghost before = out@;
        out.push((x as isize - dx as isize, y as isize - dy as isize));
        proof {
            assert forall|j: int| 0 <= j < i + 1 implies #[trigger] int_offsets(out@)[j] == (int_points(pts@)[j].0 - dx, int_points(
                pts@,
            )[j].1 - dy) by {
                if j < i {
                    assert(out@[j] == before[j]);
                    assert(int_offsets(before)[j] == int_offsets(out@)[j]);
                }
            }
        }
        i = i + 1;
    }
    out
}

/// Moving every cell by the same amount keeps the row-major order, and moves membership
/// with it.
proof fn lemma_shift(pts: Seq<(int, int)>, out: Seq<(int, int)>, dx: int, dy: int)
    requires
        out.len() == pts.len(),
        forall|i: int| 0 <= i < pts.len() ==> #[trigger] out[i] == (pts[i].0 - dx, pts[i].1 - dy),
    ensures
        sorted_row_major(pts) ==> sorted_row_major(out),
        forall|q: (int, int)| #[trigger] out.contains(q) <==> pts.contains((q.0 + dx, q.1 + dy)),
{
    if sorted_row_major(pts) {
        assert forall|i: int, j: int| 0 <= i < j < out.len() implies row_major_lt(#[trigger] out[i], #[trigger] out[j]) by {
            assert(row_major_lt(pts[i], pts[j]));
        }
    }
    assert forall|q: (int, int)| #[trigger] out.contains(q) <==> pts.contains((q.0 + dx, q.1 + dy)) by {
        if out.contains(q) {
            let k = choose|k: int| 0 <= k < out.len() && out[k] == q;
            assert(pts[k] == (q.0 + dx, q.1 + dy));
        }
        if pts.contains((q.0 + dx, q.1 + dy)) {
            let k = choose|k: int| 0 <= k < pts.len() && pts[k] == (q.0 + dx, q.1 + dy);
            assert(out[k] == q);
        }
    }
}


/// Whether `2 * (v + 1)^2` fits in `isize`.
fn coord_fits(v: usize) -> (b: bool)
    ensures
        b == tri_coord_ok(v as int),
{
    let a: u128 = v as u128 + 1;
    match a.checked_mul(a) {
        Some(sq) => match sq.checked_mul(2) {
            Some(d) => {
                assert(d == 2 * (v + 1) * (v + 1)) by (nonlinear_arith)
                    requires
                        d == sq * 2,
                        sq == a * a,
                        a == v + 1,
                ;
                d <= isize::MAX as u128
            },
            None => {
                assert(2 * (v + 1) * (v + 1) > isize::MAX) by (nonlinear_arith)
                    requires
                        sq * 2 > u128::MAX,
                        sq == a * a,
                        a == v + 1,
                ;
                false
            },
        },
        None => {
            assert(2 * (v + 1) * (v + 1) > isize::MAX) by (nonlinear_arith)
                requires
                    a * a > u128::MAX,
                    a == v + 1,
            ;
            false
        },
    }
}

impl Shape {
    /// Whether the shape's cells can be listed by `for_each_point`.
    pub fn can_list_points(&self) -> (b: bool)
        ensures
            b == self.points_fit(),
    {
        match self {
            Shape::Rect(w, h) => *w <= isize::MAX as usize && *h <= isize::MAX as usize,
            Shape::Oval(w, h) => {
                let rx = *w / 2;
                let ry = *h / 2;
                if rx == 0 || ry == 0 {
                    return true;
                }
                let a: u128 = 2 * (rx as u128) + 2;
                let b: u128 = 2 * (ry as u128) + 2;
                let small = (rx as u128) + (rx as u128) + 1 <= isize::MAX as u128 && (ry as u128) + (ry as u128) + 1
                    <= isize::MAX as u128;
                let prod = match a.checked_mul(b) {
                    Some(p) => match p.checked_mul(p) {
                        Some(q) => match q.checked_mul(2) {
                            Some(d) => {
                                assert(d == 2 * (a * b) * (a * b)) by (nonlinear_arith)
                                    requires
                                        d == q * 2,
                                        q == p * p,
                                        p == a * b,
                                ;
                                d <= isize::MAX as u128
                            },
                            None => {
                                assert(2 * (a * b) * (a * b) > isize::MAX) by (nonlinear_arith)
                                    requires
                                        q * 2 > u128::MAX,
                                        q == p * p,
                                        p == a * b,
                                ;
                                false
                            },
                        },
                        None => {
                            assert(2 * (a * b) * (a * b) > isize::MAX) by (nonlinear_arith)
                                requires
                                    p * p > u128::MAX,
                                    p == a * b,
                            ;
                            false
                        },
                    },
                    None => {
                        assert(2 * (a * b) * (a * b) > isize::MAX) by (nonlinear_arith)
                            requires
                                a * b > u128::MAX,
                                a >= 2,
                                b >= 2,
                        ;
                        false
                    },
                };
                small && prod
            },
            Shape::Tri(w, h) => {
                if *w == 0 || *h == 0 {
                    return false;
                }
                coord_fits(*w / 2) && coord_fits(0) && coord_fits(*h - 1) && coord_fits(*w - 1)
            },
        }
    }
}

} // verus!
