//! The cells that a tool stroke covers: the brush shape stamped at every cell of the line
//! from where the pointer was to where it is.

use vstd::prelude::*;
use crate::raster::{self, int_points, line_points, line_coord_max};
use crate::scan::sorted_row_major;
use crate::shape::{Shape, int_offsets};

verus! {

/// The brush offsets `offs` stamped at every cell of `line`, in line order, each stamp in
/// the order of `offs`.
pub open spec fn stroke_seq(line: Seq<(int, int)>, offs: Seq<(int, int)>) -> Seq<(int, int)>
    decreases line.len(),
{
    if line.len() == 0 {
        Seq::empty()
    } else {
        let c = line.last();
        stroke_seq(line.drop_last(), offs) + offs.map_values(|o: (int, int)| (c.0 + o.0, c.1 + o.1))
    }
}

/// The largest magnitude of a brush offset that `stroke` accepts.
pub open spec fn offset_max() -> int {
    isize::MAX as int / 2
}

/// The brush offsets stamped at every cell of the line, in line order.
pub fn stroke(line: &Vec<(usize, usize)>, offsets: &Vec<(isize, isize)>) -> (cells: Vec<(isize, isize)>)
    requires
        forall|i: int| 0 <= i < line@.len() ==> (#[trigger] line@[i]).0 <= line_coord_max() && line@[i].1 <= line_coord_max(),
        forall|j: int|
            0 <= j < offsets@.len() ==> -offset_max() <= (#[trigger] offsets@[j]).0 <= offset_max() && -offset_max()
                <= offsets@[j].1 <= offset_max(),
    ensures
        int_offsets(cells@) == stroke_seq(int_points(line@), int_offsets(offsets@)),
{
    let ghost offs = int_offsets(offsets@);
    let mut cells: Vec<(isize, isize)> = Vec::new();
    let mut i: usize = 0;
    assert(int_points(line@).take(0) =~= Seq::<(int, int)>::empty());
    assert(int_offsets(cells@) =~= Seq::<(int, int)>::empty());
    while i < line.len()
        invariant
            i <= line@.len(),
            offs == int_offsets(offsets@),
            forall|i: int| 0 <= i < line@.len() ==> (#[trigger] line@[i]).0 <= line_coord_max() && line@[i].1 <= line_coord_max(),
            forall|j: int|
                0 <= j < offsets@.len() ==> -offset_max() <= (#[trigger] offsets@[j]).0 <= offset_max() && -offset_max()
                    <= offsets@[j].1 <= offset_max(),
            int_offsets(cells@) == stroke_seq(int_points(line@).take(i as int), offs),
        decreases line@.len() - i,
    {
        let (cx, cy) = line[i];
        assert(line@[i as int] == (cx, cy));
        let ghost start = int_offsets(cells@);
        let ghost c = (cx as int, cy as int);
        let mut j: usize = 0;
        while j < offsets.len()
            invariant
                j <= offsets@.len(),
                offs == int_offsets(offsets@),
                cx <= line_coord_max(),
                cy <= line_coord_max(),
                c == (cx as int, cy as int),
                forall|j: int|
                    0 <= j < offsets@.len() ==> -offset_max() <= (#[trigger] offsets@[j]).0 <= offset_max() && -offset_max()
                        <= offsets@[j].1 <= offset_max(),
                int_offsets(cells@) == start + offs.take(j as int).map_values(|o: (int, int)| (c.0 + o.0, c.1 + o.1)),
            decreases offsets@.len() - j,
        {
            let (ox, oy) = offsets[j];
            assert(offsets@[j as int] == (ox, oy));
            let ghost before = int_offsets(cells@);
            cells.push((cx as isize + ox, cy as isize + oy));
            assert(int_offsets(cells@) =~= before.push((c.0 + ox, c.1 + oy)));
            assert(offs.take(j + 1).map_values(|o: (int, int)| (c.0 + o.0, c.1 + o.1)) =~= offs.take(
                j as int,
            ).map_values(|o: (int, int)| (c.0 + o.0, c.1 + o.1)).push((c.0 + ox, c.1 + oy)));
            j = j + 1;
        }
        proof {
            assert(offs.take(offsets@.len() as int) =~= offs);
            let lt = int_points(line@).take(i + 1);
            assert(lt.drop_last() =~= int_points(line@).take(i as int));
            assert(lt.last() == c);
        }
        i = i + 1;
    }
    assert(int_points(line@).take(line@.len() as int) =~= int_points(line@));
    cells
}

/// The cells covered when the brush `shape` is stamped, filled, at every cell of the line
/// from `(x0, y0)` to `(x1, y1)`: each stamp lists the shape's cells row by row around the
/// line cell.
pub fn stroke_cells(x0: usize, y0: usize, x1: usize, y1: usize, shape: &Shape) -> (cells: Vec<(isize, isize)>)
    requires
        x0 <= line_coord_max(),
        y0 <= line_coord_max(),
        x1 <= line_coord_max(),
        y1 <= line_coord_max(),
        shape.points_fit(),
    ensures
        exists|offs: Seq<(int, int)>|
            {
                &&& sorted_row_major(offs)
                &&& forall|q: (int, int)| #[trigger] offs.contains(q) <==> shape.offset_cell(false, q)
                &&& int_offsets(cells@) == #[trigger] stroke_seq(line_points(x0 as int, y0 as int, x1 as int, y1 as int), offs)
            },
{
    let line = raster::line(x0, y0, x1, y1);
    let offsets = shape.for_each_point(false);
    proof {
        lemma_line_in_box(x0 as int, y0 as int, x1 as int, y1 as int);
        assert forall|i: int| 0 <= i < line@.len() implies (#[trigger] line@[i]).0 <= line_coord_max()
            && line@[i].1 <= line_coord_max() by {
            assert(int_points(line@)[i] == (line@[i].0 as int, line@[i].1 as int));
        }
        assert forall|j: int| 0 <= j < offsets@.len() implies -offset_max() <= (#[trigger] offsets@[j]).0
            <= offset_max() && -offset_max() <= offsets@[j].1 <= offset_max() by {
            let q = int_offsets(offsets@)[j];
            assert(q == (offsets@[j].0 as int, offsets@[j].1 as int));
            assert(int_offsets(offsets@).contains(q));
            assert(shape.offset_cell(false, q));
            lemma_offset_small(*shape, q);
        }
    }
    let cells = stroke(&line, &offsets);
    assert(sorted_row_major(int_offsets(offsets@)));
    cells
}

/// Every cell of a line lies between its ends, coordinate by coordinate.
proof fn lemma_line_in_box(x0: int, y0: int, x1: int, y1: int)
    ensures
        forall|i: int|
            0 <= i < line_points(x0, y0, x1, y1).len() ==> {
                let p = #[trigger] line_points(x0, y0, x1, y1)[i];
                &&& (x0 <= p.0 <= x1 || x1 <= p.0 <= x0)
                &&& (y0 <= p.1 <= y1 || y1 <= p.1 <= y0)
            },
{
    crate::laws::lemma_line_cells_between(x0, y0, x1, y1);
}

/// A brush offset of a shape whose cells can be listed is small.
proof fn lemma_offset_small(shape: Shape, q: (int, int))
    requires
        shape.points_fit(),
        shape.offset_cell(false, q),
    ensures
        -offset_max() <= q.0 <= offset_max(),
        -offset_max() <= q.1 <= offset_max(),
{
    match shape {
        Shape::Rect(w, h) => {},
        Shape::Oval(w, h) => {},
        Shape::Tri(w, h) => {
            let (p0, p1, p2) = crate::shape::tri_corners(w, h);
            crate::scan::lemma_tri_coord_small(p2.0 as int);
            crate::scan::lemma_tri_coord_small(p2.1 as int);
        },
    }
}

} // verus!
