//! Particles: what the world's bookkeeping knows of each (its element, colour, grid cell and
//! whether it is dead), with the rest of its state carried along as `body`. A new particle
//! is drawn in its element's base colour, each of red, green and blue shifted at random by
//! at most the element's brightness variation.

use vstd::prelude::*;
use crate::color::{Color, pack, lemma_pack_channels};
use crate::element::Element;

verus! {

/// A channel shifted by `offset` and clamped to `0..=255`.
pub open spec fn shifted(value: u8, offset: int) -> u8 {
    let v = value as int + offset;
    if v < 0 {
        0
    } else if v > 255 {
        255
    } else {
        v as u8
    }
}

/// The base colour with red, green and blue shifted by `dr`, `dg`, `db` (clamped), alpha
/// unchanged.
pub open spec fn decorated(base: Color, dr: int, dg: int, db: int) -> Color {
    Color {
        value: pack(base.alpha(), shifted(base.red(), dr), shifted(base.green(), dg), shifted(base.blue(), db))
            as u32,
    }
}

/// A random value drawn by `rand::random_range(lo..hi)`; the contract claims only that it
/// lies in that half-open range, which `lo < hi` keeps non-empty (so the call does not panic).
#[verifier::external_body]
fn random_in(lo: i16, hi: i16) -> (r: i16)
    requires
        lo < hi,
    ensures
        lo <= r < hi,
{
    rand::random_range(lo..hi)
}

/// A colour channel shifted by `offset` and clamped to `0..=255`.
pub fn shift_channel(value: u8, offset: i16) -> (c: u8)
    requires
        -256 < offset < 256,
    ensures
        c == shifted(value, offset as int),
{
    let v: i16 = value as i16 + offset;
    if v < 0 {
        0
    } else if v > 255 {
        255
    } else {
        v as u8
    }
}

/// The base colour with red, green and blue shifted by the given offsets (each clamped to
/// `0..=255`), alpha unchanged.
pub fn decorate(base: Color, dr: i16, dg: i16, db: i16) -> (c: Color)
    requires
        -256 < dr < 256,
        -256 < dg < 256,
        -256 < db < 256,
    ensures
        c == decorated(base, dr as int, dg as int, db as int),
{
    let mut c = base;
    let r = shift_channel(base.r(), dr);
    c.set_r(r);
    proof {
        lemma_pack_channels(base.alpha(), r, base.green(), base.blue());
    }
    let g = shift_channel(c.g(), dg);
    c.set_g(g);
    proof {
        lemma_pack_channels(base.alpha(), r, g, base.blue());
    }
    let b = shift_channel(c.b(), db);
    c.set_b(b);
    c
}

/// The colour of a new particle of `element`: its base colour, with red, green and blue each
/// shifted by an offset drawn at random from `-v..v` (clamped to `0..=255`) when the element's
/// brightness variation `v` is positive, and unchanged otherwise.
pub fn decoration(element: Element) -> (c: Color)
    ensures
        element.spec_brightness_vary() == 0 ==> c.value == element.spec_color(),
        element.spec_brightness_vary() > 0 ==> exists|dr: int, dg: int, db: int|
            #![trigger decorated(Color { value: element.spec_color() as u32 }, dr, dg, db)]
            {
                let v = element.spec_brightness_vary() as int;
                &&& -v <= dr < v
                &&& -v <= dg < v
                &&& -v <= db < v
                &&& c == decorated(Color { value: element.spec_color() as u32 }, dr, dg, db)
            },
{
    let base = element.color();
    let br: i16 = element.brightness_vary() as i16;
    if br > 0 {
        let dr = random_in(-br, br);
        let dg = random_in(-br, br);
        let db = random_in(-br, br);
        let c = decorate(base, dr, dg, db);
        assert(base == Color { value: element.spec_color() as u32 });
        assert({
            let v = element.spec_brightness_vary() as int;
            &&& -v <= dr < v
            &&& -v <= dg < v
            &&& -v <= db < v
            &&& c == decorated(Color { value: element.spec_color() as u32 }, dr as int, dg as int, db as int)
        });
        c
    } else {
        base
    }
}


/// `c` is a colour that `decoration` can give a particle of `element`.
pub open spec fn valid_decoration(element: Element, c: Color) -> bool {
    if element.spec_brightness_vary() == 0 {
        c.value == element.spec_color()
    } else {
        exists|dr: int, dg: int, db: int|
            #![trigger decorated(Color { value: element.spec_color() as u32 }, dr, dg, db)]
            {
                let v = element.spec_brightness_vary() as int;
                &&& -v <= dr < v
                &&& -v <= dg < v
                &&& -v <= db < v
                &&& c == decorated(Color { value: element.spec_color() as u32 }, dr, dg, db)
            }
    }
}

/// A particle: its element, the colour it is drawn with, what it may turn into, whether it
/// is dead, the grid cell of its position rounded to the nearest cell, and the rest of its
/// state (`body`), which the bookkeeping carries along without reading.
#[derive(Clone, Copy)]
pub struct Particle<P> {
    pub element: Element,
    pub decoration: Color,
    pub sub_type: Option<Element>,
    pub is_dead: bool,
    pub grid_x: usize,
    pub grid_y: usize,
    pub body: P,
}

impl<P> Particle<P> {
    /// A live particle of `element` in the cell `(grid_x, grid_y)`, drawn in a colour that
    /// `decoration` picks at random for the element.
    pub fn new(element: Element, grid_x: usize, grid_y: usize, body: P) -> (p: Self)
        ensures
            p.element == element,
            valid_decoration(element, p.decoration),
            p.sub_type == None::<Element>,
            !p.is_dead,
            p.grid_x == grid_x,
            p.grid_y == grid_y,
            p.body == body,
    {
        let d = decoration(element);
        Particle { element, decoration: d, sub_type: None, is_dead: false, grid_x, grid_y, body }
    }

    /// The column of the particle's cell.
    pub fn get_grid_x(&self) -> (x: usize)
        ensures
            x == self.grid_x,
    {
        self.grid_x
    }

    /// The row of the particle's cell.
    pub fn get_grid_y(&self) -> (y: usize)
        ensures
            y == self.grid_y,
    {
        self.grid_y
    }
}

} // verus!
