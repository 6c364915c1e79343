//! The elements that particles are made of, and their fixed properties.

use vstd::prelude::*;
use crate::color::{Color, pack};

verus! {

/// The state of matter of an element, which decides how its particles settle.
#[derive(Debug, Clone, Copy, PartialEq, Eq, Structural)]
pub enum StateOfMatter {
    Powder,
    Liquid,
    Gas,
    Solid,
    Energy,
}

/// What happens to an element past a threshold value: nothing, or a transition at the
/// threshold into a new element, with the element it leaves behind.
pub enum ValueReaction<T> {
    NoReaction,
    Transition(T, Option<Element>, Option<Element>),
}

/// The elements of the simulation.
#[derive(Debug, Clone, Copy, PartialEq, Eq, Structural)]
pub enum Element {
    Sand,
    Water,
    Wood,
    Ice,
}

impl Element {
    /// The state of matter of each element.
    pub open spec fn spec_kind(self) -> StateOfMatter {
        match self {
            Element::Sand => StateOfMatter::Powder,
            Element::Water => StateOfMatter::Liquid,
            Element::Wood => StateOfMatter::Solid,
            Element::Ice => StateOfMatter::Solid,
        }
    }

    /// The packed base colour of each element.
    pub open spec fn spec_color(self) -> int {
        match self {
            Element::Sand => pack(255, 255, 229, 125),
            Element::Water => pack(255, 36, 116, 255),
            Element::Wood => pack(255, 89, 75, 51),
            Element::Ice => pack(255, 128, 185, 255),
        }
    }

    /// How far each colour channel of a new particle may stray from the base colour.
    pub open spec fn spec_brightness_vary(self) -> u8 {
        match self {
            Element::Sand => 10,
            Element::Water => 0,
            Element::Wood => 5,
            Element::Ice => 0,
        }
    }

    /// Whether the element burns.
    pub open spec fn spec_flammable(self) -> bool {
        match self {
            Element::Wood => true,
            _ => false,
        }
    }

    /// The real-life density of each element in kg/m³ (g/cm³ times 1000).
    pub open spec fn spec_density_per_mille(self) -> u32 {
        match self {
            Element::Sand => 1500,
            Element::Water => 1000,
            Element::Wood => 750,
            Element::Ice => 934,
        }
    }

    /// The state of matter of the element.
    pub fn kind(&self) -> (k: StateOfMatter)
        ensures
            k == self.spec_kind(),
    {
        match self {
            Element::Sand => StateOfMatter::Powder,
            Element::Water => StateOfMatter::Liquid,
            Element::Wood => StateOfMatter::Solid,
            Element::Ice => StateOfMatter::Solid,
        }
    }

    /// The base colour of the element.
    pub fn color(&self) -> (c: Color)
        ensures
            c.value == self.spec_color(),
    {
        match self {
            Element::Sand => Color::new(255, 229, 125, None),
            Element::Water => Color::new(36, 116, 255, None),
            Element::Wood => Color::new(89, 75, 51, None),
            Element::Ice => Color::new(128, 185, 255, None),
        }
    }

    /// How far each colour channel of a new particle of this element may stray from the base
    /// colour.
    pub fn brightness_vary(&self) -> (v: u8)
        ensures
            v == self.spec_brightness_vary(),
    {
        match self {
            Element::Sand => 10,
            Element::Water => 0,
            Element::Wood => 5,
            Element::Ice => 0,
        }
    }

    /// Whether the element burns.
    pub fn flammable(&self) -> (b: bool)
        ensures
            b == self.spec_flammable(),
    {
        match self {
            Element::Sand => false,
            Element::Water => false,
            Element::Wood => true,
            Element::Ice => false,
        }
    }

    /// The element's density in kg/m³, the same real-life figures as its density in g/cm³,
    /// in whole numbers; heavier particles sink through lighter ones.
    pub fn density_per_mille(&self) -> (d: u32)
        ensures
            d == self.spec_density_per_mille(),
    {
        match self {
            Element::Sand => 1500,
            Element::Water => 1000,
            Element::Wood => 750,
            Element::Ice => 934,
        }
    }
}

} // verus!
