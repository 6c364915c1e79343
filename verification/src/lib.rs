//! A falling-sand particle simulation: colours, elements, rasterised shapes,
//! the particle grid and the bookkeeping of the particle world.

pub mod color;
pub mod element;
pub mod input;
pub mod laws;
pub mod particle;
pub mod raster;
pub mod scan;
pub mod settle;
pub mod shape;
pub mod shape_utils;
pub mod tool;
pub mod world;
