//! Building blocks of a terrain generator and of the pipeline that prepares
//! mapped ground for it, each with a machine-checked contract.

use vstd::prelude::*;

pub mod arguments;
pub mod assemble;
pub mod blocks;
pub mod census;
pub mod coastline;
pub mod cover;
pub mod droplets;
pub mod extent;
pub mod fill;
pub mod flow;
pub mod grid;
pub mod heap;
pub mod ids;
pub mod keys;
pub mod lattice;
pub mod material;
pub mod mip;
pub mod noise;
pub mod normals;
pub mod order;
pub mod paint;
pub mod products;
pub mod queue;
pub mod read;
pub mod relax;
pub mod rocks;
pub mod sea;
pub mod settling;
pub mod stitch;
pub mod tags;
pub mod text;
pub mod tiles;

verus! {

} // verus!
