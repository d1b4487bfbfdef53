//! Tools for Source-engine asset files: a compiled-model decoder, a
//! material-descriptor parser, and a rooted dependency graph that links a
//! model to the materials and textures it requires on disk.

pub mod bsp;
pub mod bytes;
pub mod dependency;
pub mod gma;
pub mod mdl;
pub mod strutil;
pub mod vmt;
pub mod workshop;

use vstd::prelude::*;

verus! {

} // verus!
