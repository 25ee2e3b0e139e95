//! Decoding of Minecraft region files and drawing of maps from them.
//!
//! The modules, from the bytes up:
//! - `nbt` reads the tree of tags that a chunk is stored as;
//! - `blockstates` and `sections` turn the tags of a chunk's sections into
//!   blocks and lights;
//! - `region` finds the chunks in a region file, decodes them and gives each
//!   block its neighbours, also across the borders of chunks and regions;
//! - `world` works out the bounds of a world from its region files;
//! - `orthomap` and `isomap` draw the tile of a chunk, seen from above or
//!   from the side, and `map` draws the chunks of a region into the image of
//!   the world;
//! - `agreement` holds what is proved of the decoding as a whole.
use vstd::prelude::*;

pub mod agreement;
pub mod biometypes;
pub mod blockstates;
pub mod blocktypes;
pub mod color;
pub mod isomap;
pub mod map;
pub mod nbt;
pub mod options;
pub mod orthomap;
pub mod region;
pub mod sections;
pub mod sizes;
pub mod types;
pub mod world;

verus! {

} // verus!
