use vstd::prelude::*;

use crate::color::RGBA;

verus! {

/// The tints of one biome.
#[derive(Clone, Copy, Debug)]
pub struct BiomeType {
    pub id: u8,
    pub foliage: RGBA,
    pub grass: RGBA,
    pub water: RGBA,
}

} // verus!
