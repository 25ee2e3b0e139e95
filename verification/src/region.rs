use flate2::read::ZlibDecoder;
use regex::Regex;
use std::collections::HashMap;
use std::io::Read;
use vstd::prelude::*;
use vstd::slice::slice_subrange;
use vstd::string::StringSliceAdditionalSpecFns;

use crate::blocktypes::BlockType;
use crate::nbt::{
    read_compound_tag_names, read_list_length, read_tag_header, read_tag_payload, read_u32_at,
    seek_compound_tag_name, seek_compound_tag_names, spec_compound_items, spec_list_length,
    spec_read_u32, spec_read_u8, spec_seek, spec_tag_header, spec_tag_payload, NbtError, Reader,
    Tag,
};
use crate::sections::{
    apply_biomes, apply_section, spec_apply_biomes, spec_apply_section, spec_blocks_known,
    spec_section_names,
};
use crate::sizes::{
    block_to_chunk, chunk_pos_in_region, spec_divide, spec_pos_in_cell, BLOCKS_IN_CHUNK,
    BLOCKS_IN_CHUNK_2D, BLOCKS_IN_CHUNK_3D, CHUNKS_IN_REGION, MAX_BLOCK_IN_CHUNK,
    MAX_CHUNK_IN_REGION, MAX_LIGHT_LEVEL, SECTOR_SIZE,
};
use crate::types::{Edges, Pair};
use crate::world::World;

verus! {

/// One voxel as the renderer sees it: its block type and the two light
/// levels, each in `0..16`.
#[derive(Clone, Copy, Debug, PartialEq, Eq)]
pub struct Block {
    pub btype: u16,
    pub slight: usize,
    pub blight: usize,
}

/// The blocks, lights and biomes of one chunk. A voxel at `(x, y, z)` has
/// the index `y * 256 + z * 16 + x`; a column at `(x, z)` has the index
/// `z * 16 + x`. A light byte holds the skylight in its low half and the
/// blocklight in its high half. Block type 0 is air.
pub struct ChunkData {
    pub blocks: [u16; BLOCKS_IN_CHUNK_3D],
    pub lights: [u8; BLOCKS_IN_CHUNK_3D],
    pub biomes: [u8; BLOCKS_IN_CHUNK_2D],
}

/// The mathematical value of a `ChunkData`.
pub ghost struct ChunkModel {
    pub blocks: Seq<u16>,
    pub lights: Seq<u8>,
    pub biomes: Seq<u8>,
}

impl View for ChunkData {
    type V = ChunkModel;

    open spec fn view(&self) -> ChunkModel {
        ChunkModel { blocks: self.blocks@, lights: self.lights@, biomes: self.biomes@ }
    }
}

/// A chunk of air without light, in biome 0.
pub open spec fn spec_empty_chunk() -> ChunkModel {
    ChunkModel {
        blocks: Seq::new(BLOCKS_IN_CHUNK_3D as nat, |i: int| 0u16),
        lights: Seq::new(BLOCKS_IN_CHUNK_3D as nat, |i: int| 0u8),
        biomes: Seq::new(BLOCKS_IN_CHUNK_2D as nat, |i: int| 0u8),
    }
}

impl ChunkData {
    /// A chunk of air without light, in biome 0.
    pub fn new() -> (r: ChunkData)
        ensures
            r@ == spec_empty_chunk(),
    {
        let r = ChunkData {
            blocks: [0u16;BLOCKS_IN_CHUNK_3D],
            lights: [0u8;BLOCKS_IN_CHUNK_3D],
            biomes: [0u8;BLOCKS_IN_CHUNK_2D],
        };
        assert(r.blocks@ =~= spec_empty_chunk().blocks);
        assert(r.lights@ =~= spec_empty_chunk().lights);
        assert(r.biomes@ =~= spec_empty_chunk().biomes);
        r
    }

    /// Whether every block type of the chunk is below `types` and every
    /// biome below `biomes`.
    pub open spec fn spec_within(&self, types: int, biomes: int) -> bool {
        &&& forall|i: int| 0 <= i < BLOCKS_IN_CHUNK_3D ==> (#[trigger] self.blocks[i]) < types
        &&& forall|i: int| 0 <= i < BLOCKS_IN_CHUNK_2D ==> (#[trigger] self.biomes[i]) < biomes
    }

    /// Whether every block type of the chunk is below `types` and every
    /// biome below `biomes`.
    pub fn within(&self, types: usize, biomes: usize) -> (r: bool)
        ensures
            r == self.spec_within(types as int, biomes as int),
    {
        let mut i: usize = 0;
        while i < BLOCKS_IN_CHUNK_3D
            invariant
                i <= BLOCKS_IN_CHUNK_3D,
                forall|j: int| 0 <= j < i ==> (#[trigger] self.blocks[j]) < types,
            decreases BLOCKS_IN_CHUNK_3D - i,
        {
            if self.blocks[i] as usize >= types {
                return false;
            }
            i = i + 1;
        }
        let mut k: usize = 0;
        while k < BLOCKS_IN_CHUNK_2D
            invariant
                k <= BLOCKS_IN_CHUNK_2D,
                forall|j: int| 0 <= j < BLOCKS_IN_CHUNK_3D ==> (#[trigger] self.blocks[j]) < types,
                forall|j: int| 0 <= j < k ==> (#[trigger] self.biomes[j]) < biomes,
            decreases BLOCKS_IN_CHUNK_2D - k,
        {
            if self.biomes[k] as usize >= biomes {
                return false;
            }
            k = k + 1;
        }
        true
    }
}

/// A chunk together with its four neighbours, where they hold data.
pub struct Chunk<'a> {
    pub data: &'a ChunkData,
    pub ndata: Edges<Option<&'a ChunkData>>,
}

/// The chunks of one region by their place in the region's grid, and of the
/// four regions around it the chunks along the shared border. The chunk at
/// `(x, z)` is kept under the key `z * 32 + x`.
pub struct RegionData {
    pub chunks: HashMap<usize, ChunkData>,
    pub nchunks: Edges<HashMap<usize, ChunkData>>,
}

/// The skylight in a light byte.
pub open spec fn spec_skylight(light: u8) -> u8 {
    light & 0x0f
}

/// The blocklight in a light byte.
pub open spec fn spec_blocklight(light: u8) -> u8 {
    (light & 0xf0) >> 4
}

/// The light byte of a skylight and a blocklight, each in `0..16`.
pub open spec fn spec_pack_light(sky: u8, block: u8) -> u8 {
    (block << 4) | sky
}

/// The voxel of block type `btype` with the light byte `light`.
pub open spec fn spec_block(btype: u16, light: u8) -> Block {
    Block {
        btype,
        slight: spec_skylight(light) as usize,
        blight: spec_blocklight(light) as usize,
    }
}

/// The voxel at index `i` of `data`.
pub open spec fn spec_block_at(data: ChunkData, i: int) -> Block {
    spec_block(data.blocks[i], data.lights[i])
}

/// The voxel at index `i` of a neighbour: air without light where the
/// neighbour holds no data.
pub open spec fn spec_neighbor_block_at(data: Option<&ChunkData>, i: int) -> Block {
    match data {
        Some(d) => spec_block_at(*d, i),
        None => spec_block(0, 0),
    }
}

/// The voxel above the one at index `bo3` and height `by`: air in full
/// skylight at the ceiling `ymax`.
pub open spec fn spec_t_block(chunk: Chunk, by: usize, bo3: usize, ymax: usize) -> Block {
    if by == ymax {
        spec_block(0, MAX_LIGHT_LEVEL)
    } else {
        spec_block_at(*chunk.data, bo3 + BLOCKS_IN_CHUNK_2D)
    }
}

/// The voxel to the north of the one at index `bo3` in row `bz`.
pub open spec fn spec_n_block(chunk: Chunk, bz: usize, bo3: usize) -> Block {
    if bz == 0 {
        spec_neighbor_block_at(chunk.ndata.n, bo3 + MAX_BLOCK_IN_CHUNK * BLOCKS_IN_CHUNK)
    } else {
        spec_block_at(*chunk.data, bo3 - BLOCKS_IN_CHUNK)
    }
}

/// The voxel to the east of the one at index `bo3` in column `bx`.
pub open spec fn spec_e_block(chunk: Chunk, bx: usize, bo3: usize) -> Block {
    if bx == MAX_BLOCK_IN_CHUNK {
        spec_neighbor_block_at(chunk.ndata.e, bo3 - MAX_BLOCK_IN_CHUNK)
    } else {
        spec_block_at(*chunk.data, bo3 + 1)
    }
}

/// The voxel to the south of the one at index `bo3` in row `bz`.
pub open spec fn spec_s_block(chunk: Chunk, bz: usize, bo3: usize) -> Block {
    if bz == MAX_BLOCK_IN_CHUNK {
        spec_neighbor_block_at(chunk.ndata.s, bo3 - MAX_BLOCK_IN_CHUNK * BLOCKS_IN_CHUNK)
    } else {
        spec_block_at(*chunk.data, bo3 + BLOCKS_IN_CHUNK)
    }
}

/// The voxel to the west of the one at index `bo3` in column `bx`.
pub open spec fn spec_w_block(chunk: Chunk, bx: usize, bo3: usize) -> Block {
    if bx == 0 {
        spec_neighbor_block_at(chunk.ndata.w, bo3 + MAX_BLOCK_IN_CHUNK)
    } else {
        spec_block_at(*chunk.data, bo3 - 1)
    }
}

/// The index of the voxel at `(bx, by, bz)`.
pub open spec fn spec_block_index(bx: int, by: int, bz: int) -> int {
    by * 256 + bz * 16 + bx
}

/// Both halves of a light byte are light levels, and a light byte made of
/// two levels gives both back.
pub proof fn lemma_light_nibbles(light: u8, sky: u8, block: u8)
    ensures
        spec_skylight(light) < 16,
        spec_blocklight(light) < 16,
        sky < 16 && block < 16 ==> spec_skylight(spec_pack_light(sky, block)) == sky
            && spec_blocklight(spec_pack_light(sky, block)) == block,
{
    assert(light & 0x0f < 16) by (bit_vector);
    assert((light & 0xf0) >> 4 < 16) by (bit_vector);
    assert(sky < 16 && block < 16 ==> ((block << 4) | sky) & 0x0f == sky && ((((block << 4) | sky)
        & 0xf0) >> 4) == block) by (bit_vector);
}

fn make_block(btype: u16, light: u8) -> (r: Block)
    ensures
        r == spec_block(btype, light),
        r.slight < 16,
        r.blight < 16,
{
    proof {
        lemma_light_nibbles(light, 0, 0);
    }
    Block { btype, slight: (light & 0x0f) as usize, blight: ((light & 0xf0) >> 4) as usize }
}

fn neighbor_block(data: Option<&ChunkData>, i: usize) -> (r: Block)
    requires
        i < BLOCKS_IN_CHUNK_3D,
    ensures
        r == spec_neighbor_block_at(data, i as int),
        r.slight < 16,
        r.blight < 16,
{
    match data {
        Some(d) => make_block(d.blocks[i], d.lights[i]),
        None => make_block(0, 0),
    }
}

impl<'a> Chunk<'a> {
    /// The voxel at index `bo3`.
    pub fn get_block(&self, bo3: &usize) -> (r: Block)
        requires
            *bo3 < BLOCKS_IN_CHUNK_3D,
        ensures
            r == spec_block_at(*self.data, *bo3 as int),
            r.slight < 16,
            r.blight < 16,
    {
        make_block(self.data.blocks[*bo3], self.data.lights[*bo3])
    }

    /// The voxel above the one at index `bo3` and height `by`. At the
    /// ceiling `ymax` that is air in full skylight.
    pub fn get_t_block(&self, by: &usize, bo3: &usize, ymax: usize) -> (r: Block)
        requires
            *by == ymax || *bo3 + BLOCKS_IN_CHUNK_2D < BLOCKS_IN_CHUNK_3D,
        ensures
            r == spec_t_block(*self, *by, *bo3, ymax),
            r.slight < 16,
            r.blight < 16,
    {
        if *by == ymax {
            make_block(0, MAX_LIGHT_LEVEL)
        } else {
            make_block(
                self.data.blocks[*bo3 + BLOCKS_IN_CHUNK_2D],
                self.data.lights[*bo3 + BLOCKS_IN_CHUNK_2D],
            )
        }
    }

    /// The voxel to the north of the one at index `bo3` in row `bz`: in the
    /// southernmost row of the northern neighbour where `bz` is 0.
    pub fn get_n_block(&self, bz: &usize, bo3: &usize) -> (r: Block)
        requires
            *bz == 0 ==> *bo3 + MAX_BLOCK_IN_CHUNK * BLOCKS_IN_CHUNK < BLOCKS_IN_CHUNK_3D,
            *bz != 0 ==> BLOCKS_IN_CHUNK <= *bo3 < BLOCKS_IN_CHUNK_3D + BLOCKS_IN_CHUNK,
        ensures
            r == spec_n_block(*self, *bz, *bo3),
            r.slight < 16,
            r.blight < 16,
    {
        if *bz == 0 {
            neighbor_block(self.ndata.n, *bo3 + MAX_BLOCK_IN_CHUNK * BLOCKS_IN_CHUNK)
        } else {
            make_block(
                self.data.blocks[*bo3 - BLOCKS_IN_CHUNK],
                self.data.lights[*bo3 - BLOCKS_IN_CHUNK],
            )
        }
    }

    /// The voxel to the east of the one at index `bo3` in column `bx`: in
    /// the westernmost column of the eastern neighbour where `bx` is 15.
    pub fn get_e_block(&self, bx: &usize, bo3: &usize) -> (r: Block)
        requires
            *bx == MAX_BLOCK_IN_CHUNK ==> MAX_BLOCK_IN_CHUNK <= *bo3 < BLOCKS_IN_CHUNK_3D
                + MAX_BLOCK_IN_CHUNK,
            *bx != MAX_BLOCK_IN_CHUNK ==> *bo3 + 1 < BLOCKS_IN_CHUNK_3D,
        ensures
            r == spec_e_block(*self, *bx, *bo3),
            r.slight < 16,
            r.blight < 16,
    {
        if *bx == MAX_BLOCK_IN_CHUNK {
            neighbor_block(self.ndata.e, *bo3 - MAX_BLOCK_IN_CHUNK)
        } else {
            make_block(self.data.blocks[*bo3 + 1], self.data.lights[*bo3 + 1])
        }
    }

    /// The voxel to the south of the one at index `bo3` in row `bz`: in the
    /// northernmost row of the southern neighbour where `bz` is 15.
    pub fn get_s_block(&self, bz: &usize, bo3: &usize) -> (r: Block)
        requires
            *bz == MAX_BLOCK_IN_CHUNK ==> MAX_BLOCK_IN_CHUNK * BLOCKS_IN_CHUNK <= *bo3
                < BLOCKS_IN_CHUNK_3D + MAX_BLOCK_IN_CHUNK * BLOCKS_IN_CHUNK,
            *bz != MAX_BLOCK_IN_CHUNK ==> *bo3 + BLOCKS_IN_CHUNK < BLOCKS_IN_CHUNK_3D,
        ensures
            r == spec_s_block(*self, *bz, *bo3),
            r.slight < 16,
            r.blight < 16,
    {
        if *bz == MAX_BLOCK_IN_CHUNK {
            neighbor_block(self.ndata.s, *bo3 - MAX_BLOCK_IN_CHUNK * BLOCKS_IN_CHUNK)
        } else {
            make_block(
                self.data.blocks[*bo3 + BLOCKS_IN_CHUNK],
                self.data.lights[*bo3 + BLOCKS_IN_CHUNK],
            )
        }
    }

    /// The voxel to the west of the one at index `bo3` in column `bx`: in
    /// the easternmost column of the western neighbour where `bx` is 0.
    pub fn get_w_block(&self, bx: &usize, bo3: &usize) -> (r: Block)
        requires
            *bx == 0 ==> *bo3 + MAX_BLOCK_IN_CHUNK < BLOCKS_IN_CHUNK_3D,
            *bx != 0 ==> 1 <= *bo3 < BLOCKS_IN_CHUNK_3D + 1,
        ensures
            r == spec_w_block(*self, *bx, *bo3),
            r.slight < 16,
            r.blight < 16,
    {
        if *bx == 0 {
            neighbor_block(self.ndata.w, *bo3 + MAX_BLOCK_IN_CHUNK)
        } else {
            make_block(self.data.blocks[*bo3 - 1], self.data.lights[*bo3 - 1])
        }
    }
}

/// The key under which the chunk at `(x, z)` of a region's grid is kept.
pub open spec fn spec_chunk_key(x: int, z: int) -> usize {
    (z * 32 + x) as usize
}

/// The chunk that `map` holds at `(x, z)`; nothing outside of the grid.
pub open spec fn spec_chunk_at(map: Map<usize, ChunkData>, x: int, z: int) -> Option<ChunkData> {
    if 0 <= x < 32 && 0 <= z < 32 && map.contains_key(spec_chunk_key(x, z)) {
        Some(map[spec_chunk_key(x, z)])
    } else {
        None
    }
}

/// The data behind an optional reference.
pub open spec fn spec_deref(data: Option<&ChunkData>) -> Option<ChunkData> {
    match data {
        Some(d) => Some(*d),
        None => None,
    }
}

/// The key under which the chunk at `c` of a region's grid is kept.
pub fn chunk_key(c: &Pair<usize>) -> (k: usize)
    requires
        c.x < CHUNKS_IN_REGION,
        c.z < CHUNKS_IN_REGION,
    ensures
        k == spec_chunk_key(c.x as int, c.z as int),
        k < 1024,
{
    c.z * CHUNKS_IN_REGION + c.x
}

/// Looks up the chunk at `(x, z)` of a grid.
fn lookup_chunk(map: &HashMap<usize, ChunkData>, x: usize, z: usize) -> (r: Option<&ChunkData>)
    ensures
        spec_deref(r) == spec_chunk_at(map@, x as int, z as int),
{
    if x < CHUNKS_IN_REGION && z < CHUNKS_IN_REGION {
        let key: usize = z * CHUNKS_IN_REGION + x;
        map.get(&key)
    } else {
        None
    }
}

impl RegionData {
    /// The neighbour to the north of the chunk at `(x, z)`: a chunk of the
    /// region, or one of the southernmost row of the region to the north.
    pub open spec fn spec_n_chunk(&self, x: int, z: int) -> Option<ChunkData> {
        if z == 0 {
            spec_chunk_at(self.nchunks.n@, x, MAX_CHUNK_IN_REGION as int)
        } else {
            spec_chunk_at(self.chunks@, x, z - 1)
        }
    }

    /// The neighbour to the east of the chunk at `(x, z)`.
    pub open spec fn spec_e_chunk(&self, x: int, z: int) -> Option<ChunkData> {
        if x == MAX_CHUNK_IN_REGION {
            spec_chunk_at(self.nchunks.e@, 0, z)
        } else {
            spec_chunk_at(self.chunks@, x + 1, z)
        }
    }

    /// The neighbour to the south of the chunk at `(x, z)`.
    pub open spec fn spec_s_chunk(&self, x: int, z: int) -> Option<ChunkData> {
        if z == MAX_CHUNK_IN_REGION {
            spec_chunk_at(self.nchunks.s@, x, 0)
        } else {
            spec_chunk_at(self.chunks@, x, z + 1)
        }
    }

    /// The neighbour to the west of the chunk at `(x, z)`.
    pub open spec fn spec_w_chunk(&self, x: int, z: int) -> Option<ChunkData> {
        if x == 0 {
            spec_chunk_at(self.nchunks.w@, MAX_CHUNK_IN_REGION as int, z)
        } else {
            spec_chunk_at(self.chunks@, x - 1, z)
        }
    }

    /// The chunk at `c` with its four neighbours; nothing where the region
    /// holds no chunk at `c`.
    pub fn get_chunk(&self, c: &Pair<usize>) -> (r: Option<Chunk>)
        ensures
            r is Some <==> spec_chunk_at(self.chunks@, c.x as int, c.z as int) is Some,
            r matches Some(chunk) ==> {
                &&& Some(*chunk.data) == spec_chunk_at(self.chunks@, c.x as int, c.z as int)
                &&& spec_deref(chunk.ndata.n) == self.spec_n_chunk(c.x as int, c.z as int)
                &&& spec_deref(chunk.ndata.e) == self.spec_e_chunk(c.x as int, c.z as int)
                &&& spec_deref(chunk.ndata.s) == self.spec_s_chunk(c.x as int, c.z as int)
                &&& spec_deref(chunk.ndata.w) == self.spec_w_chunk(c.x as int, c.z as int)
            },
    {
        match lookup_chunk(&self.chunks, c.x, c.z) {
            None => None,
            Some(data) => Some(
                Chunk {
                    data,
                    ndata: Edges {
                        n: if c.z == 0 {
                            lookup_chunk(&self.nchunks.n, c.x, MAX_CHUNK_IN_REGION)
                        } else {
                            lookup_chunk(&self.chunks, c.x, c.z - 1)
                        },
                        e: if c.x == MAX_CHUNK_IN_REGION {
                            lookup_chunk(&self.nchunks.e, 0, c.z)
                        } else {
                            lookup_chunk(&self.chunks, c.x + 1, c.z)
                        },
                        s: if c.z == MAX_CHUNK_IN_REGION {
                            lookup_chunk(&self.nchunks.s, c.x, 0)
                        } else {
                            lookup_chunk(&self.chunks, c.x, c.z + 1)
                        },
                        w: if c.x == 0 {
                            lookup_chunk(&self.nchunks.w, MAX_CHUNK_IN_REGION, c.z)
                        } else {
                            lookup_chunk(&self.chunks, c.x - 1, c.z)
                        },
                    },
                },
            ),
        }
    }
}

/// A block on the western edge of the westernmost chunks of a region has as
/// its western neighbour the block of the same height and row on the eastern
/// edge of the chunk across the border, in the easternmost column of the
/// region to the west; where that region holds no such chunk, the neighbour
/// is air without light. The same holds of the other three sides.
pub proof fn lemma_neighbor_across_border(
    region: RegionData,
    chunk: Chunk,
    cx: int,
    cz: int,
    bx: int,
    by: int,
    bz: int,
)
    requires
        0 <= cx < 32,
        0 <= cz < 32,
        0 <= bx < 16,
        0 <= by < 256,
        0 <= bz < 16,
        spec_deref(chunk.ndata.n) == region.spec_n_chunk(cx, cz),
        spec_deref(chunk.ndata.e) == region.spec_e_chunk(cx, cz),
        spec_deref(chunk.ndata.s) == region.spec_s_chunk(cx, cz),
        spec_deref(chunk.ndata.w) == region.spec_w_chunk(cx, cz),
    ensures
        cx == 0 && bx == 0 ==> spec_w_block(
            chunk,
            bx as usize,
            spec_block_index(bx, by, bz) as usize,
        ) == (match spec_chunk_at(region.nchunks.w@, 31, cz) {
            Some(d) => spec_block_at(d, spec_block_index(15, by, bz)),
            None => spec_block(0, 0),
        }),
        cx == 31 && bx == 15 ==> spec_e_block(
            chunk,
            bx as usize,
            spec_block_index(bx, by, bz) as usize,
        ) == (match spec_chunk_at(region.nchunks.e@, 0, cz) {
            Some(d) => spec_block_at(d, spec_block_index(0, by, bz)),
            None => spec_block(0, 0),
        }),
        cz == 0 && bz == 0 ==> spec_n_block(
            chunk,
            bz as usize,
            spec_block_index(bx, by, bz) as usize,
        ) == (match spec_chunk_at(region.nchunks.n@, cx, 31) {
            Some(d) => spec_block_at(d, spec_block_index(bx, by, 15)),
            None => spec_block(0, 0),
        }),
        cz == 31 && bz == 15 ==> spec_s_block(
            chunk,
            bz as usize,
            spec_block_index(bx, by, bz) as usize,
        ) == (match spec_chunk_at(region.nchunks.s@, cx, 0) {
            Some(d) => spec_block_at(d, spec_block_index(bx, by, 0)),
            None => spec_block(0, 0),
        }),
{
}

/// Inside a region, the western neighbour of a block on the western edge of
/// a chunk is the block of the same height and row on the eastern edge of
/// the chunk to the west; inside a chunk it is the block one step to the
/// west. The same holds of the other three sides.
pub proof fn lemma_neighbor_inside(
    region: RegionData,
    chunk: Chunk,
    cx: int,
    cz: int,
    bx: int,
    by: int,
    bz: int,
)
    requires
        0 <= cx < 32,
        0 <= cz < 32,
        0 <= bx < 16,
        0 <= by < 256,
        0 <= bz < 16,
        spec_deref(chunk.ndata.n) == region.spec_n_chunk(cx, cz),
        spec_deref(chunk.ndata.e) == region.spec_e_chunk(cx, cz),
        spec_deref(chunk.ndata.s) == region.spec_s_chunk(cx, cz),
        spec_deref(chunk.ndata.w) == region.spec_w_chunk(cx, cz),
    ensures
        bx > 0 ==> spec_w_block(chunk, bx as usize, spec_block_index(bx, by, bz) as usize)
            == spec_block_at(*chunk.data, spec_block_index(bx - 1, by, bz)),
        bx < 15 ==> spec_e_block(chunk, bx as usize, spec_block_index(bx, by, bz) as usize)
            == spec_block_at(*chunk.data, spec_block_index(bx + 1, by, bz)),
        bz > 0 ==> spec_n_block(chunk, bz as usize, spec_block_index(bx, by, bz) as usize)
            == spec_block_at(*chunk.data, spec_block_index(bx, by, bz - 1)),
        bz < 15 ==> spec_s_block(chunk, bz as usize, spec_block_index(bx, by, bz) as usize)
            == spec_block_at(*chunk.data, spec_block_index(bx, by, bz + 1)),
        cx > 0 && bx == 0 ==> spec_w_block(
            chunk,
            bx as usize,
            spec_block_index(bx, by, bz) as usize,
        ) == (match spec_chunk_at(region.chunks@, cx - 1, cz) {
            Some(d) => spec_block_at(d, spec_block_index(15, by, bz)),
            None => spec_block(0, 0),
        }),
        cx < 31 && bx == 15 ==> spec_e_block(
            chunk,
            bx as usize,
            spec_block_index(bx, by, bz) as usize,
        ) == (match spec_chunk_at(region.chunks@, cx + 1, cz) {
            Some(d) => spec_block_at(d, spec_block_index(0, by, bz)),
            None => spec_block(0, 0),
        }),
        cz > 0 && bz == 0 ==> spec_n_block(
            chunk,
            bz as usize,
            spec_block_index(bx, by, bz) as usize,
        ) == (match spec_chunk_at(region.chunks@, cx, cz - 1) {
            Some(d) => spec_block_at(d, spec_block_index(bx, by, 15)),
            None => spec_block(0, 0),
        }),
        cz < 31 && bz == 15 ==> spec_s_block(
            chunk,
            bz as usize,
            spec_block_index(bx, by, bz) as usize,
        ) == (match spec_chunk_at(region.chunks@, cx, cz + 1) {
            Some(d) => spec_block_at(d, spec_block_index(bx, by, 0)),
            None => spec_block(0, 0),
        }),
{
}

/// What zlib decompression makes of `data`; nothing where `data` is no zlib
/// stream.
pub uninterp spec fn spec_zlib_inflate(data: Seq<u8>) -> Option<Seq<u8>>;

/// The view of an optional vector of bytes.
pub open spec fn spec_bytes_view(bytes: Option<Vec<u8>>) -> Option<Seq<u8>> {
    match bytes {
        Some(v) => Some(v@),
        None => None,
    }
}

/// `flate2::read::ZlibDecoder`, read to its end: the decompressed bytes, or
/// nothing where the decoder reports an error.
#[verifier::external_body]
fn zlib_inflate(data: &[u8]) -> (r: Option<Vec<u8>>)
    ensures
        spec_bytes_view(r) == spec_zlib_inflate(data@),
{
    let mut out: Vec<u8> = Vec::new();
    match ZlibDecoder::new(data).read_to_end(&mut out) {
        Ok(_) => Some(out),
        Err(_) => None,
    }
}

/// A result in which malformed data counts as no data: only data that ends
/// too early stays an error.
pub open spec fn spec_contain<T>(r: Result<Option<T>, NbtError>) -> Result<Option<T>, NbtError> {
    match r {
        Err(e) => if e.spec_is_format_error() {
            Ok(None)
        } else {
            Err(e)
        },
        Ok(v) => Ok(v),
    }
}

/// Where the compressed bytes of the chunk at `(cx, cz)` lie in a region
/// file, as a start and a length; nothing where the file holds no such chunk.
/// The file starts with a table of one big-endian 32-bit entry for each cell
/// of the grid, whose upper three bytes count the sectors in front of the
/// chunk, 0 standing for no chunk. A chunk starts with a 32-bit length and a
/// byte that names the compression, 2 for zlib; the length counts that byte
/// and the compressed bytes.
pub open spec fn spec_chunk_frame(file: Seq<u8>, cx: int, cz: int) -> Result<
    Option<(int, int)>,
    NbtError,
> {
    match spec_read_u32(file, (cz * CHUNKS_IN_REGION + cx) * 4) {
        Err(e) => Err(e),
        Ok((entry, _)) => if entry >> 8 == 0 {
            Ok(None)
        } else {
            match spec_read_u32(file, (entry >> 8) as int * SECTOR_SIZE) {
                Err(e) => Err(e),
                Ok((size, at_kind)) => if size == 0 {
                    Err(NbtError::BadLength)
                } else {
                    match spec_read_u8(file, at_kind) {
                        Err(e) => Err(e),
                        Ok((kind, start)) => if kind != 2 {
                            Err(NbtError::BadCompression)
                        } else if start + size - 1 > file.len() {
                            Err(NbtError::UnexpectedEof)
                        } else {
                            Ok(Some((start, size - 1)))
                        },
                    }
                },
            }
        },
    }
}

/// The decompressed bytes of the chunk at `(cx, cz)` of a region file and
/// the position behind the header of their root tag.
pub open spec fn spec_chunk_bytes(file: Seq<u8>, cx: int, cz: int) -> Result<
    Option<(Seq<u8>, int)>,
    NbtError,
> {
    match spec_chunk_frame(file, cx, cz) {
        Err(e) => Err(e),
        Ok(None) => Ok(None),
        Ok(Some((start, len))) => match spec_zlib_inflate(file.subrange(start, start + len)) {
            None => Err(NbtError::BadCompression),
            Some(bytes) => match spec_tag_header(bytes, 0) {
                Err(e) => Err(e),
                Ok((_, next)) => Ok(Some((bytes, next))),
            },
        },
    }
}

/// Finds the compressed bytes of the chunk at `(cx, cz)` in a region file.
fn chunk_frame(file: &[u8], cx: usize, cz: usize) -> (r: Result<Option<(usize, usize)>, NbtError>)
    requires
        cx < CHUNKS_IN_REGION,
        cz < CHUNKS_IN_REGION,
    ensures
        r matches Ok(Some(f)) ==> f.0 + f.1 <= file@.len(),
        match spec_chunk_frame(file@, cx as int, cz as int) {
            Ok(Some((start, len))) => r matches Ok(Some(f)) && f.0 == start && f.1 == len,
            Ok(None) => r matches Ok(None),
            Err(e) => r matches Err(err) && err == e,
        },
{
    let co: usize = (cz * CHUNKS_IN_REGION + cx) * 4;
    let entry: u32 = read_u32_at(file, co)?;
    let sectors: u32 = entry >> 8;
    assert(entry >> 8 <= 0xff_ffff) by (bit_vector);
    if sectors == 0 {
        return Ok(None);
    }
    let offset: u64 = (sectors as u64) * (SECTOR_SIZE as u64);
    if offset > file.len() as u64 {
        return Err(NbtError::UnexpectedEof);
    }
    let size: u32 = read_u32_at(file, offset as usize)?;
    if size == 0 {
        return Err(NbtError::BadLength);
    }
    let at_kind: usize = offset as usize + 4;
    if at_kind >= file.len() {
        return Err(NbtError::UnexpectedEof);
    }
    let kind: u8 = file[at_kind];
    if kind != 2 {
        return Err(NbtError::BadCompression);
    }
    let start: usize = at_kind + 1;
    if (size - 1) as u64 > (file.len() - start) as u64 {
        return Err(NbtError::UnexpectedEof);
    }
    Ok(Some((start, (size - 1) as usize)))
}

/// Opens the chunk at `(cx, cz)` of a region file: decompresses it and reads
/// the header of its root tag. Nothing where the file holds no such chunk or
/// the chunk is malformed.
pub fn get_region_chunk_reader(file: &[u8], cx: usize, cz: usize) -> (r: Result<
    Option<Reader>,
    NbtError,
>)
    requires
        cx < CHUNKS_IN_REGION,
        cz < CHUNKS_IN_REGION,
    ensures
        match spec_contain(spec_chunk_bytes(file@, cx as int, cz as int)) {
            Ok(Some((bytes, pos))) => r matches Ok(Some(reader)) && reader.bytes() == bytes
                && reader.position() == pos,
            Ok(None) => r matches Ok(None),
            Err(e) => r matches Err(err) && err == e,
        },
{
    match open_chunk(file, cx, cz) {
        Ok(v) => Ok(v),
        Err(e) => if e.is_format_error() {
            Ok(None)
        } else {
            Err(e)
        },
    }
}

fn open_chunk(file: &[u8], cx: usize, cz: usize) -> (r: Result<Option<Reader>, NbtError>)
    requires
        cx < CHUNKS_IN_REGION,
        cz < CHUNKS_IN_REGION,
    ensures
        match spec_chunk_bytes(file@, cx as int, cz as int) {
            Ok(Some((bytes, pos))) => r matches Ok(Some(reader)) && reader.bytes() == bytes
                && reader.position() == pos,
            Ok(None) => r matches Ok(None),
            Err(e) => r matches Err(err) && err == e,
        },
{
    let framed: Option<(usize, usize)> = match chunk_frame(file, cx, cz) {
        Ok(v) => v,
        Err(e) => {
            return Err(e);
        },
    };
    match framed {
        None => Ok(None),
        Some(frame) => {
            proof {
                vstd::slice::axiom_spec_len(file);
            }
            let compressed: &[u8] = slice_subrange(file, frame.0, frame.0 + frame.1);
            match zlib_inflate(compressed) {
                None => Err(NbtError::BadCompression),
                Some(bytes) => {
                    let mut reader: Reader = Reader::new(bytes);
                    read_tag_header(&mut reader)?;
                    Ok(Some(reader))
                },
            }
        },
    }
}

/// The names of the children of a chunk's level that the decoder reads.
pub open spec fn spec_level_names() -> Seq<Seq<char>> {
    seq!["Sections"@, "Biomes"@]
}

/// The chunk after `count` sections in a row from `pos` on have been read
/// into it, and the position behind them.
pub open spec fn spec_sections(
    bytes: Seq<u8>,
    pos: int,
    count: int,
    blocktypes: Seq<BlockType>,
    chunk: ChunkModel,
) -> Result<(ChunkModel, int), NbtError>
    decreases count,
{
    if count <= 0 {
        Ok((chunk, pos))
    } else {
        match spec_compound_items(bytes, pos, Some(spec_section_names())) {
            Err(e) => Err(e),
            Ok((entries, next)) => match spec_apply_section(chunk, entries, blocktypes) {
                Err(e) => Err(e),
                Ok(after) => spec_sections(bytes, next, count - 1, blocktypes, after),
            },
        }
    }
}

/// The chunk after one child of its level has been read into it, and the
/// position behind that child: a list `Sections` of id `id` whose payload
/// starts at `start`, or else a tag `Biomes`. Nothing where a list of
/// sections is empty.
#[verifier::opaque]
pub open spec fn spec_level_child(
    bytes: Seq<u8>,
    start: int,
    id: u8,
    name: Seq<char>,
    blocktypes: Seq<BlockType>,
    chunk: ChunkModel,
) -> Result<Option<(ChunkModel, int)>, NbtError> {
    if name == "Sections"@ {
        if id != 9 {
            Err(NbtError::WrongTag)
        } else {
            match spec_list_length(bytes, start) {
                Err(e) => Err(e),
                Ok((count, first)) => if count == 0 {
                    Ok(None)
                } else {
                    match spec_sections(bytes, first, count, blocktypes, chunk) {
                        Err(e) => Err(e),
                        Ok((after, next)) => Ok(Some((after, next))),
                    }
                },
            }
        }
    } else {
        match spec_tag_payload(bytes, start, id) {
            Err(e) => Err(e),
            Ok((tag, next)) => Ok(Some((spec_apply_biomes(chunk, tag), next))),
        }
    }
}

/// The chunk after the children of its level, from `pos` on, have been read
/// into it: each list `Sections` and each tag `Biomes`, in the order of the
/// bytes. `seen` tells whether a list of sections has been read before `pos`.
/// No chunk where a list of sections is empty, nor where the level ends and
/// no list of sections has been read.
pub open spec fn spec_level(
    bytes: Seq<u8>,
    pos: int,
    blocktypes: Seq<BlockType>,
    chunk: ChunkModel,
    seen: bool,
) -> Result<Option<ChunkModel>, NbtError>
    decreases bytes.len() - pos,
{
    match spec_seek(bytes, pos, spec_level_names()) {
        Err(e) => Err(e),
        Ok((None, _)) => if seen {
            Ok(Some(chunk))
        } else {
            Ok(None)
        },
        Ok((Some((id, name)), start)) => match spec_level_child(
            bytes,
            start,
            id,
            name,
            blocktypes,
            chunk,
        ) {
            Err(e) => Err(e),
            Ok(None) => Ok(None),
            Ok(Some((after, next))) => if pos < next <= bytes.len() {
                spec_level(bytes, next, blocktypes, after, seen || name == "Sections"@)
            } else {
                Err(NbtError::UnexpectedEof)
            },
        },
    }
}

/// The chunk that the children of a root tag, from `pos` on, hold: that of
/// the compound `Level`, read into a chunk of air without light. No chunk
/// where there is no `Level`, where the level holds no list of sections, or
/// where a list of sections is empty.
pub open spec fn spec_decode_chunk(bytes: Seq<u8>, pos: int, blocktypes: Seq<BlockType>) -> Result<
    Option<ChunkModel>,
    NbtError,
> {
    match spec_seek(bytes, pos, seq!["Level"@]) {
        Err(e) => Err(e),
        Ok((None, _)) => Ok(None),
        Ok((Some((id, _)), start)) => if id != 10 {
            Err(NbtError::WrongTag)
        } else {
            spec_level(bytes, start, blocktypes, spec_empty_chunk(), false)
        },
    }
}

/// Whether the children of a root tag, from `pos` on, hold a chunk with
/// sections: a compound `Level` with a list `Sections` that is not empty.
pub open spec fn spec_scan_chunk(bytes: Seq<u8>, pos: int) -> Result<Option<()>, NbtError> {
    match spec_seek(bytes, pos, seq!["Level"@]) {
        Err(e) => Err(e),
        Ok((None, _)) => Ok(None),
        Ok((Some((id, _)), start)) => if id != 10 {
            Err(NbtError::WrongTag)
        } else {
            match spec_seek(bytes, start, seq!["Sections"@]) {
                Err(e) => Err(e),
                Ok((None, _)) => Ok(None),
                Ok((Some((list_id, _)), at_list)) => if list_id != 9 {
                    Err(NbtError::WrongTag)
                } else {
                    match spec_list_length(bytes, at_list) {
                        Err(e) => Err(e),
                        Ok((count, _)) => if count > 0 {
                            Ok(Some(()))
                        } else {
                            Ok(None)
                        },
                    }
                },
            }
        },
    }
}

/// The chunk after the section at `pos` has been read into it, and the
/// position behind that section.
pub open spec fn spec_section(
    bytes: Seq<u8>,
    pos: int,
    blocktypes: Seq<BlockType>,
    chunk: ChunkModel,
) -> Result<(ChunkModel, int), NbtError> {
    match spec_compound_items(bytes, pos, Some(spec_section_names())) {
        Err(e) => Err(e),
        Ok((entries, next)) => match spec_apply_section(chunk, entries, blocktypes) {
            Err(e) => Err(e),
            Ok(after) => Ok((after, next)),
        },
    }
}

/// Reads one section into `chunk`.
fn read_section(reader: &mut Reader, chunk: &mut ChunkData, blocktypes: &[BlockType]) -> (r: Result<
    (),
    NbtError,
>)
    ensures
        final(reader).bytes() == old(reader).bytes(),
        old(reader).position() <= final(reader).position() <= old(reader).bytes().len(),
        match spec_section(old(reader).bytes(), old(reader).position(), blocktypes@, old(chunk)@) {
            Ok((after, next)) => r is Ok && final(chunk)@ == after && final(reader).position()
                == next && old(reader).position() < next <= old(reader).bytes().len(),
            Err(e) => r matches Err(err) && err == e,
        },
{
    // Shows that the cursor lies inside the bytes.
    let _ = reader.remaining();
    let mut wanted: Vec<&str> = Vec::new();
    wanted.push("Y");
    wanted.push("Palette");
    wanted.push("BlockStates");
    wanted.push("BlockLight");
    wanted.push("SkyLight");
    assert(crate::nbt::str_views(wanted@) =~= spec_section_names());
    let section: Vec<(String, Tag)> = match read_compound_tag_names(reader, wanted) {
        Ok(v) => v,
        Err(e) => {
            return Err(e);
        },
    };
    apply_section(chunk, &section, blocktypes)
}

/// Reading sections in a row is reading the first and then the rest.
proof fn lemma_sections_unfold(
    bytes: Seq<u8>,
    pos: int,
    count: int,
    blocktypes: Seq<BlockType>,
    chunk: ChunkModel,
)
    requires
        count > 0,
    ensures
        spec_sections(bytes, pos, count, blocktypes, chunk) == match spec_section(
            bytes,
            pos,
            blocktypes,
            chunk,
        ) {
            Err(e) => Err(e),
            Ok((after, next)) => spec_sections(bytes, next, count - 1, blocktypes, after),
        },
{
}

/// Reads `count` sections in a row into `chunk`.
#[verifier::loop_isolation(false)]
fn read_sections(
    reader: &mut Reader,
    count: usize,
    chunk: &mut ChunkData,
    blocktypes: &[BlockType],
) -> (r: Result<(), NbtError>)
    ensures
        final(reader).bytes() == old(reader).bytes(),
        old(reader).position() <= final(reader).position() <= old(reader).bytes().len(),
        match spec_sections(
            old(reader).bytes(),
            old(reader).position(),
            count as int,
            blocktypes@,
            old(chunk)@,
        ) {
            Ok((after, next)) => r is Ok && final(chunk)@ == after && final(reader).position()
                == next && old(reader).position() <= next <= old(reader).bytes().len(),
            Err(e) => r matches Err(err) && err == e,
        },
{
    let ghost bytes = reader.bytes();
    let ghost first = reader.position();
    let ghost before = chunk@;
    let ghost whole = spec_sections(bytes, first, count as int, blocktypes@, before);
    // Shows that the cursor lies inside the bytes.
    let _ = reader.remaining();
    let mut i: usize = 0;
    while i < count
        invariant
            reader.bytes() == bytes,
            i <= count,
            first <= reader.position() <= bytes.len(),
            whole == spec_sections(bytes, reader.position(), count - i, blocktypes@, chunk@),
        decreases count - i,
    {
        proof {
            lemma_sections_unfold(bytes, reader.position(), count - i, blocktypes@, chunk@);
        }
        match read_section(reader, chunk, blocktypes) {
            Ok(()) => {},
            Err(e) => {
                return Err(e);
            },
        }
        i = i + 1;
    }
    Ok(())
}

/// Reads one child of a chunk's level into `chunk`, the header of which has
/// just been read: a list `Sections`, or else a tag `Biomes`. Tells whether
/// the child was a list of sections; nothing where such a list was empty.
fn read_level_child(
    reader: &mut Reader,
    header: &(u8, String),
    chunk: &mut ChunkData,
    blocktypes: &[BlockType],
) -> (r: Result<Option<bool>, NbtError>)
    ensures
        final(reader).bytes() == old(reader).bytes(),
        old(reader).position() <= final(reader).position() <= old(reader).bytes().len(),
        match spec_level_child(
            old(reader).bytes(),
            old(reader).position(),
            header.0,
            header.1@,
            blocktypes@,
            old(chunk)@,
        ) {
            Ok(Some((after, next))) => r matches Ok(Some(listed)) && listed == (header.1@
                == "Sections"@) && final(chunk)@ == after && final(reader).position() == next,
            Ok(None) => r matches Ok(None),
            Err(e) => r matches Err(err) && err == e,
        },
{
    reveal(spec_level_child);
    // Shows that the cursor lies inside the bytes.
    let _ = reader.remaining();
    let sections_name: String = "Sections".to_owned();
    if header.1 == sections_name {
        if header.0 != 9 {
            return Err(NbtError::WrongTag);
        }
        let slen: usize = read_list_length(reader)?;
        if slen == 0 {
            return Ok(None);
        }
        read_sections(reader, slen, chunk, blocktypes)?;
        Ok(Some(true))
    } else {
        let tag: Tag = read_tag_payload(reader, &header.0)?;
        apply_biomes(chunk, &tag);
        Ok(Some(false))
    }
}

/// What the next child of a chunk's level, from `pos` on, that the decoder
/// reads makes of the chunk: the chunk after it, the position behind it, and
/// whether it was a list of sections. The outer `None` where the level
/// ends, the inner where a list of sections is empty.
pub open spec fn spec_level_step(
    bytes: Seq<u8>,
    pos: int,
    blocktypes: Seq<BlockType>,
    chunk: ChunkModel,
) -> Result<Option<Option<(ChunkModel, int, bool)>>, NbtError> {
    match spec_seek(bytes, pos, spec_level_names()) {
        Err(e) => Err(e),
        Ok((None, _)) => Ok(None),
        Ok((Some((id, name)), start)) => match spec_level_child(
            bytes,
            start,
            id,
            name,
            blocktypes,
            chunk,
        ) {
            Err(e) => Err(e),
            Ok(None) => Ok(Some(None)),
            Ok(Some((after, next))) => Ok(Some(Some((after, next, name == "Sections"@)))),
        },
    }
}

/// Where the children of a level, from `pos` on, end: the position behind
/// the header that ends the level.
pub open spec fn spec_level_end(
    bytes: Seq<u8>,
    pos: int,
    blocktypes: Seq<BlockType>,
    chunk: ChunkModel,
) -> int
    decreases bytes.len() - pos,
{
    match spec_level_step(bytes, pos, blocktypes, chunk) {
        Ok(Some(Some((after, next, _)))) => if pos < next <= bytes.len() {
            spec_level_end(bytes, next, blocktypes, after)
        } else {
            pos
        },
        _ => match spec_seek(bytes, pos, spec_level_names()) {
            Ok((_, end)) => end,
            Err(_) => pos,
        },
    }
}

/// Where the level of a chunk whose root tag's children start at `pos`
/// ends.
pub open spec fn spec_chunk_end(bytes: Seq<u8>, pos: int, blocktypes: Seq<BlockType>) -> int {
    match spec_seek(bytes, pos, seq!["Level"@]) {
        Ok((Some(_), start)) => spec_level_end(bytes, start, blocktypes, spec_empty_chunk()),
        _ => pos,
    }
}

/// Where the head of the list of sections of a chunk whose root tag's
/// children start at `pos` ends.
pub open spec fn spec_scan_end(bytes: Seq<u8>, pos: int) -> int {
    match spec_seek(bytes, pos, seq!["Level"@]) {
        Ok((Some(_), start)) => match spec_seek(bytes, start, seq!["Sections"@]) {
            Ok((Some(_), at)) => match spec_list_length(bytes, at) {
                Ok((_, next)) => next,
                Err(_) => pos,
            },
            _ => pos,
        },
        _ => pos,
    }
}

/// Reading a level is reading its next child and then the rest.
proof fn lemma_level_unfold(
    bytes: Seq<u8>,
    pos: int,
    blocktypes: Seq<BlockType>,
    chunk: ChunkModel,
    seen: bool,
)
    ensures
        spec_level(bytes, pos, blocktypes, chunk, seen) == match spec_level_step(
            bytes,
            pos,
            blocktypes,
            chunk,
        ) {
            Err(e) => Err(e),
            Ok(None) => if seen {
                Ok(Some(chunk))
            } else {
                Ok(None)
            },
            Ok(Some(None)) => Ok(None),
            Ok(Some(Some((after, next, listed)))) => if pos < next <= bytes.len() {
                spec_level(bytes, next, blocktypes, after, seen || listed)
            } else {
                Err(NbtError::UnexpectedEof)
            },
        },
{
}

/// Seeks the next child of a chunk's level that the decoder reads, and
/// reads it into `chunk`.
fn read_level_step(reader: &mut Reader, chunk: &mut ChunkData, blocktypes: &[BlockType]) -> (r:
    Result<Option<Option<bool>>, NbtError>)
    ensures
        final(reader).bytes() == old(reader).bytes(),
        old(reader).position() <= final(reader).position() <= old(reader).bytes().len(),
        match spec_level_step(
            old(reader).bytes(),
            old(reader).position(),
            blocktypes@,
            old(chunk)@,
        ) {
            Err(e) => r matches Err(err) && err == e,
            Ok(None) => r matches Ok(None) && final(chunk)@ == old(chunk)@ && final(reader).position()
                == spec_level_end(
                old(reader).bytes(),
                old(reader).position(),
                blocktypes@,
                old(chunk)@,
            ),
            Ok(Some(None)) => r matches Ok(Some(None)),
            Ok(Some(Some((after, next, listed)))) => r matches Ok(Some(Some(found))) && found
                == listed && final(chunk)@ == after && final(reader).position() == next && old(
                reader,
            ).position() < next,
        },
{
    // Shows that the cursor lies inside the bytes.
    let _ = reader.remaining();
    let mut names: Vec<&str> = Vec::new();
    names.push("Sections");
    names.push("Biomes");
    assert(crate::nbt::str_views(names@) =~= spec_level_names());
    match seek_compound_tag_names(reader, names)? {
        None => Ok(None),
        Some(header) => match read_level_child(reader, &header, chunk, blocktypes) {
            Err(e) => Err(e),
            Ok(found) => Ok(Some(found)),
        },
    }
}

/// Reads the children of a chunk's level, the first of which starts at the
/// cursor, into a chunk of air without light.
fn decode_level(reader: &mut Reader, blocktypes: &[BlockType]) -> (r: Result<
    Option<ChunkData>,
    NbtError,
>)
    ensures
        final(reader).bytes() == old(reader).bytes(),
        old(reader).position() <= final(reader).position() <= old(reader).bytes().len(),
        match spec_level(
            old(reader).bytes(),
            old(reader).position(),
            blocktypes@,
            spec_empty_chunk(),
            false,
        ) {
            Ok(Some(model)) => r matches Ok(Some(chunk)) && chunk@ == model
                && final(reader).position() == spec_level_end(
                old(reader).bytes(),
                old(reader).position(),
                blocktypes@,
                spec_empty_chunk(),
            ),
            Ok(None) => r matches Ok(None),
            Err(e) => r matches Err(err) && err == e,
        },
{
    let ghost bytes = reader.bytes();
    let ghost start = reader.position();
    let ghost whole = spec_level(bytes, start, blocktypes@, spec_empty_chunk(), false);
    // Shows that the cursor lies inside the bytes.
    let _ = reader.remaining();
    let mut chunk: ChunkData = ChunkData::new();
    let mut seen: bool = false;
    loop
        invariant
            reader.bytes() == bytes,
            bytes == old(reader).bytes(),
            start == old(reader).position(),
            whole == spec_level(bytes, start, blocktypes@, spec_empty_chunk(), false),
            start <= reader.position() <= bytes.len(),
            whole == spec_level(bytes, reader.position(), blocktypes@, chunk@, seen),
            spec_level_end(bytes, start, blocktypes@, spec_empty_chunk()) == spec_level_end(
                bytes,
                reader.position(),
                blocktypes@,
                chunk@,
            ),
        decreases bytes.len() - reader.position(),
    {
        proof {
            lemma_level_unfold(bytes, reader.position(), blocktypes@, chunk@, seen);
        }
        match read_level_step(reader, &mut chunk, blocktypes) {
            Err(e) => {
                return Err(e);
            },
            Ok(None) => {
                if seen {
                    return Ok(Some(chunk));
                }
                return Ok(None);
            },
            Ok(Some(None)) => {
                return Ok(None);
            },
            Ok(Some(Some(listed))) => {
                seen = seen || listed;
            },
        }
    }
}

/// Seeks the level of the chunk whose root tag's children start at the
/// cursor, and reads it.
fn decode_chunk(reader: &mut Reader, blocktypes: &[BlockType]) -> (r: Result<
    Option<ChunkData>,
    NbtError,
>)
    ensures
        final(reader).bytes() == old(reader).bytes(),
        old(reader).position() <= final(reader).position() <= old(reader).bytes().len(),
        match spec_decode_chunk(old(reader).bytes(), old(reader).position(), blocktypes@) {
            Ok(Some(model)) => r matches Ok(Some(chunk)) && chunk@ == model
                && final(reader).position() == spec_chunk_end(
                old(reader).bytes(),
                old(reader).position(),
                blocktypes@,
            ),
            Ok(None) => r matches Ok(None),
            Err(e) => r matches Err(err) && err == e,
        },
{
    // Shows that the cursor lies inside the bytes.
    let _ = reader.remaining();
    match seek_compound_tag_name(reader, "Level")? {
        None => Ok(None),
        Some(header) => {
            if header.0 != 10 {
                return Err(NbtError::WrongTag);
            }
            decode_level(reader, blocktypes)
        },
    }
}

/// Decodes the chunk whose root tag's children start at the cursor: the
/// sections and the biomes of its compound `Level`, the rest being passed
/// over. Nothing where there is no `Level`, where the level holds no list of
/// sections, where a list of sections is empty, or where the chunk is
/// malformed. The cursor never moves back, and behind a chunk that is given
/// it stands where the chunk's level ends.
pub fn read_region_chunk(reader: &mut Reader, blocktypes: &[BlockType]) -> (r: Result<
    Option<ChunkData>,
    NbtError,
>)
    ensures
        final(reader).bytes() == old(reader).bytes(),
        old(reader).position() <= final(reader).position() <= old(reader).bytes().len(),
        match spec_contain(
            spec_decode_chunk(old(reader).bytes(), old(reader).position(), blocktypes@),
        ) {
            Ok(Some(model)) => r matches Ok(Some(chunk)) && chunk@ == model
                && final(reader).position() == spec_chunk_end(
                old(reader).bytes(),
                old(reader).position(),
                blocktypes@,
            ),
            Ok(None) => r matches Ok(None),
            Err(e) => r matches Err(err) && err == e,
        },
        r matches Ok(Some(chunk)) ==> spec_blocks_known(chunk.blocks@, blocktypes@.len() as int),
{
    proof {
        crate::agreement::lemma_decoded_blocks_known(
            reader.bytes(),
            reader.position(),
            blocktypes@,
        );
    }
    match decode_chunk(reader, blocktypes) {
        Ok(v) => Ok(v),
        Err(e) => if e.is_format_error() {
            Ok(None)
        } else {
            Err(e)
        },
    }
}

/// Seeks the list of sections of the chunk whose root tag's children start
/// at the cursor, and reads its length.
fn scan_chunk(reader: &mut Reader) -> (r: Result<Option<()>, NbtError>)
    ensures
        final(reader).bytes() == old(reader).bytes(),
        old(reader).position() <= final(reader).position() <= old(reader).bytes().len(),
        r == spec_scan_chunk(old(reader).bytes(), old(reader).position()),
        r matches Ok(Some(_)) ==> final(reader).position() == spec_scan_end(
            old(reader).bytes(),
            old(reader).position(),
        ),
{
    // Shows that the cursor lies inside the bytes.
    let _ = reader.remaining();
    match seek_compound_tag_name(reader, "Level")? {
        None => {
            return Ok(None);
        },
        Some(header) => {
            if header.0 != 10 {
                return Err(NbtError::WrongTag);
            }
        },
    }
    match seek_compound_tag_name(reader, "Sections")? {
        None => {
            return Ok(None);
        },
        Some(header) => {
            if header.0 != 9 {
                return Err(NbtError::WrongTag);
            }
        },
    }
    if read_list_length(reader)? > 0 {
        Ok(Some(()))
    } else {
        Ok(None)
    }
}

/// Whether the chunk whose root tag's children start at the cursor holds
/// sections. The chunk is not decoded: what lies in front of the list of
/// sections is passed over, and of the list only its length is read. The
/// cursor never moves back, and where the chunk holds sections it stands
/// behind the length of their list.
pub fn read_region_chunk_present(reader: &mut Reader) -> (r: Result<bool, NbtError>)
    ensures
        final(reader).bytes() == old(reader).bytes(),
        old(reader).position() <= final(reader).position() <= old(reader).bytes().len(),
        r == Ok::<bool, NbtError>(true) ==> final(reader).position() == spec_scan_end(
            old(reader).bytes(),
            old(reader).position(),
        ),
        match spec_contain(spec_scan_chunk(old(reader).bytes(), old(reader).position())) {
            Ok(found) => r == Ok::<bool, NbtError>(found is Some),
            Err(e) => r == Err::<bool, NbtError>(e),
        },
{
    match scan_chunk(reader) {
        Ok(v) => Ok(v.is_some()),
        Err(e) => if e.is_format_error() {
            Ok(false)
        } else {
            Err(e)
        },
    }
}

/// Whether the chunk at `(cx, cz)` of a region file holds sections. A chunk
/// that is malformed counts as one without.
#[verifier::opaque]
pub open spec fn spec_chunk_present(file: Seq<u8>, cx: int, cz: int) -> Result<bool, NbtError> {
    match spec_contain(spec_chunk_bytes(file, cx, cz)) {
        Err(e) => Err(e),
        Ok(None) => Ok(false),
        Ok(Some((bytes, pos))) => match spec_contain(spec_scan_chunk(bytes, pos)) {
            Err(e) => Err(e),
            Ok(found) => Ok(found is Some),
        },
    }
}

/// The chunk at `(cx, cz)` of a region file, decoded. A chunk that is
/// malformed counts as none.
#[verifier::opaque]
pub open spec fn spec_chunk_model(file: Seq<u8>, cx: int, cz: int, blocktypes: Seq<BlockType>) -> Result<
    Option<ChunkModel>,
    NbtError,
> {
    match spec_contain(spec_chunk_bytes(file, cx, cz)) {
        Err(e) => Err(e),
        Ok(None) => Ok(None),
        Ok(Some((bytes, pos))) => spec_contain(spec_decode_chunk(bytes, pos, blocktypes)),
    }
}

/// Whether the chunk at `(cx, cz)` of a region file decodes to a chunk.
pub open spec fn spec_cell_has_chunk(file: Seq<u8>, cx: int, cz: int, blocktypes: Seq<BlockType>) -> bool {
    spec_chunk_model(file, cx, cz, blocktypes) matches Ok(Some(_))
}

/// Whether the cell `(x, z)` lies inside `limits`.
pub open spec fn spec_in_limits(limits: Edges<usize>, x: int, z: int) -> bool {
    limits.w <= x <= limits.e && limits.n <= z <= limits.s
}

/// Whether the cell `(x1, z1)` comes before `(x2, z2)` where the cells are
/// gone through row by row, each row from west to east.
pub open spec fn spec_raster_before(x1: int, z1: int, x2: int, z2: int) -> bool {
    z1 < z2 || (z1 == z2 && x1 < x2)
}

/// Whether `e` is the first error that the cells of `limits` give when they
/// are gone through row by row.
pub open spec fn spec_first_error(
    cell_fails: spec_fn(int, int) -> Option<NbtError>,
    limits: Edges<usize>,
    e: NbtError,
) -> bool {
    exists|x: int, z: int|
        spec_in_limits(limits, x, z) && #[trigger] cell_fails(x, z) == Some(e) && forall|
            x2: int,
            z2: int,
        |
            spec_in_limits(limits, x2, z2) && spec_raster_before(x2, z2, x, z)
                ==> #[trigger] cell_fails(x2, z2) is None
}

/// The error of a cell's scan, where there is one.
pub open spec fn spec_scan_fails(file: Seq<u8>) -> spec_fn(int, int) -> Option<NbtError> {
    |x: int, z: int|
        match spec_chunk_present(file, x, z) {
            Err(e) => Some(e),
            Ok(_) => None,
        }
}

/// The error of a cell's decoding, where there is one.
pub open spec fn spec_decode_fails(file: Seq<u8>, blocktypes: Seq<BlockType>) -> spec_fn(
    int,
    int,
) -> Option<NbtError> {
    |x: int, z: int|
        match spec_chunk_model(file, x, z, blocktypes) {
            Err(e) => Some(e),
            Ok(_) => None,
        }
}

/// Whether `chunks` lists the cells of `limits` in front of `(x_end, z_end)`
/// that hold a chunk with sections: those and no others, in the order of the
/// rows and, in a row, from west to east.
pub open spec fn spec_lists_present(
    chunks: Seq<Pair<usize>>,
    file: Seq<u8>,
    limits: Edges<usize>,
    x_end: int,
    z_end: int,
) -> bool {
    &&& forall|i: int|
        0 <= i < chunks.len() ==> {
            &&& spec_in_limits(limits, (#[trigger] chunks[i]).x as int, chunks[i].z as int)
            &&& spec_raster_before(chunks[i].x as int, chunks[i].z as int, x_end, z_end)
            &&& spec_chunk_present(file, chunks[i].x as int, chunks[i].z as int) == Ok::<
                bool,
                NbtError,
            >(true)
        }
    &&& forall|i: int, j: int|
        0 <= i < j < chunks.len() ==> spec_raster_before(
            (#[trigger] chunks[i]).x as int,
            chunks[i].z as int,
            (#[trigger] chunks[j]).x as int,
            chunks[j].z as int,
        )
    &&& forall|x: int, z: int|
        spec_in_limits(limits, x, z) && spec_raster_before(x, z, x_end, z_end)
            && #[trigger] spec_chunk_present(file, x, z) == Ok::<bool, NbtError>(true)
            ==> exists|i: int|
            0 <= i < chunks.len() && (#[trigger] chunks[i]).x == x && chunks[i].z == z
    &&& forall|x: int, z: int|
        spec_in_limits(limits, x, z) && spec_raster_before(x, z, x_end, z_end)
            ==> #[trigger] spec_scan_fails(file)(x, z) is None
}

/// The bounds of a whole region's grid.
pub open spec fn spec_full_limits() -> Edges<usize> {
    Edges { n: 0, e: MAX_CHUNK_IN_REGION, s: MAX_CHUNK_IN_REGION, w: 0 }
}

/// The bounds that a scan goes by: those given, or else those of the whole
/// grid.
pub open spec fn spec_scan_limits(rclimits: Option<Edges<usize>>) -> Edges<usize> {
    match rclimits {
        Some(l) => l,
        None => spec_full_limits(),
    }
}

/// Whether the chunk at `(cx, cz)` of a region file holds sections.
fn chunk_present(file: &[u8], cx: usize, cz: usize) -> (r: Result<bool, NbtError>)
    requires
        cx < CHUNKS_IN_REGION,
        cz < CHUNKS_IN_REGION,
    ensures
        r == spec_chunk_present(file@, cx as int, cz as int),
{
    reveal(spec_chunk_present);
    match get_region_chunk_reader(file, cx, cz)? {
        None => Ok(false),
        Some(reader) => {
            let mut reader = reader;
            read_region_chunk_present(&mut reader)
        },
    }
}

/// Decodes the chunk at `(cx, cz)` of a region file.
fn read_chunk(file: &[u8], cx: usize, cz: usize, blocktypes: &[BlockType]) -> (r: Result<
    Option<ChunkData>,
    NbtError,
>)
    requires
        cx < CHUNKS_IN_REGION,
        cz < CHUNKS_IN_REGION,
    ensures
        match spec_chunk_model(file@, cx as int, cz as int, blocktypes@) {
            Ok(Some(model)) => r matches Ok(Some(chunk)) && chunk@ == model,
            Ok(None) => r matches Ok(None),
            Err(e) => r matches Err(err) && err == e,
        },
{
    reveal(spec_chunk_model);
    match get_region_chunk_reader(file, cx, cz)? {
        None => Ok(None),
        Some(reader) => {
            let mut reader = reader;
            read_region_chunk(&mut reader, blocktypes)
        },
    }
}

/// Scans the cell `(cx, cz)` and adds it to `chunks` where its chunk holds
/// sections.
fn scan_cell(file: &[u8], limits: &Edges<usize>, cx: usize, cz: usize, chunks: &mut Vec<Pair<usize>>) -> (r:
    Result<(), NbtError>)
    requires
        limits.e < CHUNKS_IN_REGION,
        limits.s < CHUNKS_IN_REGION,
        spec_in_limits(*limits, cx as int, cz as int),
        spec_lists_present(old(chunks)@, file@, *limits, cx as int, cz as int),
    ensures
        match r {
            Ok(()) => spec_lists_present(final(chunks)@, file@, *limits, cx + 1, cz as int),
            Err(e) => spec_first_error(spec_scan_fails(file@), *limits, e),
        },
{
    let ghost before = chunks@;
    match chunk_present(file, cx, cz) {
        Err(e) => {
            assert(spec_scan_fails(file@)(cx as int, cz as int) == Some(e));
            return Err(e);
        },
        Ok(present) => {
            assert(spec_scan_fails(file@)(cx as int, cz as int) is None);
            if present {
                chunks.push(Pair { x: cx, z: cz });
            }
        },
    }
    proof {
        assert forall|x: int, z: int|
            spec_in_limits(*limits, x, z) && spec_raster_before(x, z, cx + 1, cz as int)
                && #[trigger] spec_chunk_present(file@, x, z) == Ok::<bool, NbtError>(
                true,
            ) implies exists|i: int|
            0 <= i < chunks@.len() && (#[trigger] chunks@[i]).x == x && chunks@[i].z == z by {
            if spec_raster_before(x, z, cx as int, cz as int) {
                let i = choose|i: int|
                    0 <= i < before.len() && (#[trigger] before[i]).x == x && before[i].z == z;
                assert(chunks@[i].x == x && chunks@[i].z == z);
            } else {
                assert(x == cx && z == cz);
                assert(chunks@[chunks@.len() - 1].x == x && chunks@[chunks@.len() - 1].z == z);
            }
        }
    }
    Ok(())
}

/// What holds of the cells in front of the end of a row holds of those in
/// front of the start of the next.
proof fn lemma_lists_present_next_row(
    chunks: Seq<Pair<usize>>,
    file: Seq<u8>,
    limits: Edges<usize>,
    cz: int,
)
    requires
        spec_lists_present(chunks, file, limits, limits.e + 1, cz),
    ensures
        spec_lists_present(chunks, file, limits, limits.w as int, cz + 1),
{
    assert forall|x: int, z: int|
        spec_in_limits(limits, x, z) && spec_raster_before(x, z, limits.w as int, cz + 1)
            && #[trigger] spec_chunk_present(file, x, z) == Ok::<bool, NbtError>(
            true,
        ) implies exists|i: int|
        0 <= i < chunks.len() && (#[trigger] chunks[i]).x == x && chunks[i].z == z by {
        assert(spec_raster_before(x, z, limits.e + 1, cz));
    }
    assert forall|x: int, z: int|
        spec_in_limits(limits, x, z) && spec_raster_before(
            x,
            z,
            limits.w as int,
            cz + 1,
        ) implies #[trigger] spec_scan_fails(file)(x, z) is None by {
        assert(spec_raster_before(x, z, limits.e + 1, cz));
    }
}

/// Lists the cells of a region file, inside `rclimits` or else in the whole
/// grid, whose chunks hold sections, without decoding the chunks. The cells
/// come row by row, each row from west to east.
pub fn read_region_chunk_coords(file: &[u8], rclimits: &Option<Edges<usize>>) -> (r: Result<
    Vec<Pair<usize>>,
    NbtError,
>)
    requires
        spec_scan_limits(*rclimits).e < CHUNKS_IN_REGION,
        spec_scan_limits(*rclimits).s < CHUNKS_IN_REGION,
    ensures
        match r {
            Ok(chunks) => spec_lists_present(
                chunks@,
                file@,
                spec_scan_limits(*rclimits),
                spec_scan_limits(*rclimits).w as int,
                spec_scan_limits(*rclimits).s + 1,
            ),
            Err(e) => spec_first_error(spec_scan_fails(file@), spec_scan_limits(*rclimits), e),
        },
{
    let climits: Edges<usize> = match rclimits {
        Some(l) => *l,
        None => Edges::<usize>::full(CHUNKS_IN_REGION),
    };
    let mut chunks: Vec<Pair<usize>> = Vec::new();
    if climits.n > climits.s || climits.w > climits.e {
        return Ok(chunks);
    }
    let mut cz: usize = climits.n;
    while cz <= climits.s
        invariant
            climits == spec_scan_limits(*rclimits),
            climits.e < CHUNKS_IN_REGION,
            climits.s < CHUNKS_IN_REGION,
            climits.w <= climits.e,
            climits.n <= cz <= climits.s + 1,
            spec_lists_present(chunks@, file@, climits, climits.w as int, cz as int),
        decreases climits.s + 1 - cz,
    {
        let mut cx: usize = climits.w;
        while cx <= climits.e
            invariant
                climits == spec_scan_limits(*rclimits),
                climits.e < CHUNKS_IN_REGION,
                climits.s < CHUNKS_IN_REGION,
                climits.n <= cz <= climits.s,
                climits.w <= cx <= climits.e + 1,
                spec_lists_present(chunks@, file@, climits, cx as int, cz as int),
            decreases climits.e + 1 - cx,
        {
            match scan_cell(file, &climits, cx, cz, &mut chunks) {
                Ok(()) => {},
                Err(e) => {
                    return Err(e);
                },
            }
            cx = cx + 1;
        }
        proof {
            lemma_lists_present_next_row(chunks@, file@, climits, cz as int);
        }
        cz = cz + 1;
    }
    Ok(chunks)
}

/// Whether `chunks` holds the decoded chunks of the cells of `limits` in
/// front of `(x_end, z_end)`: one for each cell whose chunk holds data, under
/// the cell's key, and no others.
pub open spec fn spec_holds_chunks(
    chunks: Map<usize, ChunkData>,
    file: Seq<u8>,
    limits: Edges<usize>,
    blocktypes: Seq<BlockType>,
    x_end: int,
    z_end: int,
) -> bool {
    &&& forall|k: usize| #[trigger]
        chunks.contains_key(k) ==> {
            &&& k < 1024
            &&& spec_in_limits(limits, k as int % 32, k as int / 32)
            &&& spec_raster_before(k as int % 32, k as int / 32, x_end, z_end)
            &&& spec_chunk_model(file, k as int % 32, k as int / 32, blocktypes) == Ok::<
                Option<ChunkModel>,
                NbtError,
            >(Some(chunks[k]@))
        }
    &&& forall|x: int, z: int|
        spec_in_limits(limits, x, z) && spec_raster_before(x, z, x_end, z_end)
            && #[trigger] spec_cell_has_chunk(file, x, z, blocktypes) ==> chunks.contains_key(
            spec_chunk_key(x, z),
        )
    &&& forall|x: int, z: int|
        spec_in_limits(limits, x, z) && spec_raster_before(x, z, x_end, z_end)
            ==> #[trigger] spec_decode_fails(file, blocktypes)(x, z) is None
}

/// Decodes the chunk of the cell `(cx, cz)` and adds it to `chunks` where
/// it holds data.
fn read_cell(
    file: &[u8],
    limits: &Edges<usize>,
    blocktypes: &[BlockType],
    cx: usize,
    cz: usize,
    chunks: &mut HashMap<usize, ChunkData>,
) -> (r: Result<(), NbtError>)
    requires
        limits.e < CHUNKS_IN_REGION,
        limits.s < CHUNKS_IN_REGION,
        spec_in_limits(*limits, cx as int, cz as int),
        spec_holds_chunks(old(chunks)@, file@, *limits, blocktypes@, cx as int, cz as int),
    ensures
        match r {
            Ok(()) => spec_holds_chunks(
                final(chunks)@,
                file@,
                *limits,
                blocktypes@,
                cx + 1,
                cz as int,
            ),
            Err(e) => spec_first_error(spec_decode_fails(file@, blocktypes@), *limits, e),
        },
{
    let ghost before = chunks@;
    match read_chunk(file, cx, cz, blocktypes) {
        Err(e) => {
            assert(spec_decode_fails(file@, blocktypes@)(cx as int, cz as int) == Some(e));
            return Err(e);
        },
        Ok(found) => {
            assert(spec_decode_fails(file@, blocktypes@)(cx as int, cz as int) is None);
            match found {
                Some(chunk) => {
                    let key: usize = chunk_key(&Pair { x: cx, z: cz });
                    chunks.insert(key, chunk);
                    assert(key as int % 32 == cx && key as int / 32 == cz);
                },
                None => {},
            }
        },
    }
    proof {
        assert forall|k: usize| #[trigger] chunks@.contains_key(k) implies {
            &&& k < 1024
            &&& spec_in_limits(*limits, k as int % 32, k as int / 32)
            &&& spec_raster_before(k as int % 32, k as int / 32, cx + 1, cz as int)
            &&& spec_chunk_model(file@, k as int % 32, k as int / 32, blocktypes@) == Ok::<
                Option<ChunkModel>,
                NbtError,
            >(Some(chunks@[k]@))
        } by {
            if k != spec_chunk_key(cx as int, cz as int) {
                assert(before.contains_key(k));
            }
        }
        assert forall|x: int, z: int|
            spec_in_limits(*limits, x, z) && spec_raster_before(x, z, cx + 1, cz as int)
                && #[trigger] spec_cell_has_chunk(
                file@,
                x,
                z,
                blocktypes@,
            ) implies chunks@.contains_key(spec_chunk_key(x, z)) by {
            if spec_raster_before(x, z, cx as int, cz as int) {
                assert(before.contains_key(spec_chunk_key(x, z)));
            } else {
                assert(x == cx && z == cz);
            }
        }
    }
    Ok(())
}

/// What holds of the cells in front of the end of a row holds of those in
/// front of the start of the next.
proof fn lemma_holds_chunks_next_row(
    chunks: Map<usize, ChunkData>,
    file: Seq<u8>,
    limits: Edges<usize>,
    blocktypes: Seq<BlockType>,
    cz: int,
)
    requires
        spec_holds_chunks(chunks, file, limits, blocktypes, limits.e + 1, cz),
    ensures
        spec_holds_chunks(chunks, file, limits, blocktypes, limits.w as int, cz + 1),
{
    assert forall|x: int, z: int|
        spec_in_limits(limits, x, z) && spec_raster_before(x, z, limits.w as int, cz + 1)
            && #[trigger] spec_cell_has_chunk(file, x, z, blocktypes) implies chunks.contains_key(
        spec_chunk_key(x, z),
    ) by {
        assert(spec_raster_before(x, z, limits.e + 1, cz));
    }
    assert forall|x: int, z: int|
        spec_in_limits(limits, x, z) && spec_raster_before(
            x,
            z,
            limits.w as int,
            cz + 1,
        ) implies #[trigger] spec_decode_fails(file, blocktypes)(x, z) is None by {
        assert(spec_raster_before(x, z, limits.e + 1, cz));
    }
}

/// Decodes the chunks of the cells of a region file inside `rclimits`. A
/// region without a file has no chunks.
pub fn read_region_chunk_data(
    file: Option<&[u8]>,
    rclimits: &Edges<usize>,
    blocktypes: &[BlockType],
) -> (r: Result<HashMap<usize, ChunkData>, NbtError>)
    requires
        rclimits.e < CHUNKS_IN_REGION,
        rclimits.s < CHUNKS_IN_REGION,
    ensures
        match r {
            Ok(chunks) => match file {
                Some(f) => spec_holds_chunks(
                    chunks@,
                    f@,
                    *rclimits,
                    blocktypes@,
                    rclimits.w as int,
                    rclimits.s + 1,
                ),
                None => chunks@.is_empty(),
            },
            Err(e) => file matches Some(f) && spec_first_error(
                spec_decode_fails(f@, blocktypes@),
                *rclimits,
                e,
            ),
        },
{
    let mut chunks: HashMap<usize, ChunkData> = HashMap::new();
    let bytes: &[u8] = match file {
        None => {
            assert(chunks@.is_empty());
            return Ok(chunks);
        },
        Some(f) => f,
    };
    if rclimits.n > rclimits.s || rclimits.w > rclimits.e {
        return Ok(chunks);
    }
    let mut cz: usize = rclimits.n;
    while cz <= rclimits.s
        invariant
            file == Some(bytes),
            rclimits.e < CHUNKS_IN_REGION,
            rclimits.s < CHUNKS_IN_REGION,
            rclimits.w <= rclimits.e,
            rclimits.n <= cz <= rclimits.s + 1,
            spec_holds_chunks(chunks@, bytes@, *rclimits, blocktypes@, rclimits.w as int, cz as int),
        decreases rclimits.s + 1 - cz,
    {
        let mut cx: usize = rclimits.w;
        while cx <= rclimits.e
            invariant
                file == Some(bytes),
                rclimits.e < CHUNKS_IN_REGION,
                rclimits.s < CHUNKS_IN_REGION,
                rclimits.n <= cz <= rclimits.s,
                rclimits.w <= cx <= rclimits.e + 1,
                spec_holds_chunks(chunks@, bytes@, *rclimits, blocktypes@, cx as int, cz as int),
            decreases rclimits.e + 1 - cx,
        {
            match read_cell(bytes, rclimits, blocktypes, cx, cz, &mut chunks) {
                Ok(()) => {},
                Err(e) => {
                    return Err(e);
                },
            }
            cx = cx + 1;
        }
        proof {
            lemma_holds_chunks_next_row(chunks@, bytes@, *rclimits, blocktypes@, cz as int);
        }
        cz = cz + 1;
    }
    Ok(chunks)
}

/// The cells of a region that a world's block bounds reach.
pub open spec fn spec_region_limits(bedges: Edges<isize>, r: Pair<isize>) -> Edges<usize> {
    Edges {
        n: spec_pos_in_cell(spec_divide(bedges.n as int, 16), Some(r.z as int), 32) as usize,
        e: spec_pos_in_cell(spec_divide(bedges.e as int, 16), Some(r.x as int), 32) as usize,
        s: spec_pos_in_cell(spec_divide(bedges.s as int, 16), Some(r.z as int), 32) as usize,
        w: spec_pos_in_cell(spec_divide(bedges.w as int, 16), Some(r.x as int), 32) as usize,
    }
}

/// The cells of a region that a world's block bounds reach.
pub fn region_limits(bedges: &Edges<isize>, r: &Pair<isize>) -> (limits: Edges<usize>)
    ensures
        limits == spec_region_limits(*bedges, *r),
        limits.n < CHUNKS_IN_REGION,
        limits.e < CHUNKS_IN_REGION,
        limits.s < CHUNKS_IN_REGION,
        limits.w < CHUNKS_IN_REGION,
{
    Edges {
        n: chunk_pos_in_region(block_to_chunk(bedges.n), Some(r.z)),
        e: chunk_pos_in_region(block_to_chunk(bedges.e), Some(r.x)),
        s: chunk_pos_in_region(block_to_chunk(bedges.s), Some(r.z)),
        w: chunk_pos_in_region(block_to_chunk(bedges.w), Some(r.x)),
    }
}

/// The cells along the border of the four regions around a region whose own
/// cells are `limits`.
pub open spec fn spec_neighbor_limits(limits: Edges<usize>) -> Edges<Edges<usize>> {
    Edges {
        n: Edges { n: MAX_CHUNK_IN_REGION, e: limits.e, s: MAX_CHUNK_IN_REGION, w: limits.w },
        e: Edges { n: limits.n, e: 0, s: limits.s, w: 0 },
        s: Edges { n: 0, e: limits.e, s: 0, w: limits.w },
        w: Edges { n: limits.n, e: MAX_CHUNK_IN_REGION, s: limits.s, w: MAX_CHUNK_IN_REGION },
    }
}

/// Whether `chunks` is what the border of a neighbouring region gives: its
/// decoded chunks inside `limits`, or none where the region has no file or
/// its file cannot be read to the end.
pub open spec fn spec_neighbor_chunks(
    chunks: Map<usize, ChunkData>,
    file: Option<Vec<u8>>,
    limits: Edges<usize>,
    blocktypes: Seq<BlockType>,
) -> bool {
    match file {
        None => chunks.is_empty(),
        Some(f) => spec_holds_chunks(chunks, f@, limits, blocktypes, limits.w as int, limits.s + 1)
            || (chunks.is_empty() && exists|e: NbtError|
            spec_first_error(spec_decode_fails(f@, blocktypes), limits, e)),
    }
}

/// Decodes the border chunks of a neighbouring region.
fn read_neighbor_chunks(file: &Option<Vec<u8>>, limits: &Edges<usize>, blocktypes: &[BlockType]) -> (r:
    HashMap<usize, ChunkData>)
    requires
        limits.e < CHUNKS_IN_REGION,
        limits.s < CHUNKS_IN_REGION,
    ensures
        spec_neighbor_chunks(r@, *file, *limits, blocktypes@),
{
    let bytes: Option<&[u8]> = match file {
        Some(f) => Some(f.as_slice()),
        None => None,
    };
    match read_region_chunk_data(bytes, limits, blocktypes) {
        Ok(chunks) => chunks,
        Err(e) => {
            let chunks: HashMap<usize, ChunkData> = HashMap::new();
            assert(chunks@.is_empty());
            chunks
        },
    }
}

/// Decodes the chunks of the region `r` that the world's bounds reach, and
/// of the four regions around it the chunks along the shared borders. `file`
/// holds the region's file and `nfiles` those of its neighbours, each where
/// there is one. Nothing where the region has no file or no chunk with data.
/// A neighbour that cannot be read counts as one without data.
pub fn read_region_data(
    world: &World,
    r: &Pair<isize>,
    file: Option<&[u8]>,
    nfiles: &Edges<Option<Vec<u8>>>,
    blocktypes: &[BlockType],
) -> (res: Result<Option<RegionData>, NbtError>)
    ensures
        match res {
            Ok(Some(region)) => file matches Some(f) && !region.chunks@.is_empty()
                && spec_holds_chunks(
                region.chunks@,
                f@,
                spec_region_limits(world.bedges, *r),
                blocktypes@,
                spec_region_limits(world.bedges, *r).w as int,
                spec_region_limits(world.bedges, *r).s + 1,
            ) && spec_neighbor_chunks(
                region.nchunks.n@,
                nfiles.n,
                spec_neighbor_limits(spec_region_limits(world.bedges, *r)).n,
                blocktypes@,
            ) && spec_neighbor_chunks(
                region.nchunks.e@,
                nfiles.e,
                spec_neighbor_limits(spec_region_limits(world.bedges, *r)).e,
                blocktypes@,
            ) && spec_neighbor_chunks(
                region.nchunks.s@,
                nfiles.s,
                spec_neighbor_limits(spec_region_limits(world.bedges, *r)).s,
                blocktypes@,
            ) && spec_neighbor_chunks(
                region.nchunks.w@,
                nfiles.w,
                spec_neighbor_limits(spec_region_limits(world.bedges, *r)).w,
                blocktypes@,
            ),
            Ok(None) => match file {
                None => true,
                Some(f) => forall|x: int, z: int|
                    spec_in_limits(spec_region_limits(world.bedges, *r), x, z)
                        ==> #[trigger] spec_chunk_model(f@, x, z, blocktypes@) == Ok::<
                        Option<ChunkModel>,
                        NbtError,
                    >(None),
            },
            Err(e) => file matches Some(f) && spec_first_error(
                spec_decode_fails(f@, blocktypes@),
                spec_region_limits(world.bedges, *r),
                e,
            ),
        },
{
    if file.is_none() {
        return Ok(None);
    }
    let rclimits: Edges<usize> = region_limits(&world.bedges, r);
    let chunks: HashMap<usize, ChunkData> = read_region_chunk_data(file, &rclimits, blocktypes)?;
    if chunks.is_empty() {
        proof {
            let f = file->Some_0;
            assert forall|x: int, z: int| spec_in_limits(rclimits, x, z) implies #[trigger] spec_chunk_model(
                f@,
                x,
                z,
                blocktypes@,
            ) == Ok::<Option<ChunkModel>, NbtError>(None) by {
                assert(spec_raster_before(x, z, rclimits.w as int, rclimits.s + 1));
                assert(spec_decode_fails(f@, blocktypes@)(x, z) is None);
                if spec_cell_has_chunk(f@, x, z, blocktypes@) {
                    assert(chunks@.contains_key(spec_chunk_key(x, z)));
                    assert(chunks@.dom().contains(spec_chunk_key(x, z)));
                }
            }
        }
        return Ok(None);
    }
    let nrclimits: Edges<Edges<usize>> = Edges {
        n: Edges { n: MAX_CHUNK_IN_REGION, e: rclimits.e, s: MAX_CHUNK_IN_REGION, w: rclimits.w },
        e: Edges { n: rclimits.n, e: 0, s: rclimits.s, w: 0 },
        s: Edges { n: 0, e: rclimits.e, s: 0, w: rclimits.w },
        w: Edges { n: rclimits.n, e: MAX_CHUNK_IN_REGION, s: rclimits.s, w: MAX_CHUNK_IN_REGION },
    };
    Ok(
        Some(
            RegionData {
                chunks,
                nchunks: Edges {
                    n: read_neighbor_chunks(&nfiles.n, &nrclimits.n, blocktypes),
                    e: read_neighbor_chunks(&nfiles.e, &nrclimits.e, blocktypes),
                    s: read_neighbor_chunks(&nfiles.s, &nrclimits.s, blocktypes),
                    w: read_neighbor_chunks(&nfiles.w, &nrclimits.w, blocktypes),
                },
            },
        ),
    )
}

/// The groups of the leftmost match of the regular expression `pattern` in
/// `text`, the whole match first; a group that took no part is `None`.
/// Nothing where `pattern` is no regular expression or matches nowhere.
pub uninterp spec fn spec_regex_captures(pattern: Seq<char>, text: Seq<char>) -> Option<
    Seq<Option<Seq<char>>>,
>;

/// The views of the groups of a match.
pub open spec fn spec_groups_view(groups: Option<Vec<Option<String>>>) -> Option<
    Seq<Option<Seq<char>>>,
> {
    match groups {
        None => None,
        Some(v) => Some(
            Seq::new(
                v.len() as nat,
                |i: int|
                    match v[i] {
                        Some(s) => Some(s@),
                        None => None,
                    },
            ),
        ),
    }
}

/// `Regex::new` and `Regex::captures` of the crate regex: the groups of the
/// leftmost match of `pattern` in `text`.
#[verifier::external_body]
fn regex_captures(pattern: &str, text: &str) -> (r: Option<Vec<Option<String>>>)
    ensures
        spec_groups_view(r) == spec_regex_captures(pattern@, text@),
{
    let re = Regex::new(pattern).ok()?;
    let caps = re.captures(text)?;
    let mut groups: Vec<Option<String>> = Vec::new();
    for i in 0..caps.len() {
        groups.push(match caps.get(i) {
            Some(m) => Some(m.as_str().to_string()),
            None => None,
        });
    }
    Some(groups)
}

/// Whether `bytes` are decimal digits only.
pub open spec fn spec_all_digits(bytes: Seq<u8>) -> bool {
    forall|i: int| 0 <= i < bytes.len() ==> 48 <= #[trigger] bytes[i] <= 57
}

/// The number that the first `count` digits of `bytes` spell.
pub open spec fn spec_digits_value(bytes: Seq<u8>, count: int) -> int
    decreases count,
{
    if count <= 0 {
        0
    } else {
        spec_digits_value(bytes, count - 1) * 10 + (bytes[count - 1] - 48)
    }
}

/// The number that `bytes` spell in decimal digits, with a minus sign in
/// front for a negative number; nothing where they spell none.
pub open spec fn spec_parse_int(bytes: Seq<u8>) -> Option<int> {
    if bytes.len() > 1 && bytes[0] == 45 && spec_all_digits(bytes.subrange(1, bytes.len() as int)) {
        Some(-spec_digits_value(bytes.subrange(1, bytes.len() as int), bytes.len() - 1))
    } else if bytes.len() > 0 && spec_all_digits(bytes) {
        Some(spec_digits_value(bytes, bytes.len() as int))
    } else {
        None
    }
}

/// The coordinate that `bytes` spell; nothing where they spell no number or
/// one that does not fit.
pub open spec fn spec_parse_coord(bytes: Seq<u8>) -> Option<isize> {
    match spec_parse_int(bytes) {
        Some(v) => if isize::MIN <= v <= isize::MAX {
            Some(v as isize)
        } else {
            None
        },
        None => None,
    }
}

/// More digits never spell a smaller number.
proof fn lemma_digits_grow(bytes: Seq<u8>, at: int, count: int)
    requires
        0 <= at <= count <= bytes.len(),
        spec_all_digits(bytes),
    ensures
        0 <= spec_digits_value(bytes, at) <= spec_digits_value(bytes, count),
    decreases count,
{
    if count > 0 {
        if at < count {
            lemma_digits_grow(bytes, at, count - 1);
        } else {
            lemma_digits_grow(bytes, at - 1, count - 1);
        }
    }
}

/// Reads the digits of `bytes` from `start` on as a number of at most
/// `limit`.
fn parse_digits(bytes: &[u8], start: usize, limit: u128) -> (r: Option<u128>)
    requires
        start <= bytes@.len(),
        limit <= 0x1_0000_0000_0000_0000,
    ensures
        match r {
            Some(v) => start < bytes@.len() && spec_all_digits(
                bytes@.subrange(start as int, bytes@.len() as int),
            ) && v == spec_digits_value(
                bytes@.subrange(start as int, bytes@.len() as int),
                bytes@.len() - start,
            ) && v <= limit,
            None => start == bytes@.len() || !spec_all_digits(
                bytes@.subrange(start as int, bytes@.len() as int),
            ) || spec_digits_value(
                bytes@.subrange(start as int, bytes@.len() as int),
                bytes@.len() - start,
            ) > limit,
        },
{
    let ghost digits = bytes@.subrange(start as int, bytes@.len() as int);
    if start == bytes.len() {
        return None;
    }
    let mut value: u128 = 0;
    let mut over: bool = false;
    let mut i: usize = start;
    while i < bytes.len()
        invariant
            start <= i <= bytes@.len(),
            digits == bytes@.subrange(start as int, bytes@.len() as int),
            limit <= 0x1_0000_0000_0000_0000,
            spec_all_digits(digits.subrange(0, i - start)),
            !over ==> value == spec_digits_value(digits, i - start) && value <= limit,
            over ==> spec_digits_value(digits, i - start) > limit,
        decreases bytes@.len() - i,
    {
        let b: u8 = bytes[i];
        if b < 48 || b > 57 {
            assert(digits[i - start] == b);
            return None;
        }
        assert(digits[i - start] == b);
        assert(spec_all_digits(digits.subrange(0, i + 1 - start))) by {
            assert forall|k: int| 0 <= k < i + 1 - start implies 48 <= #[trigger] digits.subrange(
                0,
                i + 1 - start,
            )[k] <= 57 by {
                if k < i - start {
                    assert(digits.subrange(0, i - start)[k] == digits[k]);
                }
            }
        }
        if !over {
            let next: u128 = value * 10 + (b - 48) as u128;
            if next > limit {
                over = true;
            } else {
                value = next;
            }
        }
        i = i + 1;
    }
    assert(digits.subrange(0, digits.len() as int) =~= digits);
    if over {
        None
    } else {
        Some(value)
    }
}

/// Reads a coordinate spelt in decimal digits, with a minus sign in front
/// for a negative one.
pub fn parse_coord(text: &str) -> (r: Option<isize>)
    ensures
        r == spec_parse_coord(text.spec_bytes()),
{
    let bytes: &[u8] = text.as_bytes();
    let len: usize = bytes.len();
    if len > 1 && bytes[0] == 45 {
        let ghost digits = bytes@.subrange(1, len as int);
        match parse_digits(bytes, 1, isize::MAX as u128 + 1) {
            None => {
                proof {
                    if spec_all_digits(bytes@) {
                        assert(false);
                    }
                }
                None
            },
            Some(v) => {
                let value: i128 = -(v as i128);
                Some(value as isize)
            },
        }
    } else {
        match parse_digits(bytes, 0, isize::MAX as u128) {
            None => {
                assert(bytes@.subrange(0, len as int) =~= bytes@);
                None
            },
            Some(v) => {
                assert(bytes@.subrange(0, len as int) =~= bytes@);
                Some(v as isize)
            },
        }
    }
}

/// The pattern of a region file's name: `r.`, the region's two coordinates
/// with a dot between them, and `.mca` at the end.
pub open spec fn spec_region_pattern() -> Seq<char> {
    "r\\.([-\\d]+)\\.([-\\d]+)\\.mca$"@
}

/// The coordinates that the groups of a match of a region file's name spell:
/// the first group the x coordinate, the second the z coordinate.
pub open spec fn spec_coords_from_groups(groups: Seq<Option<Seq<char>>>) -> Option<Pair<isize>> {
    if groups.len() == 3 && groups[1] is Some && groups[2] is Some {
        match (
            spec_parse_coord(vstd::utf8::encode_utf8(groups[1]->Some_0)),
            spec_parse_coord(vstd::utf8::encode_utf8(groups[2]->Some_0)),
        ) {
            (Some(x), Some(z)) => Some(Pair { x, z }),
            _ => None,
        }
    } else {
        None
    }
}

/// The coordinates that the groups of a match of a region file's name spell.
pub fn coords_from_groups(groups: &Vec<Option<String>>) -> (r: Option<Pair<isize>>)
    ensures
        r == spec_coords_from_groups(spec_groups_view(Some(*groups))->Some_0),
{
    if groups.len() != 3 {
        return None;
    }
    match (&groups[1], &groups[2]) {
        (Some(gx), Some(gz)) => {
            match (parse_coord(gx.as_str()), parse_coord(gz.as_str())) {
                (Some(x), Some(z)) => Some(Pair { x, z }),
                _ => None,
            }
        },
        _ => None,
    }
}

/// The coordinates of the region whose file has the path `path_str`; nothing
/// where the path does not end in a region file's name.
pub fn get_coords_from_path(path_str: &str) -> (r: Option<Pair<isize>>)
    ensures
        r == match spec_regex_captures(spec_region_pattern(), path_str@) {
            Some(groups) => spec_coords_from_groups(groups),
            None => None,
        },
{
    match regex_captures("r\\.([-\\d]+)\\.([-\\d]+)\\.mca$", path_str) {
        Some(groups) => coords_from_groups(&groups),
        None => None,
    }
}

/// A digit as a character.
pub open spec fn spec_digit_char(digit: int) -> char {
    (48 + digit) as u8 as char
}

/// The decimal digits of a number that is not negative.
pub open spec fn spec_digits(n: int) -> Seq<char>
    decreases n,
{
    if n < 10 {
        seq![spec_digit_char(n)]
    } else {
        spec_digits(n / 10).push(spec_digit_char(n % 10))
    }
}

/// A number in decimal digits, with a minus sign in front where it is
/// negative.
pub open spec fn spec_decimal(n: int) -> Seq<char> {
    if n < 0 {
        seq!['-'] + spec_digits(-n)
    } else {
        spec_digits(n)
    }
}

/// `format!` with `{}` on an `isize`: the number in decimal digits, with a
/// minus sign in front where it is negative.
#[verifier::external_body]
fn decimal(n: isize) -> (s: String)
    ensures
        s@ == spec_decimal(n as int),
{
    format!("{}", n)
}

/// The name of the file of the region `r`.
pub open spec fn spec_region_file_name(r: Pair<isize>) -> Seq<char> {
    "r."@ + spec_decimal(r.x as int) + "."@ + spec_decimal(r.z as int) + ".mca"@
}

/// The name of the file of the region `r`: `r.`, the two coordinates with a
/// dot between them, and `.mca`.
pub fn region_file_name(r: &Pair<isize>) -> (name: String)
    ensures
        name@ == spec_region_file_name(*r),
{
    let x: String = decimal(r.x);
    let z: String = decimal(r.z);
    let name: String = "r.".to_owned();
    let name: String = name.concat(x.as_str());
    let name: String = name.concat(".");
    let name: String = name.concat(z.as_str());
    name.concat(".mca")
}

/// The digits of a number are digits, and spell the number.
proof fn lemma_digits_spell(n: int)
    requires
        0 <= n,
    ensures
        spec_digits(n).len() > 0,
        vstd::utf8::is_ascii_chars(spec_digits(n)),
        spec_all_digits(vstd::utf8::encode_utf8(spec_digits(n))),
        vstd::utf8::encode_utf8(spec_digits(n)).len() == spec_digits(n).len(),
        spec_digits_value(
            vstd::utf8::encode_utf8(spec_digits(n)),
            spec_digits(n).len() as int,
        ) == n,
    decreases n,
{
    let chars = spec_digits(n);
    if n >= 10 {
        lemma_digits_spell(n / 10);
        let front = spec_digits(n / 10);
        assert(chars == front.push(spec_digit_char(n % 10)));
        assert forall|i: int| 0 <= i < chars.len() implies '\0' <= #[trigger] chars[i]
            <= '\u{7f}' by {
            if i < front.len() {
                assert(chars[i] == front[i]);
            }
        }
        vstd::utf8::is_ascii_chars_encode_utf8(chars);
        vstd::utf8::is_ascii_chars_encode_utf8(front);
        let bytes = vstd::utf8::encode_utf8(chars);
        let front_bytes = vstd::utf8::encode_utf8(front);
        assert forall|i: int| 0 <= i < front.len() implies bytes[i] == front_bytes[i] by {
            assert(chars[i] == front[i]);
        }
        assert(bytes[chars.len() - 1] == chars[chars.len() - 1] as u8);
        assert(bytes[chars.len() - 1] == 48 + n % 10);
        lemma_digits_value_prefix(bytes, front_bytes, front.len() as int);
        assert forall|i: int| 0 <= i < bytes.len() implies 48 <= #[trigger] bytes[i] <= 57 by {
            if i < front.len() {
                assert(bytes[i] == front_bytes[i]);
            }
        }
    } else {
        assert(chars.len() == 1);
        assert(chars[0] == spec_digit_char(n));
        vstd::utf8::is_ascii_chars_encode_utf8(chars);
        let bytes = vstd::utf8::encode_utf8(chars);
        assert(bytes[0] == chars[0] as u8);
        assert(bytes[0] == 48 + n);
        assert(spec_digits_value(bytes, 0) == 0);
    }
}

/// The number that digits spell depends on those digits only.
proof fn lemma_digits_value_prefix(a: Seq<u8>, b: Seq<u8>, count: int)
    requires
        0 <= count <= a.len(),
        count <= b.len(),
        forall|i: int| 0 <= i < count ==> a[i] == b[i],
    ensures
        spec_digits_value(a, count) == spec_digits_value(b, count),
    decreases count,
{
    if count > 0 {
        lemma_digits_value_prefix(a, b, count - 1);
    }
}

/// A coordinate written out in decimal digits is read back as itself.
pub proof fn lemma_decimal_parses(n: isize)
    ensures
        spec_parse_coord(vstd::utf8::encode_utf8(spec_decimal(n as int))) == Some(n),
{
    let chars = spec_decimal(n as int);
    let bytes = vstd::utf8::encode_utf8(chars);
    if n >= 0 {
        lemma_digits_spell(n as int);
        assert(bytes[0] != 45);
    } else {
        let digits = spec_digits(-n);
        lemma_digits_spell(-n);
        let digit_bytes = vstd::utf8::encode_utf8(digits);
        assert(chars == seq!['-'] + digits);
        assert forall|i: int| 0 <= i < chars.len() implies '\0' <= #[trigger] chars[i]
            <= '\u{7f}' by {
            if i > 0 {
                assert(chars[i] == digits[i - 1]);
            }
        }
        vstd::utf8::is_ascii_chars_encode_utf8(chars);
        vstd::utf8::is_ascii_chars_encode_utf8(digits);
        assert(bytes[0] == chars[0] as u8);
        assert(bytes[0] == 45);
        let rest = bytes.subrange(1, bytes.len() as int);
        assert forall|i: int| 0 <= i < rest.len() implies rest[i] == digit_bytes[i] by {
            assert(chars[i + 1] == digits[i]);
            assert(bytes[i + 1] == chars[i + 1] as u8);
        }
        assert(rest =~= digit_bytes);
    }
}

} // verus!
