use std::ops::Range;
use vstd::prelude::*;

use crate::blocktypes::{spec_types_wf, BlockType};
use crate::color::{blend_alpha_color, spec_blend_alpha_color, RGBA};
use crate::region::{
    spec_block_at, spec_blocklight, spec_e_block, spec_n_block, spec_s_block, spec_skylight,
    spec_t_block, spec_w_block, Block, Chunk, ChunkData,
};
use crate::sizes::{
    block_pos_in_chunk, spec_signed_modulo, BIOME_ARRAY_SIZE, BLOCKS_IN_CHUNK, BLOCKS_IN_CHUNK_2D,
    BLOCKS_IN_CHUNK_Y, MAX_CHANNEL_VALUE,
};
use crate::types::{Edges, Pair};
use crate::world::World;

verus! {

/// Whether a chunk and its neighbours hold block types of the table only,
/// and the chunk biomes that the colours know.
pub open spec fn spec_chunk_valid(chunk: Chunk, types: int) -> bool {
    &&& chunk.data.spec_within(types, BIOME_ARRAY_SIZE as int)
    &&& chunk.ndata.n matches Some(d) ==> d.spec_within(types, 256)
    &&& chunk.ndata.e matches Some(d) ==> d.spec_within(types, 256)
    &&& chunk.ndata.s matches Some(d) ==> d.spec_within(types, 256)
    &&& chunk.ndata.w matches Some(d) ==> d.spec_within(types, 256)
}

/// Whether a neighbour lets skylight onto a block's side: it is lit from the
/// sky and not solid.
pub open spec fn spec_is_edge(neighbor: Block, blocktypes: Seq<BlockType>) -> bool {
    neighbor.slight > 0 && !blocktypes[neighbor.btype as int].solid
}

/// The variant of a block's colour seen from above: 2, a highlight, with an
/// open side to the north or west only; 3, a shadow, with an open side to the
/// east or south only; 1 else.
pub open spec fn spec_shade(chunk: Chunk, blocktypes: Seq<BlockType>, bx: int, bz: int, bo3: int) -> int {
    let nw = spec_is_edge(spec_n_block(chunk, bz as usize, bo3 as usize), blocktypes)
        || spec_is_edge(spec_w_block(chunk, bx as usize, bo3 as usize), blocktypes);
    let es = spec_is_edge(spec_e_block(chunk, bx as usize, bo3 as usize), blocktypes)
        || spec_is_edge(spec_s_block(chunk, bz as usize, bo3 as usize), blocktypes);
    if nw && !es {
        2
    } else if !nw && es {
        3
    } else {
        1
    }
}

/// The colour of the block at `(bx, by, bz)` seen from above: that of its
/// type for the column's biome, in the light of the block above it.
pub open spec fn spec_top_color(
    chunk: Chunk,
    blocktypes: Seq<BlockType>,
    bx: int,
    by: int,
    bz: int,
    ymax: int,
) -> RGBA {
    let bo3 = by * 256 + bz * 16 + bx;
    let tblock = spec_t_block(chunk, by as usize, bo3 as usize, ymax as usize);
    blocktypes[chunk.data.blocks[bo3] as int].spec_color(
        chunk.data.biomes[bz * 16 + bx] as int,
        tblock.slight as int,
        tblock.blight as int,
        spec_shade(chunk, blocktypes, bx, bz, bo3),
    )
}

/// The colour of a column after the layer `by` has been laid under what is
/// seen of the layers above: an empty block changes nothing.
pub open spec fn spec_under_layer(
    chunk: Chunk,
    blocktypes: Seq<BlockType>,
    bx: int,
    by: int,
    bz: int,
    ymax: int,
    above: RGBA,
) -> RGBA {
    if blocktypes[chunk.data.blocks[by * 256 + bz * 16 + bx] as int].empty {
        above
    } else {
        spec_blend_alpha_color(above, spec_top_color(chunk, blocktypes, bx, by, bz, ymax))
    }
}

/// The colour of the column at `(bx, bz)` seen from above, of the layers
/// from `ymax` down to `bottom`: each layer laid under those above it.
pub open spec fn spec_column_color(
    chunk: Chunk,
    blocktypes: Seq<BlockType>,
    bx: int,
    bz: int,
    bottom: int,
    ymax: int,
) -> RGBA
    decreases ymax + 1 - bottom,
{
    if bottom > ymax {
        RGBA { r: 0, g: 0, b: 0, a: 0 }
    } else {
        spec_under_layer(
            chunk,
            blocktypes,
            bx,
            bottom,
            bz,
            ymax,
            spec_column_color(chunk, blocktypes, bx, bz, bottom + 1, ymax),
        )
    }
}

/// Once a column is opaque, the layers below change nothing.
pub proof fn lemma_opaque_column(
    chunk: Chunk,
    blocktypes: Seq<BlockType>,
    bx: int,
    bz: int,
    bottom: int,
    at: int,
    ymax: int,
)
    requires
        bottom <= at <= ymax + 1,
        spec_column_color(chunk, blocktypes, bx, bz, at, ymax).a == 255,
    ensures
        spec_column_color(chunk, blocktypes, bx, bz, bottom, ymax) == spec_column_color(
            chunk,
            blocktypes,
            bx,
            bz,
            at,
            ymax,
        ),
    decreases at - bottom,
{
    if bottom < at {
        lemma_opaque_column(chunk, blocktypes, bx, bz, bottom + 1, at, ymax);
    }
}

/// Whether the block at `(bx, by, bz)` of a chunk is of an empty type.
pub open spec fn spec_empty_at(chunk: Chunk, blocktypes: Seq<BlockType>, bx: int, by: int, bz: int) -> bool {
    blocktypes[chunk.data.blocks[by * 256 + bz * 16 + bx] as int].empty
}

/// A column of empty blocks has no colour: its pixel stays blank.
pub proof fn lemma_empty_column(
    chunk: Chunk,
    blocktypes: Seq<BlockType>,
    bx: int,
    bz: int,
    bottom: int,
    ymax: int,
)
    requires
        forall|by: int| bottom <= by <= ymax ==> #[trigger] spec_empty_at(chunk, blocktypes, bx, by, bz),
    ensures
        spec_column_color(chunk, blocktypes, bx, bz, bottom, ymax) == (RGBA { r: 0, g: 0, b: 0, a: 0 }),
    decreases ymax + 1 - bottom,
{
    if bottom <= ymax {
        assert(spec_empty_at(chunk, blocktypes, bx, bottom, bz));
        lemma_empty_column(chunk, blocktypes, bx, bz, bottom + 1, ymax);
    }
}

/// A column whose highest block that is not empty lies at the height `at`
/// and has an opaque colour shows that block's colour, whatever lies below.
pub proof fn lemma_column_top(
    chunk: Chunk,
    blocktypes: Seq<BlockType>,
    bx: int,
    bz: int,
    bottom: int,
    at: int,
    ymax: int,
)
    requires
        bottom <= at <= ymax,
        forall|by: int| at < by <= ymax ==> #[trigger] spec_empty_at(chunk, blocktypes, bx, by, bz),
        !spec_empty_at(chunk, blocktypes, bx, at, bz),
        spec_top_color(chunk, blocktypes, bx, at, bz, ymax).a == 255,
    ensures
        spec_column_color(chunk, blocktypes, bx, bz, bottom, ymax) == spec_top_color(
            chunk,
            blocktypes,
            bx,
            at,
            bz,
            ymax,
        ),
{
    lemma_empty_column(chunk, blocktypes, bx, bz, at + 1, ymax);
    crate::color::lemma_blend_identity(
        RGBA { r: 0, g: 0, b: 0, a: 0 },
        spec_top_color(chunk, blocktypes, bx, at, bz, ymax),
        RGBA { r: 0, g: 0, b: 0, a: 0 },
    );
    lemma_opaque_column(chunk, blocktypes, bx, bz, bottom, at, ymax);
}

/// Whether a neighbour lets no skylight onto the sides of a chunk's blocks:
/// there is none, or each of its voxels is solid or without skylight.
pub open spec fn spec_side_closed(data: Option<&ChunkData>, blocktypes: Seq<BlockType>) -> bool {
    match data {
        None => true,
        Some(d) => forall|i: int|
            0 <= i < 65536 ==> !spec_is_edge(#[trigger] spec_block_at(*d, i), blocktypes),
    }
}

/// Whether the layer `by` of a chunk holds blocks of the type `btype` only.
pub open spec fn spec_layer_of(chunk: Chunk, btype: u16, by: int) -> bool {
    forall|i: int| by * 256 <= i < by * 256 + 256 ==> (#[trigger] chunk.data.blocks[i]) == btype
}

/// The colour, seen from above, of a block in a layer of one solid block
/// type, in a chunk whose neighbours let no skylight in: that of its type
/// for the column's biome, in the light of the block above it, neither
/// highlighted nor shadowed.
pub proof fn lemma_closed_top_color(
    chunk: Chunk,
    blocktypes: Seq<BlockType>,
    btype: u16,
    bx: int,
    by: int,
    bz: int,
    ymax: int,
)
    requires
        0 <= bx < 16,
        0 <= bz < 16,
        0 <= by <= ymax < 256,
        spec_layer_of(chunk, btype, by),
        blocktypes[btype as int].solid,
        spec_side_closed(chunk.ndata.n, blocktypes),
        spec_side_closed(chunk.ndata.e, blocktypes),
        spec_side_closed(chunk.ndata.s, blocktypes),
        spec_side_closed(chunk.ndata.w, blocktypes),
    ensures
        spec_top_color(chunk, blocktypes, bx, by, bz, ymax) == blocktypes[btype as int].spec_color(
            chunk.data.biomes[bz * 16 + bx] as int,
            spec_t_block(
                chunk,
                by as usize,
                (by * 256 + bz * 16 + bx) as usize,
                ymax as usize,
            ).slight as int,
            spec_t_block(
                chunk,
                by as usize,
                (by * 256 + bz * 16 + bx) as usize,
                ymax as usize,
            ).blight as int,
            1,
        ),
{
    let bo3 = by * 256 + bz * 16 + bx;
    assert(chunk.data.blocks[bo3] == btype);
    assert(0u8 & 0x0f == 0) by (bit_vector);
    if bz > 0 {
        assert(chunk.data.blocks[bo3 - 16] == btype);
    } else if let Some(d) = chunk.ndata.n {
        assert(!spec_is_edge(spec_block_at(*d, bo3 + 240), blocktypes));
    }
    if bx < 15 {
        assert(chunk.data.blocks[bo3 + 1] == btype);
    } else if let Some(d) = chunk.ndata.e {
        assert(!spec_is_edge(spec_block_at(*d, bo3 - 15), blocktypes));
    }
    if bz < 15 {
        assert(chunk.data.blocks[bo3 + 16] == btype);
    } else if let Some(d) = chunk.ndata.s {
        assert(!spec_is_edge(spec_block_at(*d, bo3 - 240), blocktypes));
    }
    if bx > 0 {
        assert(chunk.data.blocks[bo3 - 1] == btype);
    } else if let Some(d) = chunk.ndata.w {
        assert(!spec_is_edge(spec_block_at(*d, bo3 + 15), blocktypes));
    }
    assert(spec_shade(chunk, blocktypes, bx, bz, bo3) == 1);
}

/// A chunk that is filled with one solid block type, and whose neighbours
/// let no skylight in, shows in each column, where the type's colour is
/// opaque, the colour of that type for the column's biome in full skylight
/// and without blocklight, neither highlighted nor shadowed.
pub proof fn lemma_solid_chunk(
    chunk: Chunk,
    blocktypes: Seq<BlockType>,
    btype: u16,
    bx: int,
    bz: int,
    bottom: int,
    ymax: int,
)
    requires
        0 <= bx < 16,
        0 <= bz < 16,
        0 <= bottom <= ymax < 256,
        forall|i: int| 0 <= i < 65536 ==> (#[trigger] chunk.data.blocks[i]) == btype,
        blocktypes[btype as int].solid,
        !blocktypes[btype as int].empty,
        spec_side_closed(chunk.ndata.n, blocktypes),
        spec_side_closed(chunk.ndata.e, blocktypes),
        spec_side_closed(chunk.ndata.s, blocktypes),
        spec_side_closed(chunk.ndata.w, blocktypes),
        blocktypes[btype as int].spec_color(chunk.data.biomes[bz * 16 + bx] as int, 15, 0, 1).a
            == 255,
    ensures
        spec_column_color(chunk, blocktypes, bx, bz, bottom, ymax) == blocktypes[btype as int].spec_color(
            chunk.data.biomes[bz * 16 + bx] as int,
            15,
            0,
            1,
        ),
{
    assert(15u8 & 0x0f == 15 && (15u8 & 0xf0) >> 4 == 0) by (bit_vector);
    assert(chunk.data.blocks[ymax * 256 + bz * 16 + bx] == btype);
    lemma_closed_top_color(chunk, blocktypes, btype, bx, ymax, bz, ymax);
    lemma_column_top(chunk, blocktypes, bx, bz, bottom, ymax, ymax);
}

/// A column whose highest block that is not empty lies in a layer of one
/// solid block type, in a chunk whose neighbours let no skylight in, shows,
/// where that colour is opaque, the colour of the type for the column's
/// biome in the light of the voxel above the block, neither highlighted nor
/// shadowed: the empty layers above add nothing, and what lies below is
/// hidden.
pub proof fn lemma_layer_under_air(
    chunk: Chunk,
    blocktypes: Seq<BlockType>,
    btype: u16,
    bx: int,
    bz: int,
    bottom: int,
    at: int,
    ymax: int,
)
    requires
        0 <= bx < 16,
        0 <= bz < 16,
        0 <= bottom <= at < ymax < 256,
        spec_layer_of(chunk, btype, at),
        blocktypes[btype as int].solid,
        !blocktypes[btype as int].empty,
        forall|by: int| at < by <= ymax ==> #[trigger] spec_empty_at(chunk, blocktypes, bx, by, bz),
        spec_side_closed(chunk.ndata.n, blocktypes),
        spec_side_closed(chunk.ndata.e, blocktypes),
        spec_side_closed(chunk.ndata.s, blocktypes),
        spec_side_closed(chunk.ndata.w, blocktypes),
        blocktypes[btype as int].spec_color(
            chunk.data.biomes[bz * 16 + bx] as int,
            spec_skylight(chunk.data.lights[(at + 1) * 256 + bz * 16 + bx]) as int,
            spec_blocklight(chunk.data.lights[(at + 1) * 256 + bz * 16 + bx]) as int,
            1,
        ).a == 255,
    ensures
        spec_column_color(chunk, blocktypes, bx, bz, bottom, ymax) == blocktypes[btype as int].spec_color(
            chunk.data.biomes[bz * 16 + bx] as int,
            spec_skylight(chunk.data.lights[(at + 1) * 256 + bz * 16 + bx]) as int,
            spec_blocklight(chunk.data.lights[(at + 1) * 256 + bz * 16 + bx]) as int,
            1,
        ),
{
    assert(chunk.data.blocks[at * 256 + bz * 16 + bx] == btype);
    lemma_closed_top_color(chunk, blocktypes, btype, bx, at, bz, ymax);
    lemma_column_top(chunk, blocktypes, bx, bz, bottom, at, ymax);
}

/// The size of the image of a world seen from above: one pixel a block.
pub fn get_size(world: &World) -> (size: Pair<usize>)
    ensures
        size == world.bsize,
{
    world.bsize
}

/// How many pixels of the first chunk's tile lie in front of the image: the
/// rows and columns of the north-western chunk that the world's bounds leave
/// out.
pub fn get_crop(world: &World, size: &Pair<usize>) -> (crop: usize)
    requires
        size.x <= 0x0fff_ffff,
    ensures
        crop == spec_signed_modulo(world.bedges.n as int, 16) * size.x + spec_signed_modulo(
            world.bedges.w as int,
            16,
        ),
{
    let cbcrop: Pair<usize> = Pair {
        x: block_pos_in_chunk(world.bedges.w, None),
        z: block_pos_in_chunk(world.bedges.n, None),
    };
    assert(cbcrop.z * size.x <= 15 * 0x0fff_ffff) by (nonlinear_arith)
        requires
            cbcrop.z <= 15,
            size.x <= 0x0fff_ffff,
    ;
    cbcrop.z * size.x + cbcrop.x
}

/// The pixel of the north-western corner of the tile of the chunk `c` of a
/// region whose own north-western chunk lies `arc` chunks from that of the
/// world.
pub fn get_chunk_pixel(arc: &Pair<isize>, c: &Pair<usize>) -> (p: Pair<usize>)
    requires
        c.x < 32,
        c.z < 32,
        0 <= arc.x + c.x <= 0x0fff_ffff,
        0 <= arc.z + c.z <= 0x0fff_ffff,
    ensures
        p.x == (arc.x + c.x) * BLOCKS_IN_CHUNK,
        p.z == (arc.z + c.z) * BLOCKS_IN_CHUNK,
{
    Pair {
        x: (arc.x + c.x as isize) as usize * BLOCKS_IN_CHUNK,
        z: (arc.z + c.z as isize) as usize * BLOCKS_IN_CHUNK,
    }
}

/// The colour of the column at `(bx, bz)` of a chunk seen from above, of the
/// layers inside `ylimits`.
pub fn get_block_color(
    bx: usize,
    bz: usize,
    blocktypes: &[BlockType],
    chunk: &Chunk,
    ylimits: &Range<usize>,
) -> (color: RGBA)
    requires
        bx < BLOCKS_IN_CHUNK,
        bz < BLOCKS_IN_CHUNK,
        ylimits.start <= ylimits.end <= BLOCKS_IN_CHUNK_Y,
        spec_types_wf(blocktypes@),
        spec_chunk_valid(*chunk, blocktypes@.len() as int),
    ensures
        color == spec_column_color(
            *chunk,
            blocktypes@,
            bx as int,
            bz as int,
            ylimits.start as int,
            ylimits.end - 1,
        ),
{
    let mut color: RGBA = RGBA { r: 0, g: 0, b: 0, a: 0 };
    let bo2: usize = bz * BLOCKS_IN_CHUNK + bx;
    let ghost ymax: int = ylimits.end - 1;
    let mut by: usize = ylimits.end;
    while by > ylimits.start
        invariant
            bx < BLOCKS_IN_CHUNK,
            bz < BLOCKS_IN_CHUNK,
            bo2 == bz * 16 + bx,
            ymax == ylimits.end - 1,
            ylimits.start <= by <= ylimits.end <= BLOCKS_IN_CHUNK_Y,
            spec_types_wf(blocktypes@),
            spec_chunk_valid(*chunk, blocktypes@.len() as int),
            color == spec_column_color(*chunk, blocktypes@, bx as int, bz as int, by as int, ymax),
        decreases by,
    {
        by = by - 1;
        let bo3: usize = by * BLOCKS_IN_CHUNK_2D + bo2;
        let btype: u16 = chunk.data.blocks[bo3];
        assert(chunk.data.blocks[bo3 as int] < blocktypes@.len());
        let blocktype: &BlockType = &blocktypes[btype as usize];
        if blocktype.empty {
            continue;
        }
        assert(blocktypes@[btype as int].wf());
        assert(chunk.data.biomes[bo2 as int] < BIOME_ARRAY_SIZE);
        let biome: usize = chunk.data.biomes[bo2] as usize;
        let tblock: Block = chunk.get_t_block(&by, &bo3, ylimits.end - 1);
        let n: Block = chunk.get_n_block(&bz, &bo3);
        let e: Block = chunk.get_e_block(&bx, &bo3);
        let s: Block = chunk.get_s_block(&bz, &bo3);
        let w: Block = chunk.get_w_block(&bx, &bo3);
        let edge_n: bool = is_edge(&n, blocktypes, chunk);
        let edge_e: bool = is_edge(&e, blocktypes, chunk);
        let edge_s: bool = is_edge(&s, blocktypes, chunk);
        let edge_w: bool = is_edge(&w, blocktypes, chunk);
        let nw: bool = edge_n || edge_w;
        let es: bool = edge_e || edge_s;
        let shade: usize = if nw && !es {
            2
        } else if !nw && es {
            3
        } else {
            1
        };
        let blockcolor: &RGBA = blocktype.color(biome, tblock.slight, tblock.blight, shade);
        color = blend_alpha_color(&color, blockcolor);
        if color.a == MAX_CHANNEL_VALUE {
            proof {
                lemma_opaque_column(
                    *chunk,
                    blocktypes@,
                    bx as int,
                    bz as int,
                    ylimits.start as int,
                    by as int,
                    ymax,
                );
            }
            return color;
        }
    }
    color
}

/// Whether a block of the chunk or of one of its neighbours lets skylight
/// onto the side of the block beside it.
fn is_edge(neighbor: &Block, blocktypes: &[BlockType], chunk: &Chunk) -> (r: bool)
    requires
        neighbor.btype < blocktypes@.len(),
    ensures
        r == spec_is_edge(*neighbor, blocktypes@),
{
    neighbor.slight > 0 && !blocktypes[neighbor.btype as usize].solid
}

/// Channel `k` of a colour as it lies in a pixel: red, green, blue, alpha.
pub open spec fn spec_channel(color: RGBA, k: int) -> u8 {
    if k == 0 {
        color.r
    } else if k == 1 {
        color.g
    } else if k == 2 {
        color.b
    } else {
        color.a
    }
}

/// The colour of the pixel whose first byte lies at `po`.
pub open spec fn spec_pixel_at(pixels: Seq<u8>, po: int) -> RGBA {
    RGBA { r: pixels[po], g: pixels[po + 1], b: pixels[po + 2], a: pixels[po + 3] }
}

/// `pixels` with the pixel at `po` set to `color`.
pub open spec fn spec_put_pixel(pixels: Seq<u8>, po: int, color: RGBA) -> Seq<u8> {
    pixels.update(po, color.r).update(po + 1, color.g).update(po + 2, color.b).update(
        po + 3,
        color.a,
    )
}

/// Sets the pixel whose first byte lies at `po`.
pub fn put_pixel(pixels: &mut [u8], po: usize, color: RGBA)
    requires
        po + 4 <= old(pixels)@.len(),
    ensures
        final(pixels)@ == spec_put_pixel(old(pixels)@, po as int, color),
{
    pixels[po] = color.r;
    pixels[po + 1] = color.g;
    pixels[po + 2] = color.b;
    pixels[po + 3] = color.a;
}

/// Where the pixel of the column `(bx, bz)` lies in an image `width` pixels
/// wide, for a chunk whose tile starts `co` pixels into the image.
pub open spec fn spec_ortho_offset(co: int, width: int, bx: int, bz: int) -> int {
    (co + bz * width + bx) * 4
}

/// Whether the byte `p` of an image belongs to the pixel of a column inside
/// `limits`.
pub open spec fn spec_in_ortho_tile(p: int, co: int, width: int, limits: Edges<usize>) -> bool {
    exists|bx: int, bz: int|
        limits.w <= bx <= limits.e && limits.n <= bz <= limits.s && #[trigger] spec_ortho_offset(
            co,
            width,
            bx,
            bz,
        ) <= p < spec_ortho_offset(co, width, bx, bz) + 4
}

/// Whether the pixels of all columns inside `limits` lie inside an image of
/// `len` bytes.
pub open spec fn spec_ortho_tile_fits(len: int, co: int, width: int, limits: Edges<usize>) -> bool {
    forall|bx: int, bz: int|
        limits.w <= bx <= limits.e && limits.n <= bz <= limits.s ==> 0 <= #[trigger] spec_ortho_offset(
            co,
            width,
            bx,
            bz,
        ) && spec_ortho_offset(co, width, bx, bz) + 4 <= len
}

/// The pixels of two columns of a tile that is not wider than the image lie
/// apart.
pub proof fn lemma_ortho_offsets_apart(co: int, width: int, x1: int, z1: int, x2: int, z2: int)
    requires
        -width < x1 - x2 < width,
        x1 != x2 || z1 != z2,
    ensures
        spec_ortho_offset(co, width, x1, z1) + 4 <= spec_ortho_offset(co, width, x2, z2)
            || spec_ortho_offset(co, width, x2, z2) + 4 <= spec_ortho_offset(co, width, x1, z1),
{
    assert(z1 * width + x1 != z2 * width + x2) by (nonlinear_arith)
        requires
            -width < x1 - x2 < width,
            x1 != x2 || z1 != z2,
    ;
}

/// What `draw_chunk` has drawn once it has gone through the columns in front
/// of `(x_end, z_end)`: their pixels hold their colours, and every other
/// byte is as it was.
pub open spec fn spec_ortho_drawn(
    pixels: Seq<u8>,
    before: Seq<u8>,
    chunk: Chunk,
    blocktypes: Seq<BlockType>,
    co: int,
    width: int,
    limits: Edges<usize>,
    bottom: int,
    ymax: int,
    x_end: int,
    z_end: int,
) -> bool {
    &&& pixels.len() == before.len()
    &&& forall|bx: int, bz: int, k: int|
        limits.w <= bx <= limits.e && limits.n <= bz <= limits.s && (bz < z_end || (bz == z_end
            && bx < x_end)) && 0 <= k < 4 ==> pixels[#[trigger] spec_ortho_offset(
            co,
            width,
            bx,
            bz,
        ) + k] == #[trigger] spec_channel(
            spec_column_color(chunk, blocktypes, bx, bz, bottom, ymax),
            k,
        )
    &&& forall|p: int|
        0 <= p < pixels.len() && !(exists|bx: int, bz: int|
            limits.w <= bx <= limits.e && limits.n <= bz <= limits.s && (bz < z_end || (bz
                == z_end && bx < x_end)) && #[trigger] spec_ortho_offset(co, width, bx, bz) <= p
                < spec_ortho_offset(co, width, bx, bz) + 4) ==> #[trigger] pixels[p] == before[p]
}

/// The image after the pixels of the columns of the row `bz` in front of
/// `bx_end` have been set.
pub open spec fn spec_ortho_cols(
    pixels: Seq<u8>,
    chunk: Chunk,
    blocktypes: Seq<BlockType>,
    co: int,
    width: int,
    limits: Edges<usize>,
    bottom: int,
    ymax: int,
    bz: int,
    bx_end: int,
) -> Seq<u8>
    decreases bx_end - limits.w,
{
    if bx_end <= limits.w {
        pixels
    } else {
        spec_put_pixel(
            spec_ortho_cols(
                pixels,
                chunk,
                blocktypes,
                co,
                width,
                limits,
                bottom,
                ymax,
                bz,
                bx_end - 1,
            ),
            spec_ortho_offset(co, width, bx_end - 1, bz),
            spec_column_color(chunk, blocktypes, bx_end - 1, bz, bottom, ymax),
        )
    }
}

/// The image after the pixels of the rows in front of `bz_end` have been
/// set.
pub open spec fn spec_ortho_rows(
    pixels: Seq<u8>,
    chunk: Chunk,
    blocktypes: Seq<BlockType>,
    co: int,
    width: int,
    limits: Edges<usize>,
    bottom: int,
    ymax: int,
    bz_end: int,
) -> Seq<u8>
    decreases bz_end - limits.n,
{
    if bz_end <= limits.n {
        pixels
    } else {
        spec_ortho_cols(
            spec_ortho_rows(pixels, chunk, blocktypes, co, width, limits, bottom, ymax, bz_end - 1),
            chunk,
            blocktypes,
            co,
            width,
            limits,
            bottom,
            ymax,
            bz_end - 1,
            limits.e + 1,
        )
    }
}

/// The image after the tile of a chunk seen from above has been drawn: the
/// pixels of the columns inside `limits` set row by row, each row from west
/// to east.
pub open spec fn spec_ortho_chunk(
    pixels: Seq<u8>,
    chunk: Chunk,
    blocktypes: Seq<BlockType>,
    co: int,
    width: int,
    limits: Edges<usize>,
    bottom: int,
    ymax: int,
) -> Seq<u8> {
    if limits.n > limits.s || limits.w > limits.e {
        pixels
    } else {
        spec_ortho_rows(pixels, chunk, blocktypes, co, width, limits, bottom, ymax, limits.s + 1)
    }
}

/// Draws the pixel of the column `(bx, bz)`.
fn draw_column(
    pixels: &mut [u8],
    blocktypes: &[BlockType],
    chunk: &Chunk,
    co: isize,
    width: usize,
    cblimits: &Edges<usize>,
    ylimits: &Range<usize>,
    bx: usize,
    bz: usize,
)
    requires
        cblimits.e < BLOCKS_IN_CHUNK,
        cblimits.s < BLOCKS_IN_CHUNK,
        cblimits.w <= bx <= cblimits.e,
        cblimits.n <= bz <= cblimits.s,
        width <= 0x03ff_ffff,
        ylimits.start <= ylimits.end <= BLOCKS_IN_CHUNK_Y,
        spec_types_wf(blocktypes@),
        spec_chunk_valid(*chunk, blocktypes@.len() as int),
        spec_ortho_tile_fits(old(pixels)@.len() as int, co as int, width as int, *cblimits),
    ensures
        final(pixels)@ == spec_put_pixel(
            old(pixels)@,
            spec_ortho_offset(co as int, width as int, bx as int, bz as int),
            spec_column_color(
                *chunk,
                blocktypes@,
                bx as int,
                bz as int,
                ylimits.start as int,
                ylimits.end - 1,
            ),
        ),
{
    let ghost here = spec_ortho_offset(co as int, width as int, bx as int, bz as int);
    assert(0 <= here && here + 4 <= pixels@.len());
    assert(bz * width <= 15 * 0x03ff_ffff) by (nonlinear_arith)
        requires
            bz <= 15,
            width <= 0x03ff_ffff,
    ;
    let within: usize = bz * width + bx;
    assert(here == (co + within) * 4);
    proof {
        vstd::slice::axiom_spec_len(&*pixels);
    }
    let pixel: isize = co + within as isize;
    let po: usize = pixel as usize * 4;
    let color: RGBA = get_block_color(bx, bz, blocktypes, chunk, ylimits);
    put_pixel(pixels, po, color);
}

/// Draws the tile of a chunk seen from above into an image `width` pixels
/// wide: for each column inside `cblimits`, one pixel of the colour of its
/// layers inside `ylimits`. The tile starts `co` pixels into the image.
pub fn draw_chunk(
    pixels: &mut [u8],
    blocktypes: &[BlockType],
    chunk: &Chunk,
    co: &isize,
    width: &usize,
    cblimits: &Edges<usize>,
    ylimits: &Range<usize>,
)
    requires
        cblimits.e < BLOCKS_IN_CHUNK,
        cblimits.s < BLOCKS_IN_CHUNK,
        cblimits.w <= cblimits.e ==> cblimits.e - cblimits.w < *width,
        *width <= 0x03ff_ffff,
        ylimits.start <= ylimits.end <= BLOCKS_IN_CHUNK_Y,
        spec_types_wf(blocktypes@),
        spec_chunk_valid(*chunk, blocktypes@.len() as int),
        spec_ortho_tile_fits(old(pixels)@.len() as int, *co as int, *width as int, *cblimits),
    ensures
        final(pixels)@.len() == old(pixels)@.len(),
        final(pixels)@ == spec_ortho_chunk(
            old(pixels)@,
            *chunk,
            blocktypes@,
            *co as int,
            *width as int,
            *cblimits,
            ylimits.start as int,
            ylimits.end - 1,
        ),
        forall|bx: int, bz: int, k: int|
            cblimits.w <= bx <= cblimits.e && cblimits.n <= bz <= cblimits.s && 0 <= k < 4
                ==> final(pixels)@[#[trigger] spec_ortho_offset(*co as int, *width as int, bx, bz)
                + k] == #[trigger] spec_channel(
                spec_column_color(
                    *chunk,
                    blocktypes@,
                    bx,
                    bz,
                    ylimits.start as int,
                    ylimits.end - 1,
                ),
                k,
            ),
        forall|p: int|
            0 <= p < old(pixels)@.len() && !spec_in_ortho_tile(
                p,
                *co as int,
                *width as int,
                *cblimits,
            ) ==> #[trigger] final(pixels)@[p] == old(pixels)@[p],
{
    let ghost before = pixels@;
    proof {
        lemma_ortho_chunk_drawn(
            before,
            *chunk,
            blocktypes@,
            *co as int,
            *width as int,
            *cblimits,
            ylimits.start as int,
            ylimits.end - 1,
        );
    }
    if cblimits.n > cblimits.s || cblimits.w > cblimits.e {
        return ;
    }
    let mut bz: usize = cblimits.n;
    while bz <= cblimits.s
        invariant
            cblimits.e < BLOCKS_IN_CHUNK,
            cblimits.s < BLOCKS_IN_CHUNK,
            cblimits.w <= cblimits.e,
            *width <= 0x03ff_ffff,
            cblimits.n <= bz <= cblimits.s + 1,
            ylimits.start <= ylimits.end <= BLOCKS_IN_CHUNK_Y,
            spec_types_wf(blocktypes@),
            spec_chunk_valid(*chunk, blocktypes@.len() as int),
            spec_ortho_tile_fits(before.len() as int, *co as int, *width as int, *cblimits),
            pixels@.len() == before.len(),
            pixels@ == spec_ortho_rows(
                before,
                *chunk,
                blocktypes@,
                *co as int,
                *width as int,
                *cblimits,
                ylimits.start as int,
                ylimits.end - 1,
                bz as int,
            ),
        decreases cblimits.s + 1 - bz,
    {
        let ghost row_before = pixels@;
        let mut bx: usize = cblimits.w;
        while bx <= cblimits.e
            invariant
                cblimits.e < BLOCKS_IN_CHUNK,
                cblimits.s < BLOCKS_IN_CHUNK,
                *width <= 0x03ff_ffff,
                cblimits.n <= bz <= cblimits.s,
                cblimits.w <= bx <= cblimits.e + 1,
                ylimits.start <= ylimits.end <= BLOCKS_IN_CHUNK_Y,
                spec_types_wf(blocktypes@),
                spec_chunk_valid(*chunk, blocktypes@.len() as int),
                spec_ortho_tile_fits(before.len() as int, *co as int, *width as int, *cblimits),
                pixels@.len() == before.len(),
                pixels@ == spec_ortho_cols(
                    row_before,
                    *chunk,
                    blocktypes@,
                    *co as int,
                    *width as int,
                    *cblimits,
                    ylimits.start as int,
                    ylimits.end - 1,
                    bz as int,
                    bx as int,
                ),
            decreases cblimits.e + 1 - bx,
        {
            draw_column(pixels, blocktypes, chunk, *co, *width, cblimits, ylimits, bx, bz);
            bx = bx + 1;
        }
        bz = bz + 1;
    }
}

/// What is drawn in front of the end of a row is what is drawn in front of
/// the start of the next.
proof fn lemma_ortho_next_row(
    pixels: Seq<u8>,
    before: Seq<u8>,
    chunk: Chunk,
    blocktypes: Seq<BlockType>,
    co: int,
    width: int,
    limits: Edges<usize>,
    bottom: int,
    ymax: int,
    bz: int,
)
    requires
        spec_ortho_drawn(
            pixels,
            before,
            chunk,
            blocktypes,
            co,
            width,
            limits,
            bottom,
            ymax,
            limits.e + 1,
            bz,
        ),
    ensures
        spec_ortho_drawn(
            pixels,
            before,
            chunk,
            blocktypes,
            co,
            width,
            limits,
            bottom,
            ymax,
            limits.w as int,
            bz + 1,
        ),
{
    assert forall|p: int|
        0 <= p < pixels.len() && !(exists|x: int, z: int|
            limits.w <= x <= limits.e && limits.n <= z <= limits.s && (z < bz + 1 || (z == bz + 1
                && x < limits.w)) && #[trigger] spec_ortho_offset(co, width, x, z) <= p
                < spec_ortho_offset(co, width, x, z) + 4) implies #[trigger] pixels[p]
        == before[p] by {
        if exists|x: int, z: int|
            limits.w <= x <= limits.e && limits.n <= z <= limits.s && (z < bz || (z == bz && x
                < limits.e + 1)) && #[trigger] spec_ortho_offset(co, width, x, z) <= p
                < spec_ortho_offset(co, width, x, z) + 4 {
            let (x, z) = choose|x: int, z: int|
                limits.w <= x <= limits.e && limits.n <= z <= limits.s && (z < bz || (z == bz && x
                    < limits.e + 1)) && #[trigger] spec_ortho_offset(co, width, x, z) <= p
                    < spec_ortho_offset(co, width, x, z) + 4;
            assert(z < bz + 1 || (z == bz + 1 && x < limits.w));
            assert(false);
        }
    }
}

/// Setting the pixel of the next column keeps what is drawn drawn.
proof fn lemma_ortho_put_drawn(
    prior: Seq<u8>,
    before: Seq<u8>,
    chunk: Chunk,
    blocktypes: Seq<BlockType>,
    co: int,
    width: int,
    limits: Edges<usize>,
    bottom: int,
    ymax: int,
    bx: int,
    bz: int,
)
    requires
        limits.w <= bx <= limits.e,
        limits.n <= bz <= limits.s,
        limits.e - limits.w < width,
        spec_ortho_tile_fits(before.len() as int, co, width, limits),
        spec_ortho_drawn(prior, before, chunk, blocktypes, co, width, limits, bottom, ymax, bx, bz),
    ensures
        spec_ortho_drawn(
            spec_put_pixel(
                prior,
                spec_ortho_offset(co, width, bx, bz),
                spec_column_color(chunk, blocktypes, bx, bz, bottom, ymax),
            ),
            before,
            chunk,
            blocktypes,
            co,
            width,
            limits,
            bottom,
            ymax,
            bx + 1,
            bz,
        ),
{
    let here = spec_ortho_offset(co, width, bx, bz);
    let pixels = spec_put_pixel(
        prior,
        here,
        spec_column_color(chunk, blocktypes, bx, bz, bottom, ymax),
    );
    assert(0 <= here && here + 4 <= prior.len());
    assert forall|x: int, z: int, k: int|
        limits.w <= x <= limits.e && limits.n <= z <= limits.s && (z < bz || (z == bz && x < bx
            + 1)) && 0 <= k < 4 implies pixels[#[trigger] spec_ortho_offset(co, width, x, z) + k]
        == #[trigger] spec_channel(spec_column_color(chunk, blocktypes, x, z, bottom, ymax), k) by {
        if x == bx && z == bz {
        } else {
            lemma_ortho_offsets_apart(co, width, x, z, bx, bz);
            assert(prior[spec_ortho_offset(co, width, x, z) + k] == spec_channel(
                spec_column_color(chunk, blocktypes, x, z, bottom, ymax),
                k,
            ));
        }
    }
    assert forall|p: int|
        0 <= p < pixels.len() && !(exists|x: int, z: int|
            limits.w <= x <= limits.e && limits.n <= z <= limits.s && (z < bz || (z == bz && x
                < bx + 1)) && #[trigger] spec_ortho_offset(co, width, x, z) <= p
                < spec_ortho_offset(co, width, x, z) + 4) implies #[trigger] pixels[p]
        == before[p] by {
        assert(!(here <= p < here + 4));
        assert(pixels[p] == prior[p]);
        if exists|x: int, z: int|
            limits.w <= x <= limits.e && limits.n <= z <= limits.s && (z < bz || (z == bz && x
                < bx)) && #[trigger] spec_ortho_offset(co, width, x, z) <= p < spec_ortho_offset(
                co,
                width,
                x,
                z,
            ) + 4 {
            let (x, z) = choose|x: int, z: int|
                limits.w <= x <= limits.e && limits.n <= z <= limits.s && (z < bz || (z == bz && x
                    < bx)) && #[trigger] spec_ortho_offset(co, width, x, z) <= p
                    < spec_ortho_offset(co, width, x, z) + 4;
            assert(z < bz || (z == bz && x < bx + 1));
            assert(false);
        }
    }
}

/// The columns of a row that are set hold their colours, and nothing else
/// has changed.
proof fn lemma_ortho_cols_drawn(
    row_before: Seq<u8>,
    before: Seq<u8>,
    chunk: Chunk,
    blocktypes: Seq<BlockType>,
    co: int,
    width: int,
    limits: Edges<usize>,
    bottom: int,
    ymax: int,
    bz: int,
    bx_end: int,
)
    requires
        limits.w <= bx_end <= limits.e + 1,
        limits.n <= bz <= limits.s,
        limits.e - limits.w < width,
        spec_ortho_tile_fits(before.len() as int, co, width, limits),
        spec_ortho_drawn(
            row_before,
            before,
            chunk,
            blocktypes,
            co,
            width,
            limits,
            bottom,
            ymax,
            limits.w as int,
            bz,
        ),
    ensures
        spec_ortho_drawn(
            spec_ortho_cols(
                row_before,
                chunk,
                blocktypes,
                co,
                width,
                limits,
                bottom,
                ymax,
                bz,
                bx_end,
            ),
            before,
            chunk,
            blocktypes,
            co,
            width,
            limits,
            bottom,
            ymax,
            bx_end,
            bz,
        ),
    decreases bx_end - limits.w,
{
    if bx_end > limits.w {
        lemma_ortho_cols_drawn(
            row_before,
            before,
            chunk,
            blocktypes,
            co,
            width,
            limits,
            bottom,
            ymax,
            bz,
            bx_end - 1,
        );
        lemma_ortho_put_drawn(
            spec_ortho_cols(
                row_before,
                chunk,
                blocktypes,
                co,
                width,
                limits,
                bottom,
                ymax,
                bz,
                bx_end - 1,
            ),
            before,
            chunk,
            blocktypes,
            co,
            width,
            limits,
            bottom,
            ymax,
            bx_end - 1,
            bz,
        );
    }
}

/// The rows that are set hold their colours, and nothing else has changed.
proof fn lemma_ortho_rows_drawn(
    before: Seq<u8>,
    chunk: Chunk,
    blocktypes: Seq<BlockType>,
    co: int,
    width: int,
    limits: Edges<usize>,
    bottom: int,
    ymax: int,
    bz_end: int,
)
    requires
        limits.w <= limits.e,
        limits.n <= bz_end <= limits.s + 1,
        limits.e - limits.w < width,
        spec_ortho_tile_fits(before.len() as int, co, width, limits),
    ensures
        spec_ortho_drawn(
            spec_ortho_rows(before, chunk, blocktypes, co, width, limits, bottom, ymax, bz_end),
            before,
            chunk,
            blocktypes,
            co,
            width,
            limits,
            bottom,
            ymax,
            limits.w as int,
            bz_end,
        ),
    decreases bz_end - limits.n,
{
    if bz_end > limits.n {
        lemma_ortho_rows_drawn(
            before,
            chunk,
            blocktypes,
            co,
            width,
            limits,
            bottom,
            ymax,
            bz_end - 1,
        );
        let rows = spec_ortho_rows(
            before,
            chunk,
            blocktypes,
            co,
            width,
            limits,
            bottom,
            ymax,
            bz_end - 1,
        );
        lemma_ortho_cols_drawn(
            rows,
            before,
            chunk,
            blocktypes,
            co,
            width,
            limits,
            bottom,
            ymax,
            bz_end - 1,
            limits.e + 1,
        );
        lemma_ortho_next_row(
            spec_ortho_cols(
                rows,
                chunk,
                blocktypes,
                co,
                width,
                limits,
                bottom,
                ymax,
                bz_end - 1,
                limits.e + 1,
            ),
            before,
            chunk,
            blocktypes,
            co,
            width,
            limits,
            bottom,
            ymax,
            bz_end - 1,
        );
    }
}

/// The image after the tile of a chunk seen from above has been drawn holds,
/// in the pixel of each column inside the limits, the colour of that column,
/// and is elsewhere as it was.
pub proof fn lemma_ortho_chunk_drawn(
    before: Seq<u8>,
    chunk: Chunk,
    blocktypes: Seq<BlockType>,
    co: int,
    width: int,
    limits: Edges<usize>,
    bottom: int,
    ymax: int,
)
    requires
        limits.w <= limits.e ==> limits.e - limits.w < width,
        spec_ortho_tile_fits(before.len() as int, co, width, limits),
    ensures
        spec_ortho_chunk(before, chunk, blocktypes, co, width, limits, bottom, ymax).len()
            == before.len(),
        forall|bx: int, bz: int, k: int|
            limits.w <= bx <= limits.e && limits.n <= bz <= limits.s && 0 <= k < 4
                ==> spec_ortho_chunk(before, chunk, blocktypes, co, width, limits, bottom, ymax)[
            #[trigger] spec_ortho_offset(co, width, bx, bz) + k] == #[trigger] spec_channel(
                spec_column_color(chunk, blocktypes, bx, bz, bottom, ymax),
                k,
            ),
        forall|p: int|
            0 <= p < before.len() && !spec_in_ortho_tile(p, co, width, limits)
                ==> #[trigger] spec_ortho_chunk(
                before,
                chunk,
                blocktypes,
                co,
                width,
                limits,
                bottom,
                ymax,
            )[p] == before[p],
{
    if limits.n <= limits.s && limits.w <= limits.e {
        lemma_ortho_rows_drawn(
            before,
            chunk,
            blocktypes,
            co,
            width,
            limits,
            bottom,
            ymax,
            limits.s + 1,
        );
        let pixels = spec_ortho_chunk(before, chunk, blocktypes, co, width, limits, bottom, ymax);
        assert forall|p: int|
            0 <= p < before.len() && !spec_in_ortho_tile(
                p,
                co,
                width,
                limits,
            ) implies #[trigger] pixels[p] == before[p] by {
            if exists|x: int, z: int|
                limits.w <= x <= limits.e && limits.n <= z <= limits.s && (z < limits.s + 1 || (z
                    == limits.s + 1 && x < limits.w)) && #[trigger] spec_ortho_offset(
                    co,
                    width,
                    x,
                    z,
                ) <= p < spec_ortho_offset(co, width, x, z) + 4 {
                assert(false);
            }
        }
    }
}

/// In the tile of a chunk that is filled with one solid block type, and
/// whose neighbours let no skylight in, the pixel of each column inside the
/// limits holds, where
/// the type's colour is opaque, the colour of that type for the column's
/// biome in full skylight and without blocklight, neither highlighted nor
/// shadowed.
pub proof fn lemma_solid_tile_drawn(
    before: Seq<u8>,
    chunk: Chunk,
    blocktypes: Seq<BlockType>,
    btype: u16,
    co: int,
    width: int,
    limits: Edges<usize>,
    bottom: int,
    ymax: int,
    bx: int,
    bz: int,
    k: int,
)
    requires
        limits.e - limits.w < width,
        spec_ortho_tile_fits(before.len() as int, co, width, limits),
        limits.w <= bx <= limits.e < 16,
        limits.n <= bz <= limits.s < 16,
        0 <= k < 4,
        0 <= bottom <= ymax < 256,
        forall|i: int| 0 <= i < 65536 ==> (#[trigger] chunk.data.blocks[i]) == btype,
        blocktypes[btype as int].solid,
        !blocktypes[btype as int].empty,
        spec_side_closed(chunk.ndata.n, blocktypes),
        spec_side_closed(chunk.ndata.e, blocktypes),
        spec_side_closed(chunk.ndata.s, blocktypes),
        spec_side_closed(chunk.ndata.w, blocktypes),
        blocktypes[btype as int].spec_color(chunk.data.biomes[bz * 16 + bx] as int, 15, 0, 1).a
            == 255,
    ensures
        spec_ortho_chunk(before, chunk, blocktypes, co, width, limits, bottom, ymax)[spec_ortho_offset(
            co,
            width,
            bx,
            bz,
        ) + k] == spec_channel(
            blocktypes[btype as int].spec_color(chunk.data.biomes[bz * 16 + bx] as int, 15, 0, 1),
            k,
        ),
{
    lemma_ortho_chunk_drawn(before, chunk, blocktypes, co, width, limits, bottom, ymax);
    lemma_solid_chunk(chunk, blocktypes, btype, bx, bz, bottom, ymax);
    assert(spec_ortho_chunk(before, chunk, blocktypes, co, width, limits, bottom, ymax)[spec_ortho_offset(
        co,
        width,
        bx,
        bz,
    ) + k] == spec_channel(spec_column_color(chunk, blocktypes, bx, bz, bottom, ymax), k));
}

/// In the tile of a chunk, the pixel of a column of empty blocks inside the
/// limits is blank.
pub proof fn lemma_empty_column_drawn(
    before: Seq<u8>,
    chunk: Chunk,
    blocktypes: Seq<BlockType>,
    co: int,
    width: int,
    limits: Edges<usize>,
    bottom: int,
    ymax: int,
    bx: int,
    bz: int,
    k: int,
)
    requires
        limits.e - limits.w < width,
        spec_ortho_tile_fits(before.len() as int, co, width, limits),
        limits.w <= bx <= limits.e,
        limits.n <= bz <= limits.s,
        0 <= k < 4,
        forall|by: int| bottom <= by <= ymax ==> #[trigger] spec_empty_at(chunk, blocktypes, bx, by, bz),
    ensures
        spec_ortho_chunk(before, chunk, blocktypes, co, width, limits, bottom, ymax)[spec_ortho_offset(
            co,
            width,
            bx,
            bz,
        ) + k] == 0,
{
    lemma_ortho_chunk_drawn(before, chunk, blocktypes, co, width, limits, bottom, ymax);
    lemma_empty_column(chunk, blocktypes, bx, bz, bottom, ymax);
    assert(spec_ortho_chunk(before, chunk, blocktypes, co, width, limits, bottom, ymax)[spec_ortho_offset(
        co,
        width,
        bx,
        bz,
    ) + k] == spec_channel(spec_column_color(chunk, blocktypes, bx, bz, bottom, ymax), k));
}

/// In the tile of a chunk, the pixel of a column whose highest block that is
/// not empty has an opaque colour holds that block's colour seen from above:
/// that of its type for the column's biome, in the light of the block above
/// it.
pub proof fn lemma_column_top_drawn(
    before: Seq<u8>,
    chunk: Chunk,
    blocktypes: Seq<BlockType>,
    co: int,
    width: int,
    limits: Edges<usize>,
    bottom: int,
    at: int,
    ymax: int,
    bx: int,
    bz: int,
    k: int,
)
    requires
        limits.e - limits.w < width,
        spec_ortho_tile_fits(before.len() as int, co, width, limits),
        limits.w <= bx <= limits.e,
        limits.n <= bz <= limits.s,
        0 <= k < 4,
        bottom <= at <= ymax,
        forall|by: int| at < by <= ymax ==> #[trigger] spec_empty_at(chunk, blocktypes, bx, by, bz),
        !spec_empty_at(chunk, blocktypes, bx, at, bz),
        spec_top_color(chunk, blocktypes, bx, at, bz, ymax).a == 255,
    ensures
        spec_ortho_chunk(before, chunk, blocktypes, co, width, limits, bottom, ymax)[spec_ortho_offset(
            co,
            width,
            bx,
            bz,
        ) + k] == spec_channel(spec_top_color(chunk, blocktypes, bx, at, bz, ymax), k),
{
    lemma_ortho_chunk_drawn(before, chunk, blocktypes, co, width, limits, bottom, ymax);
    lemma_column_top(chunk, blocktypes, bx, bz, bottom, at, ymax);
    assert(spec_ortho_chunk(before, chunk, blocktypes, co, width, limits, bottom, ymax)[spec_ortho_offset(
        co,
        width,
        bx,
        bz,
    ) + k] == spec_channel(spec_column_color(chunk, blocktypes, bx, bz, bottom, ymax), k));
}

/// In the tile of a chunk whose neighbours let no skylight in, the pixel of
/// a column whose highest block that is not empty lies in a layer of one
/// solid block type holds, where that colour is opaque, the colour of the
/// type for the column's biome in the light of the voxel above the block,
/// neither highlighted nor shadowed.
pub proof fn lemma_layer_under_air_drawn(
    before: Seq<u8>,
    chunk: Chunk,
    blocktypes: Seq<BlockType>,
    btype: u16,
    co: int,
    width: int,
    limits: Edges<usize>,
    bottom: int,
    at: int,
    ymax: int,
    bx: int,
    bz: int,
    k: int,
)
    requires
        limits.e - limits.w < width,
        spec_ortho_tile_fits(before.len() as int, co, width, limits),
        limits.w <= bx <= limits.e < 16,
        limits.n <= bz <= limits.s < 16,
        0 <= k < 4,
        0 <= bottom <= at < ymax < 256,
        spec_layer_of(chunk, btype, at),
        blocktypes[btype as int].solid,
        !blocktypes[btype as int].empty,
        forall|by: int| at < by <= ymax ==> #[trigger] spec_empty_at(chunk, blocktypes, bx, by, bz),
        spec_side_closed(chunk.ndata.n, blocktypes),
        spec_side_closed(chunk.ndata.e, blocktypes),
        spec_side_closed(chunk.ndata.s, blocktypes),
        spec_side_closed(chunk.ndata.w, blocktypes),
        blocktypes[btype as int].spec_color(
            chunk.data.biomes[bz * 16 + bx] as int,
            spec_skylight(chunk.data.lights[(at + 1) * 256 + bz * 16 + bx]) as int,
            spec_blocklight(chunk.data.lights[(at + 1) * 256 + bz * 16 + bx]) as int,
            1,
        ).a == 255,
    ensures
        spec_ortho_chunk(before, chunk, blocktypes, co, width, limits, bottom, ymax)[spec_ortho_offset(
            co,
            width,
            bx,
            bz,
        ) + k] == spec_channel(
            blocktypes[btype as int].spec_color(
                chunk.data.biomes[bz * 16 + bx] as int,
                spec_skylight(chunk.data.lights[(at + 1) * 256 + bz * 16 + bx]) as int,
                spec_blocklight(chunk.data.lights[(at + 1) * 256 + bz * 16 + bx]) as int,
                1,
            ),
            k,
        ),
{
    lemma_ortho_chunk_drawn(before, chunk, blocktypes, co, width, limits, bottom, ymax);
    lemma_layer_under_air(chunk, blocktypes, btype, bx, bz, bottom, at, ymax);
    assert(spec_ortho_chunk(before, chunk, blocktypes, co, width, limits, bottom, ymax)[spec_ortho_offset(
        co,
        width,
        bx,
        bz,
    ) + k] == spec_channel(spec_column_color(chunk, blocktypes, bx, bz, bottom, ymax), k));
}

} // verus!
