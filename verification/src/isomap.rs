use std::ops::Range;
use vstd::prelude::*;

use crate::blocktypes::{spec_types_wf, BlockType};
use crate::color::{blend_alpha_color, spec_blend_alpha_color, RGBA};
use crate::orthomap::{
    put_pixel, spec_channel, spec_chunk_valid, spec_pixel_at, spec_put_pixel,
};
use crate::region::{spec_block_at, spec_e_block, spec_s_block, spec_t_block, Block, Chunk};
use crate::sizes::{
    block_pos_in_chunk, spec_signed_modulo, BIOME_ARRAY_SIZE, BLOCKS_IN_CHUNK, BLOCKS_IN_CHUNK_2D,
    BLOCKS_IN_CHUNK_Y, ISO_BLOCK_HEIGHT, ISO_BLOCK_SIDE_HEIGHT, ISO_BLOCK_WIDTH,
    ISO_BLOCK_X_MARGIN, ISO_BLOCK_Y_MARGIN, ISO_CHUNK_SIDE_HEIGHT, ISO_CHUNK_X_MARGIN,
    ISO_CHUNK_Y_MARGIN, MAX_BLOCK_IN_CHUNK, MAX_BLOCK_IN_CHUNK_Y, MAX_CHANNEL_VALUE,
};
use crate::types::{Edges, Pair};
use crate::world::World;

verus! {

/// The size of the image of a world in isometric view: each block two
/// pixels to the side and one down for each step along either axis, and the
/// height of a chunk's side below.
pub fn get_size(world: &World) -> (size: Pair<usize>)
    requires
        world.bsize.x + world.bsize.z <= 0x03ff_ffff,
    ensures
        size.x == (world.bsize.x + world.bsize.z) * ISO_BLOCK_X_MARGIN,
        size.z == (world.bsize.x + world.bsize.z) * ISO_BLOCK_Y_MARGIN + ISO_CHUNK_SIDE_HEIGHT,
{
    Pair {
        x: (world.bsize.x + world.bsize.z) * ISO_BLOCK_X_MARGIN,
        z: (world.bsize.x + world.bsize.z) * ISO_BLOCK_Y_MARGIN + ISO_CHUNK_SIDE_HEIGHT,
    }
}

/// How many pixels of the first chunk's tile lie in front of the image.
pub open spec fn spec_crop(bedges: Edges<isize>, width: int) -> int {
    let n = spec_signed_modulo(bedges.n as int, 16);
    let s = MAX_BLOCK_IN_CHUNK - spec_signed_modulo(bedges.s as int, 16);
    let w = spec_signed_modulo(bedges.w as int, 16);
    (w + n) * ISO_BLOCK_Y_MARGIN * width + (w + s) * ISO_BLOCK_X_MARGIN
}

/// How many pixels of the first chunk's tile lie in front of the image: the
/// blocks of the border chunks that the world's bounds leave out shift the
/// image up and to the left.
pub fn get_crop(world: &World, size: &Pair<usize>) -> (crop: usize)
    requires
        size.x <= 0x03ff_ffff,
    ensures
        crop == spec_crop(world.bedges, size.x as int),
{
    let n: usize = block_pos_in_chunk(world.bedges.n, None);
    let s: usize = MAX_BLOCK_IN_CHUNK - block_pos_in_chunk(world.bedges.s, None);
    let w: usize = block_pos_in_chunk(world.bedges.w, None);
    assert((w + n) * size.x <= 30 * 0x03ff_ffff) by (nonlinear_arith)
        requires
            w + n <= 30,
            size.x <= 0x03ff_ffff,
    ;
    (w + n) * ISO_BLOCK_Y_MARGIN * size.x + (w + s) * ISO_BLOCK_X_MARGIN
}

/// The pixel of the top left corner of the tile of the chunk `c` of a region
/// whose own north-western chunk lies `arc` chunks from that of the world.
pub fn get_chunk_pixel(world: &World, arc: &Pair<isize>, c: &Pair<usize>) -> (p: Pair<usize>)
    requires
        c.x < 32,
        c.z < 32,
        0 <= arc.x + c.x <= 0x00ff_ffff,
        0 <= arc.z + c.z <= 0x00ff_ffff,
        world.csize.z <= 0x00ff_ffff,
        arc.z + c.z < world.csize.z,
    ensures
        p.x == (arc.x + c.x + world.csize.z - (arc.z + c.z) - 1) * ISO_CHUNK_X_MARGIN,
        p.z == (arc.x + c.x + arc.z + c.z) * ISO_CHUNK_Y_MARGIN,
{
    let ac: Pair<usize> = Pair {
        x: (arc.x + c.x as isize) as usize,
        z: (arc.z + c.z as isize) as usize,
    };
    Pair {
        x: (ac.x + world.csize.z - ac.z - 1) * ISO_CHUNK_X_MARGIN,
        z: (ac.x + ac.z) * ISO_CHUNK_Y_MARGIN,
    }
}

/// The variant of a side of a solid block: `lit` where the block beside it
/// is lit from the sky and neither solid nor waterlogged, 1 else.
pub open spec fn spec_side_shade(side: Block, blocktypes: Seq<BlockType>, lit: int) -> int {
    if side.slight > 0 && !blocktypes[side.btype as int].solid
        && !blocktypes[side.btype as int].waterlogged {
        lit
    } else {
        1
    }
}

/// The colours that the digits of a block's shape stand for: 0 blank; 1 and
/// 4 in the light of the block above; 2 and 5, the left side, and 3 and 6,
/// the right side, in the block's own light where it is not solid, and else
/// in the light of the block to the south or east, with a highlight on the
/// left or a shadow on the right where that block lets skylight in.
pub open spec fn spec_block_colors(
    blocktypes: Seq<BlockType>,
    blocktype: BlockType,
    block: Block,
    tblock: Block,
    lblock: Block,
    rblock: Block,
    biome: int,
) -> Seq<RGBA> {
    let top = blocktype.spec_color(biome, tblock.slight as int, tblock.blight as int, 1);
    let top2 = blocktype.spec_color(biome, tblock.slight as int, tblock.blight as int, 4);
    if blocktype.solid {
        let lshade = spec_side_shade(lblock, blocktypes, 2);
        let rshade = spec_side_shade(rblock, blocktypes, 3);
        seq![
            RGBA { r: 0, g: 0, b: 0, a: 0 },
            top,
            blocktype.spec_color(biome, lblock.slight as int, lblock.blight as int, lshade),
            blocktype.spec_color(biome, rblock.slight as int, rblock.blight as int, rshade),
            top2,
            blocktype.spec_color(biome, lblock.slight as int, lblock.blight as int, lshade + 3),
            blocktype.spec_color(biome, rblock.slight as int, rblock.blight as int, rshade + 3),
        ]
    } else {
        seq![
            RGBA { r: 0, g: 0, b: 0, a: 0 },
            top,
            blocktype.spec_color(biome, block.slight as int, block.blight as int, 2),
            blocktype.spec_color(biome, block.slight as int, block.blight as int, 3),
            top2,
            blocktype.spec_color(biome, block.slight as int, block.blight as int, 5),
            blocktype.spec_color(biome, block.slight as int, block.blight as int, 6),
        ]
    }
}

/// The neighbour in `nblocks` at `i`, or air without light where there is
/// none.
pub open spec fn spec_nblock(nblocks: Seq<Option<Block>>, i: int) -> Block {
    match nblocks[i] {
        Some(b) => b,
        None => Block { btype: 0, slight: 0, blight: 0 },
    }
}

/// Works out the colours that the digits of a block's shape stand for.
/// `nblocks` holds the block above, the block to the south and the block to
/// the east, the last two where the block is solid.
pub fn get_block_colors(
    blocktypes: &[BlockType],
    blocktype: &BlockType,
    block: &Block,
    nblocks: &[Option<Block>],
    biome: usize,
) -> (bcolors: [RGBA; 7])
    requires
        spec_types_wf(blocktypes@),
        blocktype.wf(),
        biome < BIOME_ARRAY_SIZE,
        block.slight < 16,
        block.blight < 16,
        nblocks@.len() == 3,
        nblocks@[0] matches Some(t) && t.slight < 16 && t.blight < 16,
        blocktype.solid ==> (nblocks@[1] matches Some(l) && l.slight < 16 && l.blight < 16
            && l.btype < blocktypes@.len()),
        blocktype.solid ==> (nblocks@[2] matches Some(r) && r.slight < 16 && r.blight < 16
            && r.btype < blocktypes@.len()),
    ensures
        bcolors@ == spec_block_colors(
            blocktypes@,
            *blocktype,
            *block,
            spec_nblock(nblocks@, 0),
            spec_nblock(nblocks@, 1),
            spec_nblock(nblocks@, 2),
            biome as int,
        ),
{
    let blank: RGBA = RGBA { r: 0, g: 0, b: 0, a: 0 };
    let mut bcolors: [RGBA; 7] = [blank;7];
    let tblock: Block = nblocks[0].unwrap();
    bcolors[1] = *blocktype.color(biome, tblock.slight, tblock.blight, 1);
    bcolors[4] = *blocktype.color(biome, tblock.slight, tblock.blight, 4);
    if blocktype.solid {
        let lblock: Block = nblocks[1].unwrap();
        let lblocktype: &BlockType = &blocktypes[lblock.btype as usize];
        let lshade: usize = if lblock.slight > 0 && !lblocktype.solid && !lblocktype.waterlogged {
            2
        } else {
            1
        };
        bcolors[2] = *blocktype.color(biome, lblock.slight, lblock.blight, lshade);
        bcolors[5] = *blocktype.color(biome, lblock.slight, lblock.blight, lshade + 3);
        let rblock: Block = nblocks[2].unwrap();
        let rblocktype: &BlockType = &blocktypes[rblock.btype as usize];
        let rshade: usize = if rblock.slight > 0 && !rblocktype.solid && !rblocktype.waterlogged {
            3
        } else {
            1
        };
        bcolors[3] = *blocktype.color(biome, rblock.slight, rblock.blight, rshade);
        bcolors[6] = *blocktype.color(biome, rblock.slight, rblock.blight, rshade + 3);
    } else {
        bcolors[2] = *blocktype.color(biome, block.slight, block.blight, 2);
        bcolors[5] = *blocktype.color(biome, block.slight, block.blight, 5);
        bcolors[3] = *blocktype.color(biome, block.slight, block.blight, 3);
        bcolors[6] = *blocktype.color(biome, block.slight, block.blight, 6);
    }
    assert(bcolors@ =~= spec_block_colors(
        blocktypes@,
        *blocktype,
        *block,
        spec_nblock(nblocks@, 0),
        spec_nblock(nblocks@, 1),
        spec_nblock(nblocks@, 2),
        biome as int,
    ));
    bcolors
}

/// Where the pixel `(x, y)` of the footprint of the block at `(bx, by, bz)`
/// lies in an image `width` pixels wide, for a chunk whose tile starts `co`
/// pixels into the image: two pixels to the right for each step east and two
/// to the left for each step south, one pixel down for each step east or
/// south and three for each step down.
pub open spec fn spec_iso_offset(
    co: int,
    width: int,
    bx: int,
    by: int,
    bz: int,
    x: int,
    y: int,
) -> int {
    (co + ((bx + bz) * ISO_BLOCK_Y_MARGIN + (MAX_BLOCK_IN_CHUNK_Y - by) * ISO_BLOCK_SIDE_HEIGHT + y)
        * width + ISO_CHUNK_X_MARGIN + (bx - bz - 1) * ISO_BLOCK_X_MARGIN + x) * 4
}

/// Whether the footprints of all blocks inside `limits`, from the layer
/// `bottom` up to the layer below `top`, lie inside an image of `len` bytes.
pub open spec fn spec_iso_fits(
    len: int,
    co: int,
    width: int,
    limits: Edges<usize>,
    bottom: int,
    top: int,
) -> bool {
    forall|bx: int, by: int, bz: int, x: int, y: int|
        limits.w <= bx <= limits.e && limits.n <= bz <= limits.s && bottom <= by < top && 0 <= x
            < ISO_BLOCK_WIDTH && 0 <= y < ISO_BLOCK_HEIGHT ==> 0 <= #[trigger] spec_iso_offset(
            co,
            width,
            bx,
            by,
            bz,
            x,
            y,
        ) && spec_iso_offset(co, width, bx, by, bz, x, y) + 4 <= len
}

/// `pixels` after `color` has been laid under the pixel at `po`: an opaque
/// pixel stays as it is.
pub open spec fn spec_under_pixel(pixels: Seq<u8>, po: int, color: RGBA) -> Seq<u8> {
    if pixels[po + 3] == MAX_CHANNEL_VALUE {
        pixels
    } else {
        spec_put_pixel(pixels, po, spec_blend_alpha_color(spec_pixel_at(pixels, po), color))
    }
}

/// The block to the south or east as the colours of the block at index `bo3`
/// take it: the neighbour where the block is solid or waterlogged, and else
/// air without light.
pub open spec fn spec_side_block(neighbor: Block, blocktype: BlockType) -> Block {
    if blocktype.solid || blocktype.waterlogged {
        neighbor
    } else {
        Block { btype: 0, slight: 0, blight: 0 }
    }
}

/// The colours of the block at `(bx, by, bz)` for the digits of the shape of
/// `painted`, its own type or that of water.
pub open spec fn spec_iso_colors(
    chunk: Chunk,
    blocktypes: Seq<BlockType>,
    painted: BlockType,
    bx: int,
    by: int,
    bz: int,
    ymax: int,
) -> Seq<RGBA> {
    let bo3 = by * 256 + bz * 16 + bx;
    let blocktype = blocktypes[chunk.data.blocks[bo3] as int];
    spec_block_colors(
        blocktypes,
        painted,
        spec_block_at(*chunk.data, bo3),
        spec_t_block(chunk, by as usize, bo3 as usize, ymax as usize),
        spec_side_block(spec_s_block(chunk, bz as usize, bo3 as usize), blocktype),
        spec_side_block(spec_e_block(chunk, bx as usize, bo3 as usize), blocktype),
        chunk.data.biomes[bz * 16 + bx] as int,
    )
}

/// The colour that paints the pixel `(x, y)` of the footprint of the block
/// at `(bx, by, bz)`: that of the digit of the block's shape there, or,
/// where a waterlogged block's shape is blank, that of the digit of the shape
/// of water.
pub open spec fn spec_iso_paint(
    chunk: Chunk,
    blocktypes: Seq<BlockType>,
    water: BlockType,
    bx: int,
    by: int,
    bz: int,
    ymax: int,
    x: int,
    y: int,
) -> RGBA {
    let blocktype = blocktypes[chunk.data.blocks[by * 256 + bz * 16 + bx] as int];
    if blocktype.waterlogged && blocktype.shape[x][y] == 0 {
        spec_iso_colors(chunk, blocktypes, water, bx, by, bz, ymax)[water.shape[x][y] as int]
    } else {
        spec_iso_colors(chunk, blocktypes, blocktype, bx, by, bz, ymax)[blocktype.shape[x][y] as int]
    }
}

/// The first row of a block's footprint that is painted: the second where
/// the block is solid and lies directly above a block of its own type, so
/// that its top face stays hidden.
pub open spec fn spec_iso_first_row(
    chunk: Chunk,
    blocktypes: Seq<BlockType>,
    bx: int,
    by: int,
    bz: int,
) -> int {
    let bo3 = by * 256 + bz * 16 + bx;
    if by > 0 && chunk.data.blocks[bo3 - BLOCKS_IN_CHUNK_2D] == chunk.data.blocks[bo3]
        && blocktypes[chunk.data.blocks[bo3] as int].solid {
        ISO_BLOCK_Y_MARGIN as int
    } else {
        0
    }
}

/// The image after the first `count` pixels of the footprint of the block at
/// `(bx, by, bz)` have been painted, row by row.
pub open spec fn spec_iso_block(
    pixels: Seq<u8>,
    chunk: Chunk,
    blocktypes: Seq<BlockType>,
    water: BlockType,
    co: int,
    width: int,
    ymax: int,
    bx: int,
    by: int,
    bz: int,
    count: int,
) -> Seq<u8>
    decreases count,
{
    if count <= 0 {
        pixels
    } else {
        let painted = spec_iso_block(
            pixels,
            chunk,
            blocktypes,
            water,
            co,
            width,
            ymax,
            bx,
            by,
            bz,
            count - 1,
        );
        let x = (count - 1) % 4;
        let y = (count - 1) / 4;
        if y < spec_iso_first_row(chunk, blocktypes, bx, by, bz) {
            painted
        } else {
            spec_under_pixel(
                painted,
                spec_iso_offset(co, width, bx, by, bz, x, y),
                spec_iso_paint(chunk, blocktypes, water, bx, by, bz, ymax, x, y),
            )
        }
    }
}

/// The image after the block at `(bx, by, bz)` has been drawn: an empty block
/// leaves it as it is.
pub open spec fn spec_iso_layer(
    pixels: Seq<u8>,
    chunk: Chunk,
    blocktypes: Seq<BlockType>,
    water: BlockType,
    co: int,
    width: int,
    ymax: int,
    bx: int,
    by: int,
    bz: int,
) -> Seq<u8> {
    if blocktypes[chunk.data.blocks[by * 256 + bz * 16 + bx] as int].empty {
        pixels
    } else {
        spec_iso_block(pixels, chunk, blocktypes, water, co, width, ymax, bx, by, bz, 16)
    }
}

/// The image after the blocks of the column `(bx, bz)` have been drawn from
/// the layer `ymax` down to the layer `by`.
pub open spec fn spec_iso_column(
    pixels: Seq<u8>,
    chunk: Chunk,
    blocktypes: Seq<BlockType>,
    water: BlockType,
    co: int,
    width: int,
    ymax: int,
    bx: int,
    bz: int,
    by: int,
) -> Seq<u8>
    decreases ymax + 1 - by,
{
    if by > ymax {
        pixels
    } else {
        spec_iso_layer(
            spec_iso_column(pixels, chunk, blocktypes, water, co, width, ymax, bx, bz, by + 1),
            chunk,
            blocktypes,
            water,
            co,
            width,
            ymax,
            bx,
            by,
            bz,
        )
    }
}

/// The image after the columns of the row `bz` have been drawn from the
/// eastern limit back to the column `bx`, each from `ymax` down to `bottom`.
pub open spec fn spec_iso_row(
    pixels: Seq<u8>,
    chunk: Chunk,
    blocktypes: Seq<BlockType>,
    water: BlockType,
    co: int,
    width: int,
    limits: Edges<usize>,
    bottom: int,
    ymax: int,
    bz: int,
    bx: int,
) -> Seq<u8>
    decreases limits.e + 1 - bx,
{
    if bx > limits.e {
        pixels
    } else {
        spec_iso_column(
            spec_iso_row(
                pixels,
                chunk,
                blocktypes,
                water,
                co,
                width,
                limits,
                bottom,
                ymax,
                bz,
                bx + 1,
            ),
            chunk,
            blocktypes,
            water,
            co,
            width,
            ymax,
            bx,
            bz,
            bottom,
        )
    }
}

/// The image after the rows of a chunk have been drawn from the southern
/// limit back to the row `bz`, each from the eastern limit back to the
/// western.
pub open spec fn spec_iso_chunk(
    pixels: Seq<u8>,
    chunk: Chunk,
    blocktypes: Seq<BlockType>,
    water: BlockType,
    co: int,
    width: int,
    limits: Edges<usize>,
    bottom: int,
    ymax: int,
    bz: int,
) -> Seq<u8>
    decreases limits.s + 1 - bz,
{
    if bz > limits.s {
        pixels
    } else {
        spec_iso_row(
            spec_iso_chunk(
                pixels,
                chunk,
                blocktypes,
                water,
                co,
                width,
                limits,
                bottom,
                ymax,
                bz + 1,
            ),
            chunk,
            blocktypes,
            water,
            co,
            width,
            limits,
            bottom,
            ymax,
            bz,
            limits.w as int,
        )
    }
}

/// Lays `color` under the pixel at `po`.
fn under_pixel(pixels: &mut [u8], po: usize, color: RGBA)
    requires
        po + 4 <= old(pixels)@.len(),
    ensures
        final(pixels)@ == spec_under_pixel(old(pixels)@, po as int, color),
        final(pixels)@.len() == old(pixels)@.len(),
{
    if pixels[po + 3] == MAX_CHANNEL_VALUE {
        return ;
    }
    let top: RGBA = RGBA {
        r: pixels[po],
        g: pixels[po + 1],
        b: pixels[po + 2],
        a: pixels[po + 3],
    };
    let pcolor: RGBA = blend_alpha_color(&top, &color);
    put_pixel(pixels, po, pcolor);
}

/// Draws the block at `(bx, by, bz)`.
fn draw_block(
    pixels: &mut [u8],
    blocktypes: &[BlockType],
    water_blocktype: &BlockType,
    chunk: &Chunk,
    co: isize,
    width: usize,
    ymax: usize,
    bx: usize,
    by: usize,
    bz: usize,
)
    requires
        bx < BLOCKS_IN_CHUNK,
        bz < BLOCKS_IN_CHUNK,
        by <= ymax < BLOCKS_IN_CHUNK_Y,
        width <= 0x001f_ffff,
        spec_types_wf(blocktypes@),
        water_blocktype.wf(),
        spec_chunk_valid(*chunk, blocktypes@.len() as int),
        forall|x: int, y: int|
            0 <= x < ISO_BLOCK_WIDTH && 0 <= y < ISO_BLOCK_HEIGHT ==> 0 <= #[trigger] spec_iso_offset(
                co as int,
                width as int,
                bx as int,
                by as int,
                bz as int,
                x,
                y,
            ) && spec_iso_offset(co as int, width as int, bx as int, by as int, bz as int, x, y) + 4
                <= old(pixels)@.len(),
    ensures
        final(pixels)@.len() == old(pixels)@.len(),
        final(pixels)@ == spec_iso_layer(
            old(pixels)@,
            *chunk,
            blocktypes@,
            *water_blocktype,
            co as int,
            width as int,
            ymax as int,
            bx as int,
            by as int,
            bz as int,
        ),
{
    let bo2: usize = bz * BLOCKS_IN_CHUNK + bx;
    let bo3: usize = by * BLOCKS_IN_CHUNK_2D + bo2;
    let block: Block = chunk.get_block(&bo3);
    assert(chunk.data.blocks[bo3 as int] < blocktypes@.len());
    let blocktype: &BlockType = &blocktypes[block.btype as usize];
    if blocktype.empty {
        return ;
    }
    assert(blocktypes@[block.btype as int].wf());
    assert(chunk.data.biomes[bo2 as int] < BIOME_ARRAY_SIZE);
    let biome: usize = chunk.data.biomes[bo2] as usize;
    let tblock: Block = chunk.get_t_block(&by, &bo3, ymax);
    let side: bool = blocktype.solid || blocktype.waterlogged;
    let mut nblocks: Vec<Option<Block>> = Vec::new();
    nblocks.push(Some(tblock));
    nblocks.push(
        if side {
            Some(chunk.get_s_block(&bz, &bo3))
        } else {
            None
        },
    );
    nblocks.push(
        if side {
            Some(chunk.get_e_block(&bx, &bo3))
        } else {
            None
        },
    );
    let bcolors: [RGBA; 7] = get_block_colors(
        blocktypes,
        blocktype,
        &block,
        nblocks.as_slice(),
        biome,
    );
    let wcolors: [RGBA; 7] = if blocktype.waterlogged {
        get_block_colors(blocktypes, water_blocktype, &block, nblocks.as_slice(), biome)
    } else {
        bcolors
    };
    let skip_top: bool = by > 0 && chunk.data.blocks[bo3 - BLOCKS_IN_CHUNK_2D] == block.btype
        && blocktype.solid;
    let first: usize = if skip_top {
        ISO_BLOCK_Y_MARGIN
    } else {
        0
    };
    let bpx: usize = (ISO_CHUNK_X_MARGIN as isize + (bx as isize - bz as isize - 1)
        * ISO_BLOCK_X_MARGIN as isize) as usize;
    let bpy: usize = (bx + bz) * ISO_BLOCK_Y_MARGIN + (MAX_BLOCK_IN_CHUNK_Y - by)
        * ISO_BLOCK_SIDE_HEIGHT;
    let ghost before = pixels@;
    let ghost len = pixels@.len();
    proof {
        vstd::slice::axiom_spec_len(&*pixels);
    }
    let mut k: usize = 0;
    while k < 16
        invariant
            k <= 16,
            bx < BLOCKS_IN_CHUNK,
            bz < BLOCKS_IN_CHUNK,
            by <= ymax < BLOCKS_IN_CHUNK_Y,
            width <= 0x001f_ffff,
            bpx == ISO_CHUNK_X_MARGIN + (bx - bz - 1) * ISO_BLOCK_X_MARGIN,
            bpy == (bx + bz) * ISO_BLOCK_Y_MARGIN + (MAX_BLOCK_IN_CHUNK_Y - by)
                * ISO_BLOCK_SIDE_HEIGHT,
            bo3 == by * 256 + bz * 16 + bx,
            block.btype == chunk.data.blocks[bo3 as int],
            block.btype < blocktypes@.len(),
            *blocktype == blocktypes@[block.btype as int],
            blocktype.wf(),
            water_blocktype.wf(),
            first == spec_iso_first_row(*chunk, blocktypes@, bx as int, by as int, bz as int),
            bcolors@ == spec_iso_colors(
                *chunk,
                blocktypes@,
                *blocktype,
                bx as int,
                by as int,
                bz as int,
                ymax as int,
            ),
            blocktype.waterlogged ==> wcolors@ == spec_iso_colors(
                *chunk,
                blocktypes@,
                *water_blocktype,
                bx as int,
                by as int,
                bz as int,
                ymax as int,
            ),
            len == before.len(),
            len <= usize::MAX,
            pixels@.len() == before.len(),
            forall|x: int, y: int|
                0 <= x < ISO_BLOCK_WIDTH && 0 <= y < ISO_BLOCK_HEIGHT ==> 0 <= #[trigger] spec_iso_offset(
                    co as int,
                    width as int,
                    bx as int,
                    by as int,
                    bz as int,
                    x,
                    y,
                ) && spec_iso_offset(
                    co as int,
                    width as int,
                    bx as int,
                    by as int,
                    bz as int,
                    x,
                    y,
                ) + 4 <= before.len(),
            pixels@ == spec_iso_block(
                before,
                *chunk,
                blocktypes@,
                *water_blocktype,
                co as int,
                width as int,
                ymax as int,
                bx as int,
                by as int,
                bz as int,
                k as int,
            ),
        decreases 16 - k,
    {
        let x: usize = k % 4;
        let y: usize = k / 4;
        if y >= first {
            let ghost here = spec_iso_offset(
                co as int,
                width as int,
                bx as int,
                by as int,
                bz as int,
                x as int,
                y as int,
            );
            assert(0 <= here && here + 4 <= len);
            assert((bpy + y) * width <= 800 * 0x001f_ffff) by (nonlinear_arith)
                requires
                    bpy + y <= 800,
                    width <= 0x001f_ffff,
            ;
            let within: usize = (bpy + y) * width + bpx + x;
            assert(here == (co + within) * 4);
            let pixel: isize = co + within as isize;
            let po: usize = pixel as usize * 4;
            assert(blocktype.shape[x as int][y as int] < 7);
            assert(water_blocktype.shape[x as int][y as int] < 7);
            let digit: usize = blocktype.shape[x][y];
            let color: RGBA = if blocktype.waterlogged && digit == 0 {
                wcolors[water_blocktype.shape[x][y]]
            } else {
                bcolors[digit]
            };
            under_pixel(pixels, po, color);
        }
        k = k + 1;
    }
}

/// Draws the blocks of the column `(bx, bz)` from the top layer down.
fn draw_column(
    pixels: &mut [u8],
    blocktypes: &[BlockType],
    water_blocktype: &BlockType,
    chunk: &Chunk,
    co: isize,
    width: usize,
    cblimits: &Edges<usize>,
    ylimits: &Range<usize>,
    bx: usize,
    bz: usize,
)
    requires
        cblimits.e < BLOCKS_IN_CHUNK,
        cblimits.s < BLOCKS_IN_CHUNK,
        cblimits.w <= bx <= cblimits.e,
        cblimits.n <= bz <= cblimits.s,
        ylimits.start <= ylimits.end <= BLOCKS_IN_CHUNK_Y,
        width <= 0x001f_ffff,
        spec_types_wf(blocktypes@),
        water_blocktype.wf(),
        spec_chunk_valid(*chunk, blocktypes@.len() as int),
        spec_iso_fits(
            old(pixels)@.len() as int,
            co as int,
            width as int,
            *cblimits,
            ylimits.start as int,
            ylimits.end as int,
        ),
    ensures
        final(pixels)@.len() == old(pixels)@.len(),
        final(pixels)@ == spec_iso_column(
            old(pixels)@,
            *chunk,
            blocktypes@,
            *water_blocktype,
            co as int,
            width as int,
            ylimits.end - 1,
            bx as int,
            bz as int,
            ylimits.start as int,
        ),
{
    let ghost before = pixels@;
    let mut by: usize = ylimits.end;
    while by > ylimits.start
        invariant
            cblimits.e < BLOCKS_IN_CHUNK,
            cblimits.s < BLOCKS_IN_CHUNK,
            cblimits.w <= bx <= cblimits.e,
            cblimits.n <= bz <= cblimits.s,
            ylimits.start <= by <= ylimits.end <= BLOCKS_IN_CHUNK_Y,
            width <= 0x001f_ffff,
            spec_types_wf(blocktypes@),
            water_blocktype.wf(),
            spec_chunk_valid(*chunk, blocktypes@.len() as int),
            pixels@.len() == before.len(),
            spec_iso_fits(
                before.len() as int,
                co as int,
                width as int,
                *cblimits,
                ylimits.start as int,
                ylimits.end as int,
            ),
            pixels@ == spec_iso_column(
                before,
                *chunk,
                blocktypes@,
                *water_blocktype,
                co as int,
                width as int,
                ylimits.end - 1,
                bx as int,
                bz as int,
                by as int,
            ),
        decreases by,
    {
        by = by - 1;
        draw_block(
            pixels,
            blocktypes,
            water_blocktype,
            chunk,
            co,
            width,
            ylimits.end - 1,
            bx,
            by,
            bz,
        );
    }
}

/// Draws the tile of a chunk in isometric view into an image `width` pixels
/// wide: the blocks inside `cblimits` and `ylimits`, from the south-eastern
/// column back to the north-western and in each column from the top down,
/// each block laid under what is already drawn. The tile starts `co` pixels
/// into the image.
pub fn draw_chunk(
    pixels: &mut [u8],
    blocktypes: &[BlockType],
    water_blocktype: &BlockType,
    chunk: &Chunk,
    co: &isize,
    width: &usize,
    cblimits: &Edges<usize>,
    ylimits: &Range<usize>,
)
    requires
        cblimits.e < BLOCKS_IN_CHUNK,
        cblimits.s < BLOCKS_IN_CHUNK,
        ylimits.start <= ylimits.end <= BLOCKS_IN_CHUNK_Y,
        *width <= 0x001f_ffff,
        spec_types_wf(blocktypes@),
        water_blocktype.wf(),
        spec_chunk_valid(*chunk, blocktypes@.len() as int),
        spec_iso_fits(
            old(pixels)@.len() as int,
            *co as int,
            *width as int,
            *cblimits,
            ylimits.start as int,
            ylimits.end as int,
        ),
    ensures
        final(pixels)@.len() == old(pixels)@.len(),
        final(pixels)@ == spec_iso_chunk(
            old(pixels)@,
            *chunk,
            blocktypes@,
            *water_blocktype,
            *co as int,
            *width as int,
            *cblimits,
            ylimits.start as int,
            ylimits.end - 1,
            cblimits.n as int,
        ),
{
    let ghost before = pixels@;
    if cblimits.n > cblimits.s {
        return ;
    }
    let mut bz: usize = cblimits.s + 1;
    while bz > cblimits.n
        invariant
            cblimits.e < BLOCKS_IN_CHUNK,
            cblimits.s < BLOCKS_IN_CHUNK,
            cblimits.n <= bz <= cblimits.s + 1,
            ylimits.start <= ylimits.end <= BLOCKS_IN_CHUNK_Y,
            *width <= 0x001f_ffff,
            spec_types_wf(blocktypes@),
            water_blocktype.wf(),
            spec_chunk_valid(*chunk, blocktypes@.len() as int),
            pixels@.len() == before.len(),
            spec_iso_fits(
                before.len() as int,
                *co as int,
                *width as int,
                *cblimits,
                ylimits.start as int,
                ylimits.end as int,
            ),
            pixels@ == spec_iso_chunk(
                before,
                *chunk,
                blocktypes@,
                *water_blocktype,
                *co as int,
                *width as int,
                *cblimits,
                ylimits.start as int,
                ylimits.end - 1,
                bz as int,
            ),
        decreases bz,
    {
        bz = bz - 1;
        let ghost row_before = pixels@;
        if cblimits.w <= cblimits.e {
            let mut bx: usize = cblimits.e + 1;
            while bx > cblimits.w
                invariant
                    cblimits.e < BLOCKS_IN_CHUNK,
                    cblimits.s < BLOCKS_IN_CHUNK,
                    cblimits.n <= bz <= cblimits.s,
                    cblimits.w <= bx <= cblimits.e + 1,
                    ylimits.start <= ylimits.end <= BLOCKS_IN_CHUNK_Y,
                    *width <= 0x001f_ffff,
                    spec_types_wf(blocktypes@),
                    water_blocktype.wf(),
                    spec_chunk_valid(*chunk, blocktypes@.len() as int),
                    pixels@.len() == before.len(),
                    spec_iso_fits(
                        before.len() as int,
                        *co as int,
                        *width as int,
                        *cblimits,
                        ylimits.start as int,
                        ylimits.end as int,
                    ),
                    pixels@ == spec_iso_row(
                        row_before,
                        *chunk,
                        blocktypes@,
                        *water_blocktype,
                        *co as int,
                        *width as int,
                        *cblimits,
                        ylimits.start as int,
                        ylimits.end - 1,
                        bz as int,
                        bx as int,
                    ),
                decreases bx,
            {
                bx = bx - 1;
                draw_column(
                    pixels,
                    blocktypes,
                    water_blocktype,
                    chunk,
                    *co,
                    *width,
                    cblimits,
                    ylimits,
                    bx,
                    bz,
                );
            }
        }
    }
}

/// Whether the pixel at `q` of `pixels` is opaque and the same in `out`, an
/// image of the same size.
pub open spec fn spec_pixel_kept(out: Seq<u8>, pixels: Seq<u8>, q: int) -> bool {
    &&& out.len() == pixels.len()
    &&& pixels[q + 3] == MAX_CHANNEL_VALUE
    &&& out[q] == pixels[q]
    &&& out[q + 1] == pixels[q + 1]
    &&& out[q + 2] == pixels[q + 2]
    &&& out[q + 3] == pixels[q + 3]
}

/// Laying a colour under a pixel leaves an opaque pixel as it is.
proof fn lemma_under_pixel_keeps(pixels: Seq<u8>, po: int, color: RGBA, q: int)
    requires
        po % 4 == 0,
        q % 4 == 0,
        0 <= po,
        po + 4 <= pixels.len(),
        0 <= q,
        q + 4 <= pixels.len(),
        pixels[q + 3] == MAX_CHANNEL_VALUE,
    ensures
        spec_pixel_kept(spec_under_pixel(pixels, po, color), pixels, q),
{
}

/// Drawing pixels of a block's footprint leaves an opaque pixel as it is.
proof fn lemma_iso_block_keeps(
    pixels: Seq<u8>,
    chunk: Chunk,
    blocktypes: Seq<BlockType>,
    water: BlockType,
    co: int,
    width: int,
    ymax: int,
    bx: int,
    by: int,
    bz: int,
    count: int,
    q: int,
)
    requires
        0 <= count <= 16,
        q % 4 == 0,
        0 <= q,
        q + 4 <= pixels.len(),
        pixels[q + 3] == MAX_CHANNEL_VALUE,
        forall|x: int, y: int|
            0 <= x < ISO_BLOCK_WIDTH && 0 <= y < ISO_BLOCK_HEIGHT ==> 0 <= #[trigger] spec_iso_offset(
                co,
                width,
                bx,
                by,
                bz,
                x,
                y,
            ) && spec_iso_offset(co, width, bx, by, bz, x, y) + 4 <= pixels.len(),
    ensures
        spec_pixel_kept(
            spec_iso_block(pixels, chunk, blocktypes, water, co, width, ymax, bx, by, bz, count),
            pixels,
            q,
        ),
    decreases count,
{
    if count > 0 {
        lemma_iso_block_keeps(
            pixels,
            chunk,
            blocktypes,
            water,
            co,
            width,
            ymax,
            bx,
            by,
            bz,
            count - 1,
            q,
        );
        let painted = spec_iso_block(
            pixels,
            chunk,
            blocktypes,
            water,
            co,
            width,
            ymax,
            bx,
            by,
            bz,
            count - 1,
        );
        let x = (count - 1) % 4;
        let y = (count - 1) / 4;
        let po = spec_iso_offset(co, width, bx, by, bz, x, y);
        assert(0 <= po && po + 4 <= pixels.len());
        lemma_under_pixel_keeps(
            painted,
            po,
            spec_iso_paint(chunk, blocktypes, water, bx, by, bz, ymax, x, y),
            q,
        );
    }
}

/// Drawing the blocks of a column leaves an opaque pixel as it is.
proof fn lemma_iso_column_keeps(
    pixels: Seq<u8>,
    chunk: Chunk,
    blocktypes: Seq<BlockType>,
    water: BlockType,
    co: int,
    width: int,
    limits: Edges<usize>,
    bottom: int,
    ymax: int,
    bx: int,
    bz: int,
    by: int,
    q: int,
)
    requires
        limits.w <= bx <= limits.e,
        limits.n <= bz <= limits.s,
        bottom <= by <= ymax + 1,
        q % 4 == 0,
        0 <= q,
        q + 4 <= pixels.len(),
        pixels[q + 3] == MAX_CHANNEL_VALUE,
        spec_iso_fits(pixels.len() as int, co, width, limits, bottom, ymax + 1),
    ensures
        spec_pixel_kept(
            spec_iso_column(pixels, chunk, blocktypes, water, co, width, ymax, bx, bz, by),
            pixels,
            q,
        ),
    decreases ymax + 1 - by,
{
    if by <= ymax {
        lemma_iso_column_keeps(
            pixels,
            chunk,
            blocktypes,
            water,
            co,
            width,
            limits,
            bottom,
            ymax,
            bx,
            bz,
            by + 1,
            q,
        );
        let above = spec_iso_column(
            pixels,
            chunk,
            blocktypes,
            water,
            co,
            width,
            ymax,
            bx,
            bz,
            by + 1,
        );
        lemma_iso_block_keeps(above, chunk, blocktypes, water, co, width, ymax, bx, by, bz, 16, q);
    }
}

/// Drawing the columns of a row leaves an opaque pixel as it is.
proof fn lemma_iso_row_keeps(
    pixels: Seq<u8>,
    chunk: Chunk,
    blocktypes: Seq<BlockType>,
    water: BlockType,
    co: int,
    width: int,
    limits: Edges<usize>,
    bottom: int,
    ymax: int,
    bz: int,
    bx: int,
    q: int,
)
    requires
        limits.w <= bx,
        limits.n <= bz <= limits.s,
        bottom <= ymax + 1,
        q % 4 == 0,
        0 <= q,
        q + 4 <= pixels.len(),
        pixels[q + 3] == MAX_CHANNEL_VALUE,
        spec_iso_fits(pixels.len() as int, co, width, limits, bottom, ymax + 1),
    ensures
        spec_pixel_kept(
            spec_iso_row(pixels, chunk, blocktypes, water, co, width, limits, bottom, ymax, bz, bx),
            pixels,
            q,
        ),
    decreases limits.e + 1 - bx,
{
    if bx <= limits.e {
        lemma_iso_row_keeps(
            pixels,
            chunk,
            blocktypes,
            water,
            co,
            width,
            limits,
            bottom,
            ymax,
            bz,
            bx + 1,
            q,
        );
        let east = spec_iso_row(
            pixels,
            chunk,
            blocktypes,
            water,
            co,
            width,
            limits,
            bottom,
            ymax,
            bz,
            bx + 1,
        );
        lemma_iso_column_keeps(
            east,
            chunk,
            blocktypes,
            water,
            co,
            width,
            limits,
            bottom,
            ymax,
            bx,
            bz,
            bottom,
            q,
        );
    }
}

/// Drawing the tile of a chunk in isometric view leaves every opaque pixel
/// of the image as it is: what lies in front is drawn first, and what is
/// drawn later lies behind it.
pub proof fn lemma_iso_chunk_keeps(
    pixels: Seq<u8>,
    chunk: Chunk,
    blocktypes: Seq<BlockType>,
    water: BlockType,
    co: int,
    width: int,
    limits: Edges<usize>,
    bottom: int,
    ymax: int,
    bz: int,
    q: int,
)
    requires
        limits.n <= bz,
        bottom <= ymax + 1,
        q % 4 == 0,
        0 <= q,
        q + 4 <= pixels.len(),
        pixels[q + 3] == MAX_CHANNEL_VALUE,
        spec_iso_fits(pixels.len() as int, co, width, limits, bottom, ymax + 1),
    ensures
        spec_pixel_kept(
            spec_iso_chunk(pixels, chunk, blocktypes, water, co, width, limits, bottom, ymax, bz),
            pixels,
            q,
        ),
    decreases limits.s + 1 - bz,
{
    if bz <= limits.s {
        lemma_iso_chunk_keeps(
            pixels,
            chunk,
            blocktypes,
            water,
            co,
            width,
            limits,
            bottom,
            ymax,
            bz + 1,
            q,
        );
        let south = spec_iso_chunk(
            pixels,
            chunk,
            blocktypes,
            water,
            co,
            width,
            limits,
            bottom,
            ymax,
            bz + 1,
        );
        lemma_iso_row_keeps(
            south,
            chunk,
            blocktypes,
            water,
            co,
            width,
            limits,
            bottom,
            ymax,
            bz,
            limits.w as int,
            q,
        );
    }
}

/// Whether the byte `p` of an image lies in the footprint of the block at
/// `(bx, by, bz)`: four pixels by four.
pub open spec fn spec_in_iso_block(p: int, co: int, width: int, bx: int, by: int, bz: int) -> bool {
    exists|x: int, y: int|
        0 <= x < ISO_BLOCK_WIDTH && 0 <= y < ISO_BLOCK_HEIGHT && #[trigger] spec_iso_offset(
            co,
            width,
            bx,
            by,
            bz,
            x,
            y,
        ) <= p < spec_iso_offset(co, width, bx, by, bz, x, y) + 4
}

/// Whether the byte `p` of an image lies in the footprint of a block of a
/// chunk that is drawn: one inside `limits`, between the layers `bottom` and
/// `ymax`, that is not empty.
pub open spec fn spec_in_iso_tile(
    p: int,
    chunk: Chunk,
    blocktypes: Seq<BlockType>,
    co: int,
    width: int,
    limits: Edges<usize>,
    bottom: int,
    ymax: int,
) -> bool {
    exists|bx: int, by: int, bz: int|
        limits.w <= bx <= limits.e && limits.n <= bz <= limits.s && bottom <= by <= ymax
            && !blocktypes[chunk.data.blocks[by * 256 + bz * 16 + bx] as int].empty
            && #[trigger] spec_in_iso_block(p, co, width, bx, by, bz)
}

/// Drawing pixels of a block's footprint leaves what lies outside the
/// footprint as it is.
proof fn lemma_iso_block_frame(
    pixels: Seq<u8>,
    chunk: Chunk,
    blocktypes: Seq<BlockType>,
    water: BlockType,
    co: int,
    width: int,
    ymax: int,
    bx: int,
    by: int,
    bz: int,
    count: int,
    p: int,
)
    requires
        0 <= count <= 16,
        0 <= p < pixels.len(),
        !spec_in_iso_block(p, co, width, bx, by, bz),
        forall|x: int, y: int|
            0 <= x < ISO_BLOCK_WIDTH && 0 <= y < ISO_BLOCK_HEIGHT ==> 0 <= #[trigger] spec_iso_offset(
                co,
                width,
                bx,
                by,
                bz,
                x,
                y,
            ) && spec_iso_offset(co, width, bx, by, bz, x, y) + 4 <= pixels.len(),
    ensures
        spec_iso_block(pixels, chunk, blocktypes, water, co, width, ymax, bx, by, bz, count).len()
            == pixels.len(),
        spec_iso_block(pixels, chunk, blocktypes, water, co, width, ymax, bx, by, bz, count)[p]
            == pixels[p],
    decreases count,
{
    if count > 0 {
        lemma_iso_block_frame(
            pixels,
            chunk,
            blocktypes,
            water,
            co,
            width,
            ymax,
            bx,
            by,
            bz,
            count - 1,
            p,
        );
        let x = (count - 1) % 4;
        let y = (count - 1) / 4;
        let po = spec_iso_offset(co, width, bx, by, bz, x, y);
        assert(0 <= po && po + 4 <= pixels.len());
        assert(!(po <= p < po + 4));
    }
}

/// Drawing the blocks of a column leaves what lies outside their footprints
/// as it is.
proof fn lemma_iso_column_frame(
    pixels: Seq<u8>,
    chunk: Chunk,
    blocktypes: Seq<BlockType>,
    water: BlockType,
    co: int,
    width: int,
    limits: Edges<usize>,
    bottom: int,
    ymax: int,
    bx: int,
    bz: int,
    by: int,
    p: int,
)
    requires
        limits.w <= bx <= limits.e,
        limits.n <= bz <= limits.s,
        bottom <= by <= ymax + 1,
        0 <= p < pixels.len(),
        !spec_in_iso_tile(p, chunk, blocktypes, co, width, limits, bottom, ymax),
        spec_iso_fits(pixels.len() as int, co, width, limits, bottom, ymax + 1),
    ensures
        spec_iso_column(pixels, chunk, blocktypes, water, co, width, ymax, bx, bz, by).len()
            == pixels.len(),
        spec_iso_column(pixels, chunk, blocktypes, water, co, width, ymax, bx, bz, by)[p]
            == pixels[p],
    decreases ymax + 1 - by,
{
    if by <= ymax {
        lemma_iso_column_frame(
            pixels,
            chunk,
            blocktypes,
            water,
            co,
            width,
            limits,
            bottom,
            ymax,
            bx,
            bz,
            by + 1,
            p,
        );
        let above = spec_iso_column(
            pixels,
            chunk,
            blocktypes,
            water,
            co,
            width,
            ymax,
            bx,
            bz,
            by + 1,
        );
        if !blocktypes[chunk.data.blocks[by * 256 + bz * 16 + bx] as int].empty {
            assert(!spec_in_iso_block(p, co, width, bx, by, bz));
            lemma_iso_block_frame(
                above,
                chunk,
                blocktypes,
                water,
                co,
                width,
                ymax,
                bx,
                by,
                bz,
                16,
                p,
            );
        }
    }
}

/// Drawing the columns of a row leaves what lies outside the footprints of
/// their blocks as it is.
proof fn lemma_iso_row_frame(
    pixels: Seq<u8>,
    chunk: Chunk,
    blocktypes: Seq<BlockType>,
    water: BlockType,
    co: int,
    width: int,
    limits: Edges<usize>,
    bottom: int,
    ymax: int,
    bz: int,
    bx: int,
    p: int,
)
    requires
        limits.w <= bx,
        limits.n <= bz <= limits.s,
        bottom <= ymax + 1,
        0 <= p < pixels.len(),
        !spec_in_iso_tile(p, chunk, blocktypes, co, width, limits, bottom, ymax),
        spec_iso_fits(pixels.len() as int, co, width, limits, bottom, ymax + 1),
    ensures
        spec_iso_row(pixels, chunk, blocktypes, water, co, width, limits, bottom, ymax, bz, bx).len()
            == pixels.len(),
        spec_iso_row(pixels, chunk, blocktypes, water, co, width, limits, bottom, ymax, bz, bx)[p]
            == pixels[p],
    decreases limits.e + 1 - bx,
{
    if bx <= limits.e {
        lemma_iso_row_frame(
            pixels,
            chunk,
            blocktypes,
            water,
            co,
            width,
            limits,
            bottom,
            ymax,
            bz,
            bx + 1,
            p,
        );
        let east = spec_iso_row(
            pixels,
            chunk,
            blocktypes,
            water,
            co,
            width,
            limits,
            bottom,
            ymax,
            bz,
            bx + 1,
        );
        lemma_iso_column_frame(
            east,
            chunk,
            blocktypes,
            water,
            co,
            width,
            limits,
            bottom,
            ymax,
            bx,
            bz,
            bottom,
            p,
        );
    }
}

/// Drawing the tile of a chunk in isometric view changes only the
/// footprints of the chunk's blocks that are drawn: every byte of the image
/// outside them is as it was, and the image keeps its size.
pub proof fn lemma_iso_chunk_frame(
    pixels: Seq<u8>,
    chunk: Chunk,
    blocktypes: Seq<BlockType>,
    water: BlockType,
    co: int,
    width: int,
    limits: Edges<usize>,
    bottom: int,
    ymax: int,
    bz: int,
    p: int,
)
    requires
        limits.n <= bz,
        bottom <= ymax + 1,
        0 <= p < pixels.len(),
        !spec_in_iso_tile(p, chunk, blocktypes, co, width, limits, bottom, ymax),
        spec_iso_fits(pixels.len() as int, co, width, limits, bottom, ymax + 1),
    ensures
        spec_iso_chunk(pixels, chunk, blocktypes, water, co, width, limits, bottom, ymax, bz).len()
            == pixels.len(),
        spec_iso_chunk(pixels, chunk, blocktypes, water, co, width, limits, bottom, ymax, bz)[p]
            == pixels[p],
    decreases limits.s + 1 - bz,
{
    if bz <= limits.s {
        lemma_iso_chunk_frame(
            pixels,
            chunk,
            blocktypes,
            water,
            co,
            width,
            limits,
            bottom,
            ymax,
            bz + 1,
            p,
        );
        let south = spec_iso_chunk(
            pixels,
            chunk,
            blocktypes,
            water,
            co,
            width,
            limits,
            bottom,
            ymax,
            bz + 1,
        );
        lemma_iso_row_frame(
            south,
            chunk,
            blocktypes,
            water,
            co,
            width,
            limits,
            bottom,
            ymax,
            bz,
            limits.w as int,
            p,
        );
    }
}

/// Whether the pixel whose first byte lies at `q` is the same in `a` and
/// `b`.
pub open spec fn spec_same_pixel(a: Seq<u8>, b: Seq<u8>, q: int) -> bool {
    a[q] == b[q] && a[q + 1] == b[q + 1] && a[q + 2] == b[q + 2] && a[q + 3] == b[q + 3]
}

/// Whether no block of a chunk that is drawn, but the one at
/// `(bx, by, bz)`, has a pixel of its footprint at `q`.
pub open spec fn spec_iso_lone(
    q: int,
    chunk: Chunk,
    blocktypes: Seq<BlockType>,
    co: int,
    width: int,
    limits: Edges<usize>,
    bottom: int,
    ymax: int,
    bx: int,
    by: int,
    bz: int,
) -> bool {
    forall|ax: int, ay: int, az: int, x: int, y: int|
        limits.w <= ax <= limits.e && limits.n <= az <= limits.s && bottom <= ay <= ymax && 0 <= x
            < ISO_BLOCK_WIDTH && 0 <= y < ISO_BLOCK_HEIGHT && !blocktypes[chunk.data.blocks[ay * 256
            + az * 16 + ax] as int].empty && (ax != bx || ay != by || az != bz)
            ==> #[trigger] spec_iso_offset(co, width, ax, ay, az, x, y) != q
}

/// The image after the pixel `(x, y)` of the footprint of the block at
/// `(bx, by, bz)` has been painted: the block's colour for that pixel is
/// laid under what the image holds there, unless the pixel belongs to a top
/// face that stays hidden.
pub open spec fn spec_iso_painted(
    pixels: Seq<u8>,
    chunk: Chunk,
    blocktypes: Seq<BlockType>,
    water: BlockType,
    co: int,
    width: int,
    ymax: int,
    bx: int,
    by: int,
    bz: int,
    x: int,
    y: int,
) -> Seq<u8> {
    if y < spec_iso_first_row(chunk, blocktypes, bx, by, bz) {
        pixels
    } else {
        spec_under_pixel(
            pixels,
            spec_iso_offset(co, width, bx, by, bz, x, y),
            spec_iso_paint(chunk, blocktypes, water, bx, by, bz, ymax, x, y),
        )
    }
}

/// Painting a pixel of a footprint into two images that hold the same there
/// leaves them the same there.
proof fn lemma_iso_painted_same(
    a: Seq<u8>,
    b: Seq<u8>,
    chunk: Chunk,
    blocktypes: Seq<BlockType>,
    water: BlockType,
    co: int,
    width: int,
    ymax: int,
    bx: int,
    by: int,
    bz: int,
    x: int,
    y: int,
)
    requires
        a.len() == b.len(),
        0 <= spec_iso_offset(co, width, bx, by, bz, x, y),
        spec_iso_offset(co, width, bx, by, bz, x, y) + 4 <= a.len(),
        spec_same_pixel(a, b, spec_iso_offset(co, width, bx, by, bz, x, y)),
    ensures
        spec_same_pixel(
            spec_iso_painted(a, chunk, blocktypes, water, co, width, ymax, bx, by, bz, x, y),
            spec_iso_painted(b, chunk, blocktypes, water, co, width, ymax, bx, by, bz, x, y),
            spec_iso_offset(co, width, bx, by, bz, x, y),
        ),
{
}

/// Laying a colour under one pixel leaves another pixel as it is.
proof fn lemma_under_pixel_apart(pixels: Seq<u8>, po: int, color: RGBA, q: int)
    requires
        po % 4 == 0,
        q % 4 == 0,
        po != q,
        0 <= po,
        po + 4 <= pixels.len(),
        0 <= q,
        q + 4 <= pixels.len(),
    ensures
        spec_under_pixel(pixels, po, color).len() == pixels.len(),
        spec_same_pixel(spec_under_pixel(pixels, po, color), pixels, q),
{
}

/// The pixels of a block's footprint lie apart.
proof fn lemma_iso_footprint_apart(
    co: int,
    width: int,
    bx: int,
    by: int,
    bz: int,
    x1: int,
    y1: int,
    x2: int,
    y2: int,
)
    requires
        width >= 4,
        0 <= x1 < 4,
        0 <= x2 < 4,
        x1 != x2 || y1 != y2,
    ensures
        spec_iso_offset(co, width, bx, by, bz, x1, y1) != spec_iso_offset(
            co,
            width,
            bx,
            by,
            bz,
            x2,
            y2,
        ),
{
    let base = (bx + bz) * ISO_BLOCK_Y_MARGIN + (MAX_BLOCK_IN_CHUNK_Y - by) * ISO_BLOCK_SIDE_HEIGHT;
    assert((base + y1) * width + x1 != (base + y2) * width + x2) by (nonlinear_arith)
        requires
            width >= 4,
            0 <= x1 < 4,
            0 <= x2 < 4,
            x1 != x2 || y1 != y2,
    ;
}

/// After the first `count` pixels of a block's footprint have been painted,
/// the pixel `(x, y)` of the footprint holds what painting it alone gives
/// where it is among them, and is as it was where it is not.
proof fn lemma_iso_block_paints(
    pixels: Seq<u8>,
    chunk: Chunk,
    blocktypes: Seq<BlockType>,
    water: BlockType,
    co: int,
    width: int,
    ymax: int,
    bx: int,
    by: int,
    bz: int,
    count: int,
    x: int,
    y: int,
)
    requires
        0 <= count <= 16,
        0 <= x < 4,
        0 <= y < 4,
        width >= 4,
        forall|i: int, j: int|
            0 <= i < ISO_BLOCK_WIDTH && 0 <= j < ISO_BLOCK_HEIGHT ==> 0 <= #[trigger] spec_iso_offset(
                co,
                width,
                bx,
                by,
                bz,
                i,
                j,
            ) && spec_iso_offset(co, width, bx, by, bz, i, j) + 4 <= pixels.len(),
    ensures
        spec_iso_block(pixels, chunk, blocktypes, water, co, width, ymax, bx, by, bz, count).len()
            == pixels.len(),
        count > y * 4 + x ==> spec_same_pixel(
            spec_iso_block(pixels, chunk, blocktypes, water, co, width, ymax, bx, by, bz, count),
            spec_iso_painted(pixels, chunk, blocktypes, water, co, width, ymax, bx, by, bz, x, y),
            spec_iso_offset(co, width, bx, by, bz, x, y),
        ),
        count <= y * 4 + x ==> spec_same_pixel(
            spec_iso_block(pixels, chunk, blocktypes, water, co, width, ymax, bx, by, bz, count),
            pixels,
            spec_iso_offset(co, width, bx, by, bz, x, y),
        ),
    decreases count,
{
    if count > 0 {
        lemma_iso_block_paints(
            pixels,
            chunk,
            blocktypes,
            water,
            co,
            width,
            ymax,
            bx,
            by,
            bz,
            count - 1,
            x,
            y,
        );
        let prev = spec_iso_block(
            pixels,
            chunk,
            blocktypes,
            water,
            co,
            width,
            ymax,
            bx,
            by,
            bz,
            count - 1,
        );
        let i = (count - 1) % 4;
        let j = (count - 1) / 4;
        let po = spec_iso_offset(co, width, bx, by, bz, i, j);
        let q = spec_iso_offset(co, width, bx, by, bz, x, y);
        assert(0 <= po && po + 4 <= pixels.len());
        assert(0 <= q && q + 4 <= pixels.len());
        if j >= spec_iso_first_row(chunk, blocktypes, bx, by, bz) {
            let color = spec_iso_paint(chunk, blocktypes, water, bx, by, bz, ymax, i, j);
            if i == x && j == y {
                lemma_iso_painted_same(
                    prev,
                    pixels,
                    chunk,
                    blocktypes,
                    water,
                    co,
                    width,
                    ymax,
                    bx,
                    by,
                    bz,
                    x,
                    y,
                );
            } else {
                lemma_iso_footprint_apart(co, width, bx, by, bz, i, j, x, y);
                lemma_under_pixel_apart(prev, po, color, q);
            }
        }
    }
}

/// Drawing a block leaves a pixel outside its footprint as it is.
proof fn lemma_iso_block_apart(
    pixels: Seq<u8>,
    chunk: Chunk,
    blocktypes: Seq<BlockType>,
    water: BlockType,
    co: int,
    width: int,
    ymax: int,
    bx: int,
    by: int,
    bz: int,
    count: int,
    q: int,
)
    requires
        0 <= count <= 16,
        q % 4 == 0,
        0 <= q,
        q + 4 <= pixels.len(),
        forall|i: int, j: int|
            0 <= i < ISO_BLOCK_WIDTH && 0 <= j < ISO_BLOCK_HEIGHT ==> 0 <= #[trigger] spec_iso_offset(
                co,
                width,
                bx,
                by,
                bz,
                i,
                j,
            ) && spec_iso_offset(co, width, bx, by, bz, i, j) + 4 <= pixels.len()
                && spec_iso_offset(co, width, bx, by, bz, i, j) != q,
    ensures
        spec_iso_block(pixels, chunk, blocktypes, water, co, width, ymax, bx, by, bz, count).len()
            == pixels.len(),
        spec_same_pixel(
            spec_iso_block(pixels, chunk, blocktypes, water, co, width, ymax, bx, by, bz, count),
            pixels,
            q,
        ),
    decreases count,
{
    if count > 0 {
        lemma_iso_block_apart(
            pixels,
            chunk,
            blocktypes,
            water,
            co,
            width,
            ymax,
            bx,
            by,
            bz,
            count - 1,
            q,
        );
        let prev = spec_iso_block(
            pixels,
            chunk,
            blocktypes,
            water,
            co,
            width,
            ymax,
            bx,
            by,
            bz,
            count - 1,
        );
        let i = (count - 1) % 4;
        let j = (count - 1) / 4;
        let po = spec_iso_offset(co, width, bx, by, bz, i, j);
        assert(0 <= po && po + 4 <= pixels.len() && po != q);
        lemma_under_pixel_apart(
            prev,
            po,
            spec_iso_paint(chunk, blocktypes, water, bx, by, bz, ymax, i, j),
            q,
        );
    }
}

/// Whether the block at `(bx, by, bz)` can be the only one to paint its
/// pixel `(x, y)`: it is drawn, its pixel lies in an image of `len` bytes at
/// least four pixels wide, and no other block that is drawn has a pixel
/// there.
pub open spec fn spec_iso_alone(
    len: int,
    chunk: Chunk,
    blocktypes: Seq<BlockType>,
    co: int,
    width: int,
    limits: Edges<usize>,
    bottom: int,
    ymax: int,
    bx: int,
    by: int,
    bz: int,
    x: int,
    y: int,
) -> bool {
    &&& width >= 4
    &&& 0 <= x < ISO_BLOCK_WIDTH
    &&& 0 <= y < ISO_BLOCK_HEIGHT
    &&& limits.w <= bx <= limits.e
    &&& limits.n <= bz <= limits.s
    &&& bottom <= by <= ymax
    &&& !blocktypes[chunk.data.blocks[by * 256 + bz * 16 + bx] as int].empty
    &&& spec_iso_fits(len, co, width, limits, bottom, ymax + 1)
    &&& spec_iso_lone(
        spec_iso_offset(co, width, bx, by, bz, x, y),
        chunk,
        blocktypes,
        co,
        width,
        limits,
        bottom,
        ymax,
        bx,
        by,
        bz,
    )
}

/// After the blocks of a column have been drawn down to the layer `from`,
/// a pixel that one block alone paints holds what that block lays there
/// where the block is among them, and is as it was where it is not.
proof fn lemma_iso_column_paints(
    pixels: Seq<u8>,
    chunk: Chunk,
    blocktypes: Seq<BlockType>,
    water: BlockType,
    co: int,
    width: int,
    limits: Edges<usize>,
    bottom: int,
    ymax: int,
    ax: int,
    az: int,
    from: int,
    bx: int,
    by: int,
    bz: int,
    x: int,
    y: int,
)
    requires
        limits.w <= ax <= limits.e,
        limits.n <= az <= limits.s,
        bottom <= from <= ymax + 1,
        spec_iso_alone(
            pixels.len() as int,
            chunk,
            blocktypes,
            co,
            width,
            limits,
            bottom,
            ymax,
            bx,
            by,
            bz,
            x,
            y,
        ),
    ensures
        spec_iso_column(pixels, chunk, blocktypes, water, co, width, ymax, ax, az, from).len()
            == pixels.len(),
        spec_same_pixel(
            spec_iso_column(pixels, chunk, blocktypes, water, co, width, ymax, ax, az, from),
            if ax == bx && az == bz && from <= by {
                spec_iso_painted(pixels, chunk, blocktypes, water, co, width, ymax, bx, by, bz, x, y)
            } else {
                pixels
            },
            spec_iso_offset(co, width, bx, by, bz, x, y),
        ),
    decreases ymax + 1 - from,
{
    let q = spec_iso_offset(co, width, bx, by, bz, x, y);
    assert(0 <= q && q + 4 <= pixels.len());
    if from <= ymax {
        lemma_iso_column_paints(
            pixels,
            chunk,
            blocktypes,
            water,
            co,
            width,
            limits,
            bottom,
            ymax,
            ax,
            az,
            from + 1,
            bx,
            by,
            bz,
            x,
            y,
        );
        let above = spec_iso_column(
            pixels,
            chunk,
            blocktypes,
            water,
            co,
            width,
            ymax,
            ax,
            az,
            from + 1,
        );
        if !blocktypes[chunk.data.blocks[from * 256 + az * 16 + ax] as int].empty {
            assert forall|i: int, j: int|
                0 <= i < ISO_BLOCK_WIDTH && 0 <= j < ISO_BLOCK_HEIGHT implies 0
                <= #[trigger] spec_iso_offset(co, width, ax, from, az, i, j) && spec_iso_offset(
                co,
                width,
                ax,
                from,
                az,
                i,
                j,
            ) + 4 <= above.len() by {}
            if ax == bx && az == bz && from == by {
                lemma_iso_block_paints(
                    above,
                    chunk,
                    blocktypes,
                    water,
                    co,
                    width,
                    ymax,
                    bx,
                    by,
                    bz,
                    16,
                    x,
                    y,
                );
                lemma_iso_painted_same(
                    above,
                    pixels,
                    chunk,
                    blocktypes,
                    water,
                    co,
                    width,
                    ymax,
                    bx,
                    by,
                    bz,
                    x,
                    y,
                );
            } else {
                assert forall|i: int, j: int|
                    0 <= i < ISO_BLOCK_WIDTH && 0 <= j < ISO_BLOCK_HEIGHT implies #[trigger] spec_iso_offset(
                    co,
                    width,
                    ax,
                    from,
                    az,
                    i,
                    j,
                ) != q by {}
                lemma_iso_block_apart(
                    above,
                    chunk,
                    blocktypes,
                    water,
                    co,
                    width,
                    ymax,
                    ax,
                    from,
                    az,
                    16,
                    q,
                );
            }
        }
    }
}

/// After the columns of a row have been drawn back to the column `from`, a
/// pixel that one block alone paints holds what that block lays there where
/// the block is among them, and is as it was where it is not.
proof fn lemma_iso_row_paints(
    pixels: Seq<u8>,
    chunk: Chunk,
    blocktypes: Seq<BlockType>,
    water: BlockType,
    co: int,
    width: int,
    limits: Edges<usize>,
    bottom: int,
    ymax: int,
    az: int,
    from: int,
    bx: int,
    by: int,
    bz: int,
    x: int,
    y: int,
)
    requires
        limits.w <= from,
        limits.n <= az <= limits.s,
        spec_iso_alone(
            pixels.len() as int,
            chunk,
            blocktypes,
            co,
            width,
            limits,
            bottom,
            ymax,
            bx,
            by,
            bz,
            x,
            y,
        ),
    ensures
        spec_iso_row(pixels, chunk, blocktypes, water, co, width, limits, bottom, ymax, az, from).len()
            == pixels.len(),
        spec_same_pixel(
            spec_iso_row(pixels, chunk, blocktypes, water, co, width, limits, bottom, ymax, az, from),
            if az == bz && from <= bx {
                spec_iso_painted(pixels, chunk, blocktypes, water, co, width, ymax, bx, by, bz, x, y)
            } else {
                pixels
            },
            spec_iso_offset(co, width, bx, by, bz, x, y),
        ),
    decreases limits.e + 1 - from,
{
    let q = spec_iso_offset(co, width, bx, by, bz, x, y);
    assert(0 <= q && q + 4 <= pixels.len());
    if from <= limits.e {
        lemma_iso_row_paints(
            pixels,
            chunk,
            blocktypes,
            water,
            co,
            width,
            limits,
            bottom,
            ymax,
            az,
            from + 1,
            bx,
            by,
            bz,
            x,
            y,
        );
        let east = spec_iso_row(
            pixels,
            chunk,
            blocktypes,
            water,
            co,
            width,
            limits,
            bottom,
            ymax,
            az,
            from + 1,
        );
        lemma_iso_column_paints(
            east,
            chunk,
            blocktypes,
            water,
            co,
            width,
            limits,
            bottom,
            ymax,
            from,
            az,
            bottom,
            bx,
            by,
            bz,
            x,
            y,
        );
        if az == bz && from == bx {
            lemma_iso_painted_same(
                east,
                pixels,
                chunk,
                blocktypes,
                water,
                co,
                width,
                ymax,
                bx,
                by,
                bz,
                x,
                y,
            );
        }
    }
}

/// After the rows of a chunk have been drawn back to the row `from`, a
/// pixel that one block alone paints holds what that block lays there where
/// the block is among them, and is as it was where it is not.
proof fn lemma_iso_rows_paint(
    pixels: Seq<u8>,
    chunk: Chunk,
    blocktypes: Seq<BlockType>,
    water: BlockType,
    co: int,
    width: int,
    limits: Edges<usize>,
    bottom: int,
    ymax: int,
    from: int,
    bx: int,
    by: int,
    bz: int,
    x: int,
    y: int,
)
    requires
        limits.n <= from,
        spec_iso_alone(
            pixels.len() as int,
            chunk,
            blocktypes,
            co,
            width,
            limits,
            bottom,
            ymax,
            bx,
            by,
            bz,
            x,
            y,
        ),
    ensures
        spec_iso_chunk(pixels, chunk, blocktypes, water, co, width, limits, bottom, ymax, from).len()
            == pixels.len(),
        spec_same_pixel(
            spec_iso_chunk(pixels, chunk, blocktypes, water, co, width, limits, bottom, ymax, from),
            if from <= bz {
                spec_iso_painted(pixels, chunk, blocktypes, water, co, width, ymax, bx, by, bz, x, y)
            } else {
                pixels
            },
            spec_iso_offset(co, width, bx, by, bz, x, y),
        ),
    decreases limits.s + 1 - from,
{
    let q = spec_iso_offset(co, width, bx, by, bz, x, y);
    assert(0 <= q && q + 4 <= pixels.len());
    if from <= limits.s {
        lemma_iso_rows_paint(
            pixels,
            chunk,
            blocktypes,
            water,
            co,
            width,
            limits,
            bottom,
            ymax,
            from + 1,
            bx,
            by,
            bz,
            x,
            y,
        );
        let south = spec_iso_chunk(
            pixels,
            chunk,
            blocktypes,
            water,
            co,
            width,
            limits,
            bottom,
            ymax,
            from + 1,
        );
        lemma_iso_row_paints(
            south,
            chunk,
            blocktypes,
            water,
            co,
            width,
            limits,
            bottom,
            ymax,
            from,
            limits.w as int,
            bx,
            by,
            bz,
            x,
            y,
        );
        if from == bz {
            lemma_iso_painted_same(
                south,
                pixels,
                chunk,
                blocktypes,
                water,
                co,
                width,
                ymax,
                bx,
                by,
                bz,
                x,
                y,
            );
        }
    }
}

/// In the tile of a chunk in isometric view, a pixel that one block alone
/// paints holds what that block lays there: the colour of the digit of the
/// block's shape for that pixel, laid under what the image held, or what
/// the image held where the pixel belongs to a top face that stays hidden.
pub proof fn lemma_iso_pixel_painted(
    pixels: Seq<u8>,
    chunk: Chunk,
    blocktypes: Seq<BlockType>,
    water: BlockType,
    co: int,
    width: int,
    limits: Edges<usize>,
    bottom: int,
    ymax: int,
    bx: int,
    by: int,
    bz: int,
    x: int,
    y: int,
)
    requires
        spec_iso_alone(
            pixels.len() as int,
            chunk,
            blocktypes,
            co,
            width,
            limits,
            bottom,
            ymax,
            bx,
            by,
            bz,
            x,
            y,
        ),
    ensures
        spec_same_pixel(
            spec_iso_chunk(
                pixels,
                chunk,
                blocktypes,
                water,
                co,
                width,
                limits,
                bottom,
                ymax,
                limits.n as int,
            ),
            spec_iso_painted(pixels, chunk, blocktypes, water, co, width, ymax, bx, by, bz, x, y),
            spec_iso_offset(co, width, bx, by, bz, x, y),
        ),
{
    lemma_iso_rows_paint(
        pixels,
        chunk,
        blocktypes,
        water,
        co,
        width,
        limits,
        bottom,
        ymax,
        limits.n as int,
        bx,
        by,
        bz,
        x,
        y,
    );
}

/// In the tile of a chunk drawn into a blank image, a pixel that one block
/// alone paints holds the colour of the digit of the block's shape for that
/// pixel, where that colour is not fully transparent and the pixel belongs
/// to no top face that stays hidden.
pub proof fn lemma_iso_blank_pixel_painted(
    pixels: Seq<u8>,
    chunk: Chunk,
    blocktypes: Seq<BlockType>,
    water: BlockType,
    co: int,
    width: int,
    limits: Edges<usize>,
    bottom: int,
    ymax: int,
    bx: int,
    by: int,
    bz: int,
    x: int,
    y: int,
    k: int,
)
    requires
        spec_iso_alone(
            pixels.len() as int,
            chunk,
            blocktypes,
            co,
            width,
            limits,
            bottom,
            ymax,
            bx,
            by,
            bz,
            x,
            y,
        ),
        forall|i: int| 0 <= i < pixels.len() ==> pixels[i] == 0,
        y >= spec_iso_first_row(chunk, blocktypes, bx, by, bz),
        spec_iso_paint(chunk, blocktypes, water, bx, by, bz, ymax, x, y).a != 0,
        0 <= k < 4,
    ensures
        spec_iso_chunk(
            pixels,
            chunk,
            blocktypes,
            water,
            co,
            width,
            limits,
            bottom,
            ymax,
            limits.n as int,
        )[spec_iso_offset(co, width, bx, by, bz, x, y) + k] == spec_channel(
            spec_iso_paint(chunk, blocktypes, water, bx, by, bz, ymax, x, y),
            k,
        ),
{
    let q = spec_iso_offset(co, width, bx, by, bz, x, y);
    let color = spec_iso_paint(chunk, blocktypes, water, bx, by, bz, ymax, x, y);
    assert(0 <= q && q + 4 <= pixels.len());
    lemma_iso_pixel_painted(
        pixels,
        chunk,
        blocktypes,
        water,
        co,
        width,
        limits,
        bottom,
        ymax,
        bx,
        by,
        bz,
        x,
        y,
    );
    crate::color::lemma_blend_identity(spec_pixel_at(pixels, q), color, color);
}

} // verus!
