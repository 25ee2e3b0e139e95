use std::collections::HashMap;
use vstd::prelude::*;
use vstd::view::View as _;

use crate::blocktypes::{spec_types_wf, types_wf, BlockType};
use crate::isomap;
use crate::options::View;
use crate::orthomap;
use crate::orthomap::spec_chunk_valid;
use crate::region::{
    region_limits, spec_chunk_at, spec_chunk_key, spec_deref, spec_in_limits,
    spec_region_limits, Chunk, ChunkData, RegionData,
};
use crate::sizes::{
    block_pos_in_chunk, block_to_region, spec_divide, spec_pos_in_cell, spec_signed_modulo,
    BIOME_ARRAY_SIZE, BLOCKS_IN_CHUNK, BLOCKS_IN_REGION, CHUNKS_IN_REGION,
};
use crate::types::{Edges, Pair};
use crate::world::World;

verus! {

/// A reference to the data of a chunk, where there is one.
pub open spec fn spec_ref(data: Option<ChunkData>) -> Option<&'static ChunkData> {
    match data {
        Some(d) => Some(&d),
        None => None,
    }
}

/// The chunk at `(cx, cz)` of a region with its four neighbours, where the
/// region holds such a chunk.
pub open spec fn spec_get_chunk(reg: &RegionData, cx: int, cz: int) -> Option<Chunk> {
    match spec_chunk_at(reg.chunks@, cx, cz) {
        None => None,
        Some(data) => Some(
            Chunk {
                data: &reg.chunks@[spec_chunk_key(cx, cz)],
                ndata: Edges {
                    n: spec_ref(reg.spec_n_chunk(cx, cz)),
                    e: spec_ref(reg.spec_e_chunk(cx, cz)),
                    s: spec_ref(reg.spec_s_chunk(cx, cz)),
                    w: spec_ref(reg.spec_w_chunk(cx, cz)),
                },
            },
        ),
    }
}

/// The columns and rows of the chunk at `(wcx, wcz)` of the world that lie
/// inside the world's block bounds.
pub open spec fn spec_chunk_limits(bedges: Edges<isize>, wcx: int, wcz: int) -> Edges<usize> {
    Edges {
        n: spec_pos_in_cell(bedges.n as int, Some(wcz), 16) as usize,
        e: spec_pos_in_cell(bedges.e as int, Some(wcx), 16) as usize,
        s: spec_pos_in_cell(bedges.s as int, Some(wcz), 16) as usize,
        w: spec_pos_in_cell(bedges.w as int, Some(wcx), 16) as usize,
    }
}

/// The columns and rows of the chunk `wc` of the world that lie inside the
/// world's block bounds.
pub fn chunk_limits(bedges: &Edges<isize>, wc: &Pair<isize>) -> (limits: Edges<usize>)
    ensures
        limits == spec_chunk_limits(*bedges, wc.x as int, wc.z as int),
        limits.n < BLOCKS_IN_CHUNK,
        limits.e < BLOCKS_IN_CHUNK,
        limits.s < BLOCKS_IN_CHUNK,
        limits.w < BLOCKS_IN_CHUNK,
{
    Edges {
        n: block_pos_in_chunk(bedges.n, Some(wc.z)),
        e: block_pos_in_chunk(bedges.e, Some(wc.x)),
        s: block_pos_in_chunk(bedges.s, Some(wc.z)),
        w: block_pos_in_chunk(bedges.w, Some(wc.x)),
    }
}

/// The width of the image of a world.
pub open spec fn spec_image_width(world: &World, view: View) -> int {
    match view {
        View::Orthographic => world.bsize.x as int,
        View::Isometric => (world.bsize.x + world.bsize.z) * 2,
    }
}

/// The height of the image of a world.
pub open spec fn spec_image_height(world: &World, view: View) -> int {
    match view {
        View::Orthographic => world.bsize.z as int,
        View::Isometric => world.bsize.x + world.bsize.z + 768,
    }
}

/// How many pixels into the image of a world the tile of the chunk at
/// `(cx, cz)` of the region `r` starts.
pub open spec fn spec_tile_offset(world: &World, view: View, r: Pair<isize>, cx: int, cz: int) -> int {
    let acx = r.x * 32 + cx - world.cedges.w;
    let acz = r.z * 32 + cz - world.cedges.n;
    let width = spec_image_width(world, view);
    match view {
        View::Orthographic => (acz * 16) * width + acx * 16 - (spec_signed_modulo(
            world.bedges.n as int,
            16,
        ) * width + spec_signed_modulo(world.bedges.w as int, 16)),
        View::Isometric => ((acx + acz) * 16) * width + (acx + world.csize.z - acz - 1) * 32
            - isomap::spec_crop(world.bedges, width),
    }
}

/// The image after the chunk at `(cx, cz)` of a region has been drawn: a
/// cell without a chunk leaves it as it is.
pub open spec fn spec_draw_step(
    pixels: Seq<u8>,
    world: &World,
    blocktypes: Seq<BlockType>,
    water: BlockType,
    view: View,
    r: Pair<isize>,
    reg: &RegionData,
    cx: int,
    cz: int,
) -> Seq<u8> {
    match spec_get_chunk(reg, cx, cz) {
        None => pixels,
        Some(chunk) => match view {
            View::Orthographic => orthomap::spec_ortho_chunk(
                pixels,
                chunk,
                blocktypes,
                spec_tile_offset(world, view, r, cx, cz),
                spec_image_width(world, view),
                spec_chunk_limits(world.bedges, r.x * 32 + cx, r.z * 32 + cz),
                world.ylimits.start as int,
                world.ylimits.end - 1,
            ),
            View::Isometric => isomap::spec_iso_chunk(
                pixels,
                chunk,
                blocktypes,
                water,
                spec_tile_offset(world, view, r, cx, cz),
                spec_image_width(world, view),
                spec_chunk_limits(world.bedges, r.x * 32 + cx, r.z * 32 + cz),
                world.ylimits.start as int,
                world.ylimits.end - 1,
                spec_chunk_limits(world.bedges, r.x * 32 + cx, r.z * 32 + cz).n as int,
            ),
        },
    }
}

/// The image after the first `count` cells of a region have been drawn: the
/// cells are gone through from the south-eastern back to the north-western,
/// row by row.
pub open spec fn spec_draw_region(
    pixels: Seq<u8>,
    world: &World,
    blocktypes: Seq<BlockType>,
    water: BlockType,
    view: View,
    r: Pair<isize>,
    reg: &RegionData,
    count: int,
) -> Seq<u8>
    decreases count,
{
    if count <= 0 {
        pixels
    } else {
        spec_draw_step(
            spec_draw_region(pixels, world, blocktypes, water, view, r, reg, count - 1),
            world,
            blocktypes,
            water,
            view,
            r,
            reg,
            (1024 - count) % 32,
            (1024 - count) / 32,
        )
    }
}

/// Whether the chunks of a region can be drawn into the image of a world:
/// the region lies inside the world's bounds, its chunks lie inside the
/// cells that the bounds reach, and all chunks hold block types of the table
/// and biomes that the colours know.
pub open spec fn spec_region_drawable(world: &World, r: Pair<isize>, reg: &RegionData, types: int) -> bool {
    &&& spec_divide(world.bedges.w as int, BLOCKS_IN_REGION as int) <= r.x <= spec_divide(
        world.bedges.e as int,
        BLOCKS_IN_REGION as int,
    )
    &&& spec_divide(world.bedges.n as int, BLOCKS_IN_REGION as int) <= r.z <= spec_divide(
        world.bedges.s as int,
        BLOCKS_IN_REGION as int,
    )
    &&& forall|x: int, z: int|
        0 <= x < 32 && 0 <= z < 32 ==> match #[trigger] spec_chunk_at(reg.chunks@, x, z) {
            Some(d) => spec_in_limits(spec_region_limits(world.bedges, r), x, z) && d.spec_within(
                types,
                BIOME_ARRAY_SIZE as int,
            ),
            None => true,
        }
    &&& spec_border_valid(reg.nchunks.n@, types)
    &&& spec_border_valid(reg.nchunks.e@, types)
    &&& spec_border_valid(reg.nchunks.s@, types)
    &&& spec_border_valid(reg.nchunks.w@, types)
}

/// Whether the chunks of a neighbouring region hold block types of the
/// table only.
pub open spec fn spec_border_valid(chunks: Map<usize, ChunkData>, types: int) -> bool {
    forall|x: int, z: int|
        0 <= x < 32 && 0 <= z < 32 ==> match #[trigger] spec_chunk_at(chunks, x, z) {
            Some(d) => d.spec_within(types, 256),
            None => true,
        }
}

/// Whether an image of the size of the world's image can be addressed: its
/// width is one that the drawing takes, and its pixels can be counted.
pub open spec fn spec_image_fits(world: &World, view: View) -> bool {
    &&& spec_image_width(world, view) * spec_image_height(world, view) * 8 <= isize::MAX
    &&& match view {
        View::Orthographic => spec_image_width(world, view) <= 0x03ff_ffff,
        View::Isometric => spec_image_width(world, view) <= 0x001f_ffff,
    }
}

/// A chunk of a region that can be drawn lies inside the world's bounds in
/// chunks, and the blocks inside its limits lie inside the world's bounds in
/// blocks.
pub proof fn lemma_chunk_in_world(world: &World, r: Pair<isize>, cx: int, cz: int)
    requires
        world.spec_drawable(),
        0 <= cx < 32,
        0 <= cz < 32,
        spec_divide(world.bedges.w as int, 512) <= r.x <= spec_divide(world.bedges.e as int, 512),
        spec_divide(world.bedges.n as int, 512) <= r.z <= spec_divide(world.bedges.s as int, 512),
        spec_in_limits(spec_region_limits(world.bedges, r), cx, cz),
    ensures
        world.cedges.w <= r.x * 32 + cx <= world.cedges.e,
        world.cedges.n <= r.z * 32 + cz <= world.cedges.s,
        ({
            let limits = spec_chunk_limits(world.bedges, r.x * 32 + cx, r.z * 32 + cz);
            &&& limits.w <= limits.e < 16
            &&& limits.n <= limits.s < 16
            &&& world.bedges.w <= (r.x * 32 + cx) * 16 + limits.w
            &&& (r.x * 32 + cx) * 16 + limits.e <= world.bedges.e
            &&& world.bedges.n <= (r.z * 32 + cz) * 16 + limits.n
            &&& (r.z * 32 + cz) * 16 + limits.s <= world.bedges.s
        }),
{
    let cw = world.cedges.w as int;
    let ce = world.cedges.e as int;
    let cn = world.cedges.n as int;
    let cs = world.cedges.s as int;
    let bw = world.bedges.w as int;
    let be = world.bedges.e as int;
    let bn = world.bedges.n as int;
    let bs = world.bedges.s as int;
    assert(cw / 32 == bw / 512 && ce / 32 == be / 512 && cn / 32 == bn / 512 && cs / 32 == bs
        / 512);
}

/// The pixel of a block of a world seen from above lies inside the image.
pub proof fn lemma_ortho_pixel_in_image(col: int, row: int, width: int, height: int)
    requires
        0 <= col < width,
        0 <= row < height,
    ensures
        0 <= row * width + col,
        (row * width + col) * 4 + 4 <= width * height * 4,
{
    assert(0 <= row * width && row * width + width <= height * width) by (nonlinear_arith)
        requires
            0 <= row < height,
            0 < width,
    ;
    assert(height * width == width * height) by (nonlinear_arith);
}

/// Where the pixel of a column lies in the image of a world seen from above:
/// as far from the image's top left corner as the column from the world's
/// north-western corner.
pub proof fn lemma_ortho_offset(world: &World, r: Pair<isize>, cx: int, cz: int, bx: int, bz: int)
    requires
        world.spec_drawable(),
    ensures
        orthomap::spec_ortho_offset(
            spec_tile_offset(world, View::Orthographic, r, cx, cz),
            world.bsize.x as int,
            bx,
            bz,
        ) == (((r.z * 32 + cz) * 16 + bz - world.bedges.n) * world.bsize.x + ((r.x * 32 + cx) * 16
            + bx - world.bedges.w)) * 4,
{
    let width = world.bsize.x as int;
    let acx = r.x * 32 + cx - world.cedges.w;
    let acz = r.z * 32 + cz - world.cedges.n;
    let n0 = spec_signed_modulo(world.bedges.n as int, 16);
    let w0 = spec_signed_modulo(world.bedges.w as int, 16);
    assert(world.bedges.n == world.cedges.n * 16 + n0);
    assert(world.bedges.w == world.cedges.w * 16 + w0);
    let row = (r.z * 32 + cz) * 16 + bz - world.bedges.n;
    assert(row == acz * 16 + bz - n0);
    assert((acz * 16) * width + bz * width - n0 * width == row * width) by (nonlinear_arith)
        requires
            row == acz * 16 + bz - n0,
    ;
}

/// The tile of a chunk of a region that can be drawn fits into the image of
/// the world seen from above.
pub proof fn lemma_ortho_tile_fits(world: &World, r: Pair<isize>, cx: int, cz: int)
    requires
        world.spec_drawable(),
        0 <= cx < 32,
        0 <= cz < 32,
        spec_divide(world.bedges.w as int, 512) <= r.x <= spec_divide(world.bedges.e as int, 512),
        spec_divide(world.bedges.n as int, 512) <= r.z <= spec_divide(world.bedges.s as int, 512),
        spec_in_limits(spec_region_limits(world.bedges, r), cx, cz),
    ensures
        orthomap::spec_ortho_tile_fits(
            world.bsize.x * world.bsize.z * 4,
            spec_tile_offset(world, View::Orthographic, r, cx, cz),
            world.bsize.x as int,
            spec_chunk_limits(world.bedges, r.x * 32 + cx, r.z * 32 + cz),
        ),
        spec_chunk_limits(world.bedges, r.x * 32 + cx, r.z * 32 + cz).e - spec_chunk_limits(
            world.bedges,
            r.x * 32 + cx,
            r.z * 32 + cz,
        ).w < world.bsize.x,
{
    lemma_chunk_in_world(world, r, cx, cz);
    let limits = spec_chunk_limits(world.bedges, r.x * 32 + cx, r.z * 32 + cz);
    let co = spec_tile_offset(world, View::Orthographic, r, cx, cz);
    let width = world.bsize.x as int;
    let height = world.bsize.z as int;
    assert forall|bx: int, bz: int|
        limits.w <= bx <= limits.e && limits.n <= bz <= limits.s implies 0
        <= #[trigger] orthomap::spec_ortho_offset(co, width, bx, bz) && orthomap::spec_ortho_offset(
        co,
        width,
        bx,
        bz,
    ) + 4 <= width * height * 4 by {
        lemma_ortho_offset(world, r, cx, cz, bx, bz);
        lemma_ortho_pixel_in_image(
            (r.x * 32 + cx) * 16 + bx - world.bedges.w,
            (r.z * 32 + cz) * 16 + bz - world.bedges.n,
            width,
            height,
        );
    }
}

/// Where a pixel of a block's footprint lies in the image of a world in
/// isometric view: as many rows down as the block lies east and south of the
/// world's north-western corner and three for each layer below the top, and
/// twice as many columns to the right as it lies east of the western and
/// north of the southern bound.
pub proof fn lemma_iso_offset(
    world: &World,
    r: Pair<isize>,
    cx: int,
    cz: int,
    bx: int,
    by: int,
    bz: int,
    x: int,
    y: int,
)
    requires
        world.spec_drawable(),
    ensures
        isomap::spec_iso_offset(
            spec_tile_offset(world, View::Isometric, r, cx, cz),
            (world.bsize.x + world.bsize.z) * 2,
            bx,
            by,
            bz,
            x,
            y,
        ) == ((((r.x * 32 + cx) * 16 + bx - world.bedges.w) + ((r.z * 32 + cz) * 16 + bz
            - world.bedges.n) + (255 - by) * 3 + y) * ((world.bsize.x + world.bsize.z) * 2) + 2 * (((
        r.x * 32 + cx) * 16 + bx - world.bedges.w) + (world.bedges.s - ((r.z * 32 + cz) * 16 + bz)))
            + x) * 4,
{
    let width = (world.bsize.x + world.bsize.z) * 2;
    let acx = r.x * 32 + cx - world.cedges.w;
    let acz = r.z * 32 + cz - world.cedges.n;
    let n0 = spec_signed_modulo(world.bedges.n as int, 16);
    let w0 = spec_signed_modulo(world.bedges.w as int, 16);
    let s0 = 15 - spec_signed_modulo(world.bedges.s as int, 16);
    assert(world.bedges.n == world.cedges.n * 16 + n0);
    assert(world.bedges.w == world.cedges.w * 16 + w0);
    assert(world.bedges.s == world.cedges.s * 16 + 15 - s0);
    let down = (bx + bz) + (255 - by) * 3 + y;
    let row = ((r.x * 32 + cx) * 16 + bx - world.bedges.w) + ((r.z * 32 + cz) * 16 + bz
        - world.bedges.n) + (255 - by) * 3 + y;
    assert(row == (acx + acz) * 16 + down - (w0 + n0));
    assert(((acx + acz) * 16) * width + down * width - (w0 + n0) * 1 * width == row * width)
        by (nonlinear_arith)
        requires
            row == (acx + acz) * 16 + down - (w0 + n0),
    ;
}

/// A pixel of a block's footprint of a world in isometric view lies inside
/// the image.
pub proof fn lemma_iso_pixel_in_image(
    east: int,
    south: int,
    north: int,
    by: int,
    x: int,
    y: int,
    bx_size: int,
    bz_size: int,
)
    requires
        0 <= east < bx_size,
        0 <= south < bz_size,
        north == bz_size - 1 - south,
        0 <= by < 256,
        0 <= x < 4,
        0 <= y < 4,
    ensures
        0 <= (east + south + (255 - by) * 3 + y) * ((bx_size + bz_size) * 2) + 2 * (east + north)
            + x,
        ((east + south + (255 - by) * 3 + y) * ((bx_size + bz_size) * 2) + 2 * (east + north) + x)
            * 4 + 4 <= ((bx_size + bz_size) * 2) * (bx_size + bz_size + 768) * 4,
{
    let width = (bx_size + bz_size) * 2;
    let height = bx_size + bz_size + 768;
    let row = east + south + (255 - by) * 3 + y;
    let col = 2 * (east + north) + x;
    assert(0 <= col < width);
    assert(0 <= row < height);
    assert(0 <= row * width && row * width + width <= height * width) by (nonlinear_arith)
        requires
            0 <= row < height,
            0 < width,
    ;
    assert(height * width == width * height) by (nonlinear_arith);
}

/// The tile of a chunk of a region that can be drawn fits into the image of
/// the world in isometric view.
pub proof fn lemma_iso_tile_fits(world: &World, r: Pair<isize>, cx: int, cz: int)
    requires
        world.spec_drawable(),
        0 <= cx < 32,
        0 <= cz < 32,
        spec_divide(world.bedges.w as int, 512) <= r.x <= spec_divide(world.bedges.e as int, 512),
        spec_divide(world.bedges.n as int, 512) <= r.z <= spec_divide(world.bedges.s as int, 512),
        spec_in_limits(spec_region_limits(world.bedges, r), cx, cz),
    ensures
        isomap::spec_iso_fits(
            ((world.bsize.x + world.bsize.z) * 2) * (world.bsize.x + world.bsize.z + 768) * 4,
            spec_tile_offset(world, View::Isometric, r, cx, cz),
            (world.bsize.x + world.bsize.z) * 2,
            spec_chunk_limits(world.bedges, r.x * 32 + cx, r.z * 32 + cz),
            world.ylimits.start as int,
            world.ylimits.end as int,
        ),
{
    lemma_chunk_in_world(world, r, cx, cz);
    let limits = spec_chunk_limits(world.bedges, r.x * 32 + cx, r.z * 32 + cz);
    let co = spec_tile_offset(world, View::Isometric, r, cx, cz);
    let width = (world.bsize.x + world.bsize.z) * 2;
    let len = width * (world.bsize.x + world.bsize.z + 768) * 4;
    assert forall|bx: int, by: int, bz: int, x: int, y: int|
        limits.w <= bx <= limits.e && limits.n <= bz <= limits.s && world.ylimits.start <= by
            < world.ylimits.end && 0 <= x < 4 && 0 <= y < 4 implies 0
        <= #[trigger] isomap::spec_iso_offset(co, width, bx, by, bz, x, y)
        && isomap::spec_iso_offset(co, width, bx, by, bz, x, y) + 4 <= len by {
        lemma_iso_offset(world, r, cx, cz, bx, by, bz, x, y);
        lemma_iso_pixel_in_image(
            (r.x * 32 + cx) * 16 + bx - world.bedges.w,
            (r.z * 32 + cz) * 16 + bz - world.bedges.n,
            world.bedges.s - ((r.z * 32 + cz) * 16 + bz),
            by,
            x,
            y,
            world.bsize.x as int,
            world.bsize.z as int,
        );
    }
}

/// The chunks of a region that can be drawn hold what can be drawn.
pub proof fn lemma_chunk_valid(world: &World, r: Pair<isize>, reg: &RegionData, types: int, cx: int, cz: int)
    requires
        spec_region_drawable(world, r, reg, types),
        spec_get_chunk(reg, cx, cz) is Some,
    ensures
        spec_chunk_valid(spec_get_chunk(reg, cx, cz)->Some_0, types),
        spec_in_limits(spec_region_limits(world.bedges, r), cx, cz),
        0 <= cx < 32,
        0 <= cz < 32,
{
    assert(spec_chunk_at(reg.chunks@, cx, cz) is Some);
    let chunk = spec_get_chunk(reg, cx, cz)->Some_0;
    if chunk.ndata.n matches Some(d) {
        if cz == 0 {
            assert(spec_chunk_at(reg.nchunks.n@, cx, 31) is Some);
        } else {
            assert(spec_chunk_at(reg.chunks@, cx, cz - 1) is Some);
        }
    }
    if chunk.ndata.e matches Some(d) {
        if cx == 31 {
            assert(spec_chunk_at(reg.nchunks.e@, 0, cz) is Some);
        } else {
            assert(spec_chunk_at(reg.chunks@, cx + 1, cz) is Some);
        }
    }
    if chunk.ndata.s matches Some(d) {
        if cz == 31 {
            assert(spec_chunk_at(reg.nchunks.s@, cx, 0) is Some);
        } else {
            assert(spec_chunk_at(reg.chunks@, cx, cz + 1) is Some);
        }
    }
    if chunk.ndata.w matches Some(d) {
        if cx == 0 {
            assert(spec_chunk_at(reg.nchunks.w@, 31, cz) is Some);
        } else {
            assert(spec_chunk_at(reg.chunks@, cx - 1, cz) is Some);
        }
    }
}

/// The size of the image of a world.
pub fn get_size(world: &World, view: &View) -> (size: Pair<usize>)
    requires
        *view == View::Isometric ==> world.bsize.x + world.bsize.z <= 0x03ff_ffff,
    ensures
        size.x == spec_image_width(world, *view),
        size.z == spec_image_height(world, *view),
{
    match view {
        View::Isometric => isomap::get_size(world),
        View::Orthographic => orthomap::get_size(world),
    }
}

/// How many pixels of the first chunk's tile lie in front of the image of a
/// world.
pub open spec fn spec_image_crop(world: &World, view: View) -> int {
    match view {
        View::Orthographic => spec_signed_modulo(world.bedges.n as int, 16) * spec_image_width(
            world,
            view,
        ) + spec_signed_modulo(world.bedges.w as int, 16),
        View::Isometric => isomap::spec_crop(world.bedges, spec_image_width(world, view)),
    }
}

/// How many pixels of the first chunk's tile lie in front of the image of a
/// world.
pub fn get_crop(world: &World, view: &View, size: &Pair<usize>) -> (crop: usize)
    requires
        size.x == spec_image_width(world, *view),
        size.x <= 0x03ff_ffff,
    ensures
        crop == spec_image_crop(world, *view),
{
    match view {
        View::Isometric => isomap::get_crop(world, size),
        View::Orthographic => orthomap::get_crop(world, size),
    }
}

/// Draws the chunk `chunk`, which lies at `c` of the region `r`, into the
/// image of a world seen from above.
fn draw_ortho_at(
    pixels: &mut [u8],
    world: &World,
    blocktypes: &[BlockType],
    chunk: &Chunk,
    r: &Pair<isize>,
    reg: &RegionData,
    size: &Pair<usize>,
    crop: usize,
    c: &Pair<usize>,
)
    requires
        c.x < 32,
        c.z < 32,
        world.spec_drawable(),
        spec_image_fits(world, View::Orthographic),
        spec_region_drawable(world, *r, reg, blocktypes@.len() as int),
        spec_types_wf(blocktypes@),
        size.x == spec_image_width(world, View::Orthographic),
        size.z == spec_image_height(world, View::Orthographic),
        crop == spec_image_crop(world, View::Orthographic),
        old(pixels)@.len() == size.x * size.z * 4,
        spec_get_chunk(reg, c.x as int, c.z as int) == Some(*chunk),
    ensures
        final(pixels)@.len() == old(pixels)@.len(),
        final(pixels)@ == orthomap::spec_ortho_chunk(
            old(pixels)@,
            *chunk,
            blocktypes@,
            spec_tile_offset(world, View::Orthographic, *r, c.x as int, c.z as int),
            spec_image_width(world, View::Orthographic),
            spec_chunk_limits(world.bedges, r.x * 32 + c.x, r.z * 32 + c.z),
            world.ylimits.start as int,
            world.ylimits.end - 1,
        ),
{
    let ghost cx = c.x as int;
    let ghost cz = c.z as int;
    proof {
        lemma_chunk_valid(world, *r, reg, blocktypes@.len() as int, cx, cz);
        lemma_chunk_in_world(world, *r, cx, cz);
        lemma_ortho_tile_fits(world, *r, cx, cz);
    }
    let wc: Pair<isize> = Pair {
        x: r.x * CHUNKS_IN_REGION as isize + c.x as isize,
        z: r.z * CHUNKS_IN_REGION as isize + c.z as isize,
    };
    let cblimits: Edges<usize> = chunk_limits(&world.bedges, &wc);
    let co: isize = ortho_tile_origin(world, r, size, crop, c);
    orthomap::draw_chunk(pixels, blocktypes, chunk, &co, &size.x, &cblimits, &world.ylimits);
}

/// How many pixels into the image of a world seen from above the tile of
/// the chunk at `c` of the region `r` starts.
fn ortho_tile_origin(
    world: &World,
    r: &Pair<isize>,
    size: &Pair<usize>,
    crop: usize,
    c: &Pair<usize>,
) -> (co: isize)
    requires
        c.x < 32,
        c.z < 32,
        world.spec_drawable(),
        spec_image_fits(world, View::Orthographic),
        spec_divide(world.bedges.w as int, 512) <= r.x <= spec_divide(world.bedges.e as int, 512),
        spec_divide(world.bedges.n as int, 512) <= r.z <= spec_divide(world.bedges.s as int, 512),
        spec_in_limits(spec_region_limits(world.bedges, *r), c.x as int, c.z as int),
        size.x == spec_image_width(world, View::Orthographic),
        size.z == spec_image_height(world, View::Orthographic),
        crop == spec_image_crop(world, View::Orthographic),
    ensures
        co == spec_tile_offset(world, View::Orthographic, *r, c.x as int, c.z as int),
{
    proof {
        lemma_chunk_in_world(world, *r, c.x as int, c.z as int);
    }
    let arc: Pair<isize> = Pair {
        x: r.x * CHUNKS_IN_REGION as isize - world.cedges.w,
        z: r.z * CHUNKS_IN_REGION as isize - world.cedges.n,
    };
    let cp: Pair<usize> = orthomap::get_chunk_pixel(&arc, c);
    assert(0 <= cp.z * size.x && cp.z * size.x + cp.x <= isize::MAX) by (nonlinear_arith)
        requires
            0 <= cp.z <= size.z + 15,
            0 <= cp.x <= size.x + 15,
            0 <= size.x <= 0x03ff_ffff,
            size.x * size.z * 8 <= isize::MAX,
            isize::MAX >= 0x7fff_ffff,
    ;
    assert(0 <= crop <= 15 * size.x + 15) by (nonlinear_arith)
        requires
            crop == spec_signed_modulo(world.bedges.n as int, 16) * size.x + spec_signed_modulo(
                world.bedges.w as int,
                16,
            ),
            0 <= spec_signed_modulo(world.bedges.n as int, 16) <= 15,
            0 <= spec_signed_modulo(world.bedges.w as int, 16) <= 15,
            0 <= size.x,
    ;
    (cp.z * size.x + cp.x) as isize - crop as isize
}

/// Draws the chunk `chunk`, which lies at `c` of the region `r`, into the
/// image of a world in isometric view.
fn draw_iso_at(
    pixels: &mut [u8],
    world: &World,
    blocktypes: &[BlockType],
    water_blocktype: &BlockType,
    chunk: &Chunk,
    r: &Pair<isize>,
    reg: &RegionData,
    size: &Pair<usize>,
    crop: usize,
    c: &Pair<usize>,
)
    requires
        c.x < 32,
        c.z < 32,
        world.spec_drawable(),
        spec_image_fits(world, View::Isometric),
        spec_region_drawable(world, *r, reg, blocktypes@.len() as int),
        spec_types_wf(blocktypes@),
        water_blocktype.wf(),
        size.x == spec_image_width(world, View::Isometric),
        size.z == spec_image_height(world, View::Isometric),
        crop == spec_image_crop(world, View::Isometric),
        old(pixels)@.len() == size.x * size.z * 4,
        spec_get_chunk(reg, c.x as int, c.z as int) == Some(*chunk),
    ensures
        final(pixels)@.len() == old(pixels)@.len(),
        final(pixels)@ == isomap::spec_iso_chunk(
            old(pixels)@,
            *chunk,
            blocktypes@,
            *water_blocktype,
            spec_tile_offset(world, View::Isometric, *r, c.x as int, c.z as int),
            spec_image_width(world, View::Isometric),
            spec_chunk_limits(world.bedges, r.x * 32 + c.x, r.z * 32 + c.z),
            world.ylimits.start as int,
            world.ylimits.end - 1,
            spec_chunk_limits(world.bedges, r.x * 32 + c.x, r.z * 32 + c.z).n as int,
        ),
{
    let ghost cx = c.x as int;
    let ghost cz = c.z as int;
    proof {
        lemma_chunk_valid(world, *r, reg, blocktypes@.len() as int, cx, cz);
        lemma_chunk_in_world(world, *r, cx, cz);
        lemma_iso_tile_fits(world, *r, cx, cz);
    }
    let wc: Pair<isize> = Pair {
        x: r.x * CHUNKS_IN_REGION as isize + c.x as isize,
        z: r.z * CHUNKS_IN_REGION as isize + c.z as isize,
    };
    let cblimits: Edges<usize> = chunk_limits(&world.bedges, &wc);
    let co: isize = iso_tile_origin(world, r, size, crop, c);
    isomap::draw_chunk(
        pixels,
        blocktypes,
        water_blocktype,
        chunk,
        &co,
        &size.x,
        &cblimits,
        &world.ylimits,
    );
}

/// How many pixels into the image of a world in isometric view the tile of
/// the chunk at `c` of the region `r` starts.
fn iso_tile_origin(
    world: &World,
    r: &Pair<isize>,
    size: &Pair<usize>,
    crop: usize,
    c: &Pair<usize>,
) -> (co: isize)
    requires
        c.x < 32,
        c.z < 32,
        world.spec_drawable(),
        spec_image_fits(world, View::Isometric),
        spec_divide(world.bedges.w as int, 512) <= r.x <= spec_divide(world.bedges.e as int, 512),
        spec_divide(world.bedges.n as int, 512) <= r.z <= spec_divide(world.bedges.s as int, 512),
        spec_in_limits(spec_region_limits(world.bedges, *r), c.x as int, c.z as int),
        size.x == spec_image_width(world, View::Isometric),
        size.z == spec_image_height(world, View::Isometric),
        crop == spec_image_crop(world, View::Isometric),
    ensures
        co == spec_tile_offset(world, View::Isometric, *r, c.x as int, c.z as int),
{
    proof {
        lemma_chunk_in_world(world, *r, c.x as int, c.z as int);
    }
    let arc: Pair<isize> = Pair {
        x: r.x * CHUNKS_IN_REGION as isize - world.cedges.w,
        z: r.z * CHUNKS_IN_REGION as isize - world.cedges.n,
    };
    let cp: Pair<usize> = isomap::get_chunk_pixel(world, &arc, c);
    assert(0 <= cp.z * size.x && cp.z * size.x + cp.x <= isize::MAX) by (nonlinear_arith)
        requires
            0 <= cp.z <= size.z,
            0 <= cp.x <= size.x + 120,
            0 <= size.x <= 0x001f_ffff,
            size.x * size.z * 8 <= isize::MAX,
            isize::MAX >= 0x7fff_ffff,
    ;
    assert(0 <= crop <= 30 * size.x + 60) by (nonlinear_arith)
        requires
            crop == (spec_signed_modulo(world.bedges.w as int, 16) + spec_signed_modulo(
                world.bedges.n as int,
                16,
            )) * 1 * size.x + (spec_signed_modulo(world.bedges.w as int, 16) + (15
                - spec_signed_modulo(world.bedges.s as int, 16))) * 2,
            0 <= spec_signed_modulo(world.bedges.n as int, 16) <= 15,
            0 <= spec_signed_modulo(world.bedges.w as int, 16) <= 15,
            0 <= spec_signed_modulo(world.bedges.s as int, 16) <= 15,
            0 <= size.x,
    ;
    (cp.z * size.x + cp.x) as isize - crop as isize
}

/// Draws the chunk at `c` of the region `r` into the image of a world.
fn draw_chunk_at(
    pixels: &mut [u8],
    world: &World,
    blocktypes: &[BlockType],
    water_blocktype: &BlockType,
    view: &View,
    r: &Pair<isize>,
    reg: &RegionData,
    size: &Pair<usize>,
    crop: usize,
    c: &Pair<usize>,
)
    requires
        c.x < 32,
        c.z < 32,
        world.spec_drawable(),
        spec_image_fits(world, *view),
        spec_region_drawable(world, *r, reg, blocktypes@.len() as int),
        spec_types_wf(blocktypes@),
        water_blocktype.wf(),
        size.x == spec_image_width(world, *view),
        size.z == spec_image_height(world, *view),
        crop == spec_image_crop(world, *view),
        old(pixels)@.len() == size.x * size.z * 4,
    ensures
        final(pixels)@.len() == old(pixels)@.len(),
        final(pixels)@ == spec_draw_step(
            old(pixels)@,
            world,
            blocktypes@,
            *water_blocktype,
            *view,
            *r,
            reg,
            c.x as int,
            c.z as int,
        ),
{
    let found: Option<Chunk> = reg.get_chunk(c);
    match found {
        None => {},
        Some(chunk) => {
            proof {
                let model = spec_get_chunk(reg, c.x as int, c.z as int)->Some_0;
                assert(*chunk.data == *model.data);
                assert(spec_deref(chunk.ndata.n) == spec_deref(model.ndata.n));
                assert(spec_deref(chunk.ndata.e) == spec_deref(model.ndata.e));
                assert(spec_deref(chunk.ndata.s) == spec_deref(model.ndata.s));
                assert(spec_deref(chunk.ndata.w) == spec_deref(model.ndata.w));
                assert(chunk == model);
            }
            match view {
                View::Orthographic => {
                    draw_ortho_at(pixels, world, blocktypes, &chunk, r, reg, size, crop, c);
                },
                View::Isometric => {
                    draw_iso_at(
                        pixels,
                        world,
                        blocktypes,
                        water_blocktype,
                        &chunk,
                        r,
                        reg,
                        size,
                        crop,
                        c,
                    );
                },
            }
        },
    }
}

/// Draws the chunks of the region `r` into the image of a world, from the
/// south-eastern chunk back to the north-western. `size` and `crop` are the
/// size of the image and how much of the first tile lies in front of it.
pub fn draw_region(
    pixels: &mut [u8],
    world: &World,
    blocktypes: &[BlockType],
    water_blocktype: &BlockType,
    view: &View,
    r: &Pair<isize>,
    reg: &RegionData,
    size: &Pair<usize>,
    crop: usize,
)
    requires
        world.spec_drawable(),
        spec_image_fits(world, *view),
        spec_region_drawable(world, *r, reg, blocktypes@.len() as int),
        spec_types_wf(blocktypes@),
        water_blocktype.wf(),
        size.x == spec_image_width(world, *view),
        size.z == spec_image_height(world, *view),
        crop == spec_image_crop(world, *view),
        old(pixels)@.len() == size.x * size.z * 4,
    ensures
        final(pixels)@.len() == old(pixels)@.len(),
        final(pixels)@ == spec_draw_region(
            old(pixels)@,
            world,
            blocktypes@,
            *water_blocktype,
            *view,
            *r,
            reg,
            1024,
        ),
{
    let ghost before = pixels@;
    let mut index: usize = 1024;
    while index > 0
        invariant
            index <= 1024,
            world.spec_drawable(),
            spec_image_fits(world, *view),
            spec_region_drawable(world, *r, reg, blocktypes@.len() as int),
            spec_types_wf(blocktypes@),
            water_blocktype.wf(),
            size.x == spec_image_width(world, *view),
            size.z == spec_image_height(world, *view),
            crop == spec_image_crop(world, *view),
            pixels@.len() == before.len(),
            before.len() == size.x * size.z * 4,
            pixels@ == spec_draw_region(
                before,
                world,
                blocktypes@,
                *water_blocktype,
                *view,
                *r,
                reg,
                1024 - index,
            ),
        decreases index,
    {
        index = index - 1;
        let c: Pair<usize> = Pair { x: index % CHUNKS_IN_REGION, z: index / CHUNKS_IN_REGION };
        draw_chunk_at(pixels, world, blocktypes, water_blocktype, view, r, reg, size, crop, &c);
    }
}

/// Whether the chunks of a neighbouring region hold block types of the
/// table only.
pub fn border_valid(chunks: &HashMap<usize, ChunkData>, types: usize) -> (r: bool)
    ensures
        r == spec_border_valid(chunks@, types as int),
{
    let mut index: usize = 0;
    while index < 1024
        invariant
            index <= 1024,
            forall|x: int, z: int|
                0 <= x < 32 && 0 <= z < 32 && z * 32 + x < index ==> match #[trigger] spec_chunk_at(
                    chunks@,
                    x,
                    z,
                ) {
                    Some(d) => d.spec_within(types as int, 256),
                    None => true,
                },
        decreases 1024 - index,
    {
        let ghost x = index as int % 32;
        let ghost z = index as int / 32;
        assert(spec_chunk_key(x, z) == index);
        match chunks.get(&index) {
            Some(d) => {
                if !d.within(types, 256) {
                    assert(spec_chunk_at(chunks@, x, z) == Some(*d));
                    return false;
                }
            },
            None => {},
        }
        index = index + 1;
    }
    true
}

/// Whether the chunks of a region can be drawn into the image of a world.
pub fn region_drawable(world: &World, r: &Pair<isize>, reg: &RegionData, types: usize) -> (res: bool)
    ensures
        res == spec_region_drawable(world, *r, reg, types as int),
{
    if !(block_to_region(world.bedges.w) <= r.x && r.x <= block_to_region(world.bedges.e)
        && block_to_region(world.bedges.n) <= r.z && r.z <= block_to_region(world.bedges.s)) {
        return false;
    }
    let limits: Edges<usize> = region_limits(&world.bedges, r);
    let mut index: usize = 0;
    while index < 1024
        invariant
            index <= 1024,
            limits == spec_region_limits(world.bedges, *r),
            forall|x: int, z: int|
                0 <= x < 32 && 0 <= z < 32 && z * 32 + x < index ==> match #[trigger] spec_chunk_at(
                    reg.chunks@,
                    x,
                    z,
                ) {
                    Some(d) => spec_in_limits(limits, x, z) && d.spec_within(
                        types as int,
                        BIOME_ARRAY_SIZE as int,
                    ),
                    None => true,
                },
        decreases 1024 - index,
    {
        let x: usize = index % 32;
        let z: usize = index / 32;
        assert(spec_chunk_key(x as int, z as int) == index);
        match reg.chunks.get(&index) {
            Some(d) => {
                assert(spec_chunk_at(reg.chunks@, x as int, z as int) == Some(*d));
                if !(limits.w <= x && x <= limits.e && limits.n <= z && z <= limits.s) {
                    return false;
                }
                if !d.within(types, BIOME_ARRAY_SIZE) {
                    return false;
                }
            },
            None => {},
        }
        index = index + 1;
    }
    border_valid(&reg.nchunks.n, types) && border_valid(&reg.nchunks.e, types) && border_valid(
        &reg.nchunks.s,
        types,
    ) && border_valid(&reg.nchunks.w, types)
}

/// Whether an image of the size of the world's image can be addressed.
pub fn image_fits(world: &World, view: &View) -> (r: bool)
    ensures
        r == spec_image_fits(world, *view),
{
    let bx: u128 = world.bsize.x as u128;
    let bz: u128 = world.bsize.z as u128;
    let (width, height, limit): (u128, u128, u128) = match view {
        View::Orthographic => (bx, bz, 0x03ff_ffff),
        View::Isometric => ((bx + bz) * 2, bx + bz + 768, 0x001f_ffff),
    };
    if width > limit {
        return false;
    }
    assert(width * height <= 0x03ff_ffff * 0x2_0000_0000_0000_0300) by (nonlinear_arith)
        requires
            0 <= width <= 0x03ff_ffff,
            0 <= height <= 0x2_0000_0000_0000_0300,
    ;
    assert(width * height * 8 == (width * height) * 8);
    width * height * 8 <= isize::MAX as u128
}

/// An image of the size of the world's image, blank: four bytes a pixel,
/// row by row. Nothing where such an image cannot be addressed.
pub fn create_pixels(world: &World, view: &View) -> (r: Option<Vec<u8>>)
    ensures
        match r {
            Some(pixels) => spec_image_fits(world, *view) && pixels@.len() == spec_image_width(
                world,
                *view,
            ) * spec_image_height(world, *view) * 4 && forall|i: int|
                0 <= i < pixels@.len() ==> pixels@[i] == 0,
            None => !spec_image_fits(world, *view),
        },
{
    if !image_fits(world, view) {
        return None;
    }
    let size: Pair<usize> = get_size(world, view);
    assert(size.x * size.z * 4 <= isize::MAX && size.x * size.z >= 0) by (nonlinear_arith)
        requires
            size.x * size.z * 8 <= isize::MAX,
            size.x >= 0,
            size.z >= 0,
    ;
    let len: usize = size.x * size.z * 4;
    let pixels: Vec<u8> = vec![0u8; len];
    Some(pixels)
}

/// The image of a world without a chunk to draw: one blank pixel.
pub fn blank_image() -> (image: (Pair<usize>, Vec<u8>))
    ensures
        image.0.x == 1,
        image.0.z == 1,
        image.1@ == seq![0u8, 0u8, 0u8, 0u8],
{
    let pixels: Vec<u8> = vec![0u8, 0u8, 0u8, 0u8];
    (Pair { x: 1, z: 1 }, pixels)
}

/// The blank image on which what was found of a world is drawn, with its
/// size: that of the world's image, or one pixel where there is no world.
/// Nothing where the world's image cannot be addressed.
pub fn create_image(found: &Option<World>, view: &View) -> (r: Option<(Pair<usize>, Vec<u8>)>)
    ensures
        match *found {
            None => r matches Some(image) && image.0.x == 1 && image.0.z == 1 && image.1@
                == seq![0u8, 0u8, 0u8, 0u8],
            Some(world) => match r {
                Some(image) => spec_image_fits(&world, *view) && image.0.x == spec_image_width(
                    &world,
                    *view,
                ) && image.0.z == spec_image_height(&world, *view) && image.1@.len() == image.0.x
                    * image.0.z * 4 && forall|i: int|
                    0 <= i < image.1@.len() ==> image.1@[i] == 0,
                None => !spec_image_fits(&world, *view),
            },
        },
{
    match found {
        None => Some(blank_image()),
        Some(world) => match create_pixels(world, view) {
            None => None,
            Some(pixels) => {
                let size: Pair<usize> = get_size(world, view);
                Some((size, pixels))
            },
        },
    }
}

/// Draws the chunks of the region `r` into the image of a world where they
/// can be drawn, and tells whether they could: the world's bounds must fit
/// together, the image must be of the world's size, the block types must
/// have their colours, `water` must be the place of a block type, and the
/// region's chunks must lie inside the world and hold what the block types
/// and colours know. Where they cannot be drawn the image stays as it is.
pub fn draw_map_region(
    pixels: &mut [u8],
    world: &World,
    blocktypes: &[BlockType],
    water: usize,
    view: &View,
    r: &Pair<isize>,
    reg: &RegionData,
) -> (drawn: bool)
    ensures
        final(pixels)@.len() == old(pixels)@.len(),
        drawn == (world.spec_drawable() && spec_image_fits(world, *view) && water
            < blocktypes@.len() && spec_types_wf(blocktypes@) && spec_region_drawable(
            world,
            *r,
            reg,
            blocktypes@.len() as int,
        ) && old(pixels)@.len() == spec_image_width(world, *view) * spec_image_height(world, *view)
            * 4),
        drawn ==> final(pixels)@ == spec_draw_region(
            old(pixels)@,
            world,
            blocktypes@,
            blocktypes@[water as int],
            *view,
            *r,
            reg,
            1024,
        ),
        !drawn ==> final(pixels)@ == old(pixels)@,
{
    if !(world.drawable() && image_fits(world, view) && water < blocktypes.len() && types_wf(
        blocktypes,
    ) && region_drawable(world, r, reg, blocktypes.len())) {
        return false;
    }
    let size: Pair<usize> = get_size(world, view);
    assert(size.x * size.z * 4 <= isize::MAX && size.x * size.z >= 0) by (nonlinear_arith)
        requires
            size.x * size.z * 8 <= isize::MAX,
            size.x >= 0,
            size.z >= 0,
    ;
    if pixels.len() != size.x * size.z * 4 {
        return false;
    }
    let crop: usize = get_crop(world, view, &size);
    draw_region(pixels, world, blocktypes, &blocktypes[water], view, r, reg, &size, crop);
    true
}

/// Where the pixel of the block column at `(x, z)` of the world lies in the
/// image of the world seen from above: as far from the image's top left
/// corner as the column from the world's north-western corner.
pub open spec fn spec_ortho_pixel(world: &World, x: int, z: int) -> int {
    ((z - world.bedges.n) * world.bsize.x + (x - world.bedges.w)) * 4
}

/// Whether the block column at `(x, z)` of the world lies inside the world's
/// bounds in a chunk of the region `r` that holds data and is among the first
/// `count` cells that are drawn.
pub open spec fn spec_column_drawn(
    world: &World,
    r: Pair<isize>,
    reg: &RegionData,
    count: int,
    x: int,
    z: int,
) -> bool {
    let cx = x / 16 - r.x * 32;
    let cz = z / 16 - r.z * 32;
    &&& world.bedges.w <= x <= world.bedges.e
    &&& world.bedges.n <= z <= world.bedges.s
    &&& 0 <= cx < 32
    &&& 0 <= cz < 32
    &&& spec_get_chunk(reg, cx, cz) is Some
    &&& cz * 32 + cx >= 1024 - count
}

/// The colour of the block column at `(x, z)` of the world seen from above,
/// in the chunk of the region `r` that holds it.
pub open spec fn spec_world_column_color(
    world: &World,
    blocktypes: Seq<BlockType>,
    r: Pair<isize>,
    reg: &RegionData,
    x: int,
    z: int,
) -> crate::color::RGBA {
    orthomap::spec_column_color(
        spec_get_chunk(reg, x / 16 - r.x * 32, z / 16 - r.z * 32)->Some_0,
        blocktypes,
        x % 16,
        z % 16,
        world.ylimits.start as int,
        world.ylimits.end - 1,
    )
}

/// Whether the byte `p` of an image belongs to the pixel of a block column
/// that is drawn.
pub open spec fn spec_in_drawn_column(
    world: &World,
    r: Pair<isize>,
    reg: &RegionData,
    count: int,
    p: int,
) -> bool {
    exists|x: int, z: int|
        spec_column_drawn(world, r, reg, count, x, z) && #[trigger] spec_ortho_pixel(world, x, z)
            <= p < spec_ortho_pixel(world, x, z) + 4
}

/// The pixels of two block columns inside the world's bounds lie apart.
pub proof fn lemma_ortho_pixels_apart(world: &World, x1: int, z1: int, x2: int, z2: int)
    requires
        world.spec_drawable(),
        world.bedges.w <= x1 <= world.bedges.e,
        world.bedges.w <= x2 <= world.bedges.e,
        x1 != x2 || z1 != z2,
    ensures
        spec_ortho_pixel(world, x1, z1) + 4 <= spec_ortho_pixel(world, x2, z2) || spec_ortho_pixel(
            world,
            x2,
            z2,
        ) + 4 <= spec_ortho_pixel(world, x1, z1),
{
    let width = world.bsize.x as int;
    let a = x1 - world.bedges.w;
    let b = x2 - world.bedges.w;
    let c = z1 - world.bedges.n;
    let d = z2 - world.bedges.n;
    assert(c * width + a != d * width + b) by (nonlinear_arith)
        requires
            0 <= a < width,
            0 <= b < width,
            a != b || c != d,
    ;
}

/// The columns of a chunk inside its limits are the block columns of the
/// chunk that lie inside the world's bounds.
pub proof fn lemma_chunk_limits_hold(world: &World, r: Pair<isize>, cx: int, cz: int, bx: int, bz: int)
    requires
        world.spec_drawable(),
        0 <= cx < 32,
        0 <= cz < 32,
        0 <= bx < 16,
        0 <= bz < 16,
        spec_divide(world.bedges.w as int, 512) <= r.x <= spec_divide(world.bedges.e as int, 512),
        spec_divide(world.bedges.n as int, 512) <= r.z <= spec_divide(world.bedges.s as int, 512),
        spec_in_limits(spec_region_limits(world.bedges, r), cx, cz),
    ensures
        ({
            let limits = spec_chunk_limits(world.bedges, r.x * 32 + cx, r.z * 32 + cz);
            &&& limits.w <= bx <= limits.e <==> world.bedges.w <= (r.x * 32 + cx) * 16 + bx
                <= world.bedges.e
            &&& limits.n <= bz <= limits.s <==> world.bedges.n <= (r.z * 32 + cz) * 16 + bz
                <= world.bedges.s
        }),
{
    lemma_chunk_in_world(world, r, cx, cz);
}

/// Whether `out` is the image `pixels` of a world seen from above with the
/// first `count` cells of a region drawn into it: the pixel of each block
/// column of those cells holds the colour of that column, and the rest of
/// the image is as it was.
pub open spec fn spec_ortho_region_holds(
    out: Seq<u8>,
    pixels: Seq<u8>,
    world: &World,
    blocktypes: Seq<BlockType>,
    r: Pair<isize>,
    reg: &RegionData,
    count: int,
) -> bool {
    &&& out.len() == pixels.len()
    &&& forall|x: int, z: int, k: int|
        spec_column_drawn(world, r, reg, count, x, z) && 0 <= k < 4 ==> out[#[trigger] spec_ortho_pixel(
            world,
            x,
            z,
        ) + k] == #[trigger] orthomap::spec_channel(
            spec_world_column_color(world, blocktypes, r, reg, x, z),
            k,
        )
    &&& forall|p: int|
        0 <= p < pixels.len() && !spec_in_drawn_column(world, r, reg, count, p) ==> #[trigger] out[p]
            == pixels[p]
}

/// The cell of a region that a block column lies in is the one that its
/// place among the cells tells.
proof fn lemma_cell_of_column(cx: int, cz: int, ccx: int, ccz: int)
    requires
        0 <= cx < 32,
        0 <= ccx < 32,
        ccz * 32 + ccx == cz * 32 + cx,
    ensures
        ccx == cx,
        ccz == cz,
{
}

/// A cell without a chunk leaves the image as it is.
proof fn lemma_ortho_cell_absent(
    out: Seq<u8>,
    pixels: Seq<u8>,
    world: &World,
    blocktypes: Seq<BlockType>,
    r: Pair<isize>,
    reg: &RegionData,
    count: int,
)
    requires
        0 < count <= 1024,
        spec_get_chunk(reg, (1024 - count) % 32, (1024 - count) / 32) is None,
        spec_ortho_region_holds(out, pixels, world, blocktypes, r, reg, count - 1),
    ensures
        spec_ortho_region_holds(out, pixels, world, blocktypes, r, reg, count),
{
    let cx = (1024 - count) % 32;
    let cz = (1024 - count) / 32;
    assert forall|x: int, z: int| spec_column_drawn(world, r, reg, count, x, z) implies spec_column_drawn(
        world,
        r,
        reg,
        count - 1,
        x,
        z,
    ) by {
        let ccx = x / 16 - r.x * 32;
        let ccz = z / 16 - r.z * 32;
        if ccz * 32 + ccx == 1024 - count {
            lemma_cell_of_column(cx, cz, ccx, ccz);
        }
    }
    assert forall|p: int|
        0 <= p < pixels.len() && !spec_in_drawn_column(
            world,
            r,
            reg,
            count,
            p,
        ) implies #[trigger] out[p] == pixels[p] by {
        if spec_in_drawn_column(world, r, reg, count - 1, p) {
            let (x, z) = choose|x: int, z: int|
                spec_column_drawn(world, r, reg, count - 1, x, z) && #[trigger] spec_ortho_pixel(
                    world,
                    x,
                    z,
                ) <= p < spec_ortho_pixel(world, x, z) + 4;
            assert(spec_column_drawn(world, r, reg, count, x, z));
        }
    }
}

/// What drawing the chunk of a cell does to an image in which the cells in
/// front of it have been drawn: the chunk's tile holds the colours of the
/// chunk's columns inside the world's bounds, and the rest is as it was.
pub open spec fn spec_ortho_cell_drawn(
    out: Seq<u8>,
    prior: Seq<u8>,
    world: &World,
    blocktypes: Seq<BlockType>,
    r: Pair<isize>,
    reg: &RegionData,
    cx: int,
    cz: int,
) -> bool {
    let chunk = spec_get_chunk(reg, cx, cz)->Some_0;
    let limits = spec_chunk_limits(world.bedges, r.x * 32 + cx, r.z * 32 + cz);
    let co = spec_tile_offset(world, View::Orthographic, r, cx, cz);
    let width = world.bsize.x as int;
    &&& out.len() == prior.len()
    &&& forall|bx: int, bz: int, k: int|
        limits.w <= bx <= limits.e && limits.n <= bz <= limits.s && 0 <= k < 4 ==> out[#[trigger] orthomap::spec_ortho_offset(
            co,
            width,
            bx,
            bz,
        ) + k] == #[trigger] orthomap::spec_channel(
            orthomap::spec_column_color(
                chunk,
                blocktypes,
                bx,
                bz,
                world.ylimits.start as int,
                world.ylimits.end - 1,
            ),
            k,
        )
    &&& forall|p: int|
        0 <= p < prior.len() && !orthomap::spec_in_ortho_tile(p, co, width, limits) ==> #[trigger] out[p]
            == prior[p]
}

/// The pixel of each block column of the cells drawn so far holds the
/// colour of that column, once the chunk of one more cell has been drawn.
proof fn lemma_ortho_cell_colors(
    out: Seq<u8>,
    prior: Seq<u8>,
    pixels: Seq<u8>,
    world: &World,
    blocktypes: Seq<BlockType>,
    r: Pair<isize>,
    reg: &RegionData,
    count: int,
    x: int,
    z: int,
    k: int,
)
    requires
        world.spec_drawable(),
        spec_region_drawable(world, r, reg, blocktypes.len() as int),
        pixels.len() == world.bsize.x * world.bsize.z * 4,
        0 < count <= 1024,
        spec_get_chunk(reg, (1024 - count) % 32, (1024 - count) / 32) is Some,
        spec_ortho_region_holds(prior, pixels, world, blocktypes, r, reg, count - 1),
        spec_ortho_cell_drawn(
            out,
            prior,
            world,
            blocktypes,
            r,
            reg,
            (1024 - count) % 32,
            (1024 - count) / 32,
        ),
        spec_column_drawn(world, r, reg, count, x, z),
        0 <= k < 4,
    ensures
        out[spec_ortho_pixel(world, x, z) + k] == orthomap::spec_channel(
            spec_world_column_color(world, blocktypes, r, reg, x, z),
            k,
        ),
{
    let cx = (1024 - count) % 32;
    let cz = (1024 - count) / 32;
    let wcx = r.x * 32 + cx;
    let wcz = r.z * 32 + cz;
    let chunk = spec_get_chunk(reg, cx, cz)->Some_0;
    let limits = spec_chunk_limits(world.bedges, wcx, wcz);
    let co = spec_tile_offset(world, View::Orthographic, r, cx, cz);
    let width = world.bsize.x as int;
    let bottom = world.ylimits.start as int;
    let ymax = world.ylimits.end - 1;
    lemma_chunk_in_world(world, r, cx, cz);
    let ccx = x / 16 - r.x * 32;
    let ccz = z / 16 - r.z * 32;
    if ccx == cx && ccz == cz {
        let bx = x % 16;
        let bz = z % 16;
        assert(x == wcx * 16 + bx && z == wcz * 16 + bz);
        lemma_chunk_limits_hold(world, r, cx, cz, bx, bz);
        lemma_ortho_offset(world, r, cx, cz, bx, bz);
        assert(orthomap::spec_ortho_offset(co, width, bx, bz) == spec_ortho_pixel(world, x, z));
        assert(out[orthomap::spec_ortho_offset(co, width, bx, bz) + k] == orthomap::spec_channel(
            orthomap::spec_column_color(chunk, blocktypes, bx, bz, bottom, ymax),
            k,
        ));
    } else {
        if ccz * 32 + ccx == 1024 - count {
            lemma_cell_of_column(cx, cz, ccx, ccz);
        }
        assert(spec_column_drawn(world, r, reg, count - 1, x, z));
        let p = spec_ortho_pixel(world, x, z) + k;
        assert(prior[p] == orthomap::spec_channel(
            spec_world_column_color(world, blocktypes, r, reg, x, z),
            k,
        ));
        lemma_ortho_pixel_in_image(
            x - world.bedges.w,
            z - world.bedges.n,
            width,
            world.bsize.z as int,
        );
        if orthomap::spec_in_ortho_tile(p, co, width, limits) {
            let (bx, bz) = choose|bx: int, bz: int|
                limits.w <= bx <= limits.e && limits.n <= bz <= limits.s
                    && #[trigger] orthomap::spec_ortho_offset(co, width, bx, bz) <= p
                    < orthomap::spec_ortho_offset(co, width, bx, bz) + 4;
            lemma_ortho_offset(world, r, cx, cz, bx, bz);
            lemma_ortho_pixels_apart(world, x, z, wcx * 16 + bx, wcz * 16 + bz);
            assert(false);
        }
    }
}

/// A byte of the image outside the pixels of the block columns drawn so far
/// is as it was, once the chunk of one more cell has been drawn.
proof fn lemma_ortho_cell_frame(
    out: Seq<u8>,
    prior: Seq<u8>,
    pixels: Seq<u8>,
    world: &World,
    blocktypes: Seq<BlockType>,
    r: Pair<isize>,
    reg: &RegionData,
    count: int,
    p: int,
)
    requires
        world.spec_drawable(),
        spec_region_drawable(world, r, reg, blocktypes.len() as int),
        pixels.len() == world.bsize.x * world.bsize.z * 4,
        0 < count <= 1024,
        spec_get_chunk(reg, (1024 - count) % 32, (1024 - count) / 32) is Some,
        spec_ortho_region_holds(prior, pixels, world, blocktypes, r, reg, count - 1),
        spec_ortho_cell_drawn(
            out,
            prior,
            world,
            blocktypes,
            r,
            reg,
            (1024 - count) % 32,
            (1024 - count) / 32,
        ),
        0 <= p < pixels.len(),
        !spec_in_drawn_column(world, r, reg, count, p),
    ensures
        out[p] == pixels[p],
{
    let cx = (1024 - count) % 32;
    let cz = (1024 - count) / 32;
    let wcx = r.x * 32 + cx;
    let wcz = r.z * 32 + cz;
    let limits = spec_chunk_limits(world.bedges, wcx, wcz);
    let co = spec_tile_offset(world, View::Orthographic, r, cx, cz);
    let width = world.bsize.x as int;
    lemma_chunk_in_world(world, r, cx, cz);
    if orthomap::spec_in_ortho_tile(p, co, width, limits) {
        let (bx, bz) = choose|bx: int, bz: int|
            limits.w <= bx <= limits.e && limits.n <= bz <= limits.s
                && #[trigger] orthomap::spec_ortho_offset(co, width, bx, bz) <= p
                < orthomap::spec_ortho_offset(co, width, bx, bz) + 4;
        lemma_ortho_offset(world, r, cx, cz, bx, bz);
        lemma_chunk_limits_hold(world, r, cx, cz, bx, bz);
        let x = wcx * 16 + bx;
        let z = wcz * 16 + bz;
        assert(x / 16 == wcx && z / 16 == wcz);
        assert(spec_column_drawn(world, r, reg, count, x, z));
        assert(spec_ortho_pixel(world, x, z) <= p);
        assert(false);
    }
    if spec_in_drawn_column(world, r, reg, count - 1, p) {
        let (x, z) = choose|x: int, z: int|
            spec_column_drawn(world, r, reg, count - 1, x, z) && #[trigger] spec_ortho_pixel(
                world,
                x,
                z,
            ) <= p < spec_ortho_pixel(world, x, z) + 4;
        assert(spec_column_drawn(world, r, reg, count, x, z));
        assert(false);
    }
}

/// After the first `count` cells of a region have been drawn into the image
/// of a world seen from above, the pixel of each block column of those cells
/// holds the colour of that column, and the rest of the image is as it was:
/// a cell without a chunk, and a chunk that could not be decoded, leave
/// their tile blank.
pub proof fn lemma_ortho_region_drawn(
    pixels: Seq<u8>,
    world: &World,
    blocktypes: Seq<BlockType>,
    water: BlockType,
    r: Pair<isize>,
    reg: &RegionData,
    count: int,
)
    requires
        world.spec_drawable(),
        spec_region_drawable(world, r, reg, blocktypes.len() as int),
        pixels.len() == world.bsize.x * world.bsize.z * 4,
        0 <= count <= 1024,
    ensures
        spec_ortho_region_holds(
            spec_draw_region(pixels, world, blocktypes, water, View::Orthographic, r, reg, count),
            pixels,
            world,
            blocktypes,
            r,
            reg,
            count,
        ),
    decreases count,
{
    let view = View::Orthographic;
    let out = spec_draw_region(pixels, world, blocktypes, water, view, r, reg, count);
    if count > 0 {
        lemma_ortho_region_drawn(pixels, world, blocktypes, water, r, reg, count - 1);
        let prior = spec_draw_region(pixels, world, blocktypes, water, view, r, reg, count - 1);
        let cx = (1024 - count) % 32;
        let cz = (1024 - count) / 32;
        match spec_get_chunk(reg, cx, cz) {
            None => {
                assert(out == prior);
                lemma_ortho_cell_absent(out, pixels, world, blocktypes, r, reg, count);
            },
            Some(chunk) => {
                lemma_ortho_cell_step(prior, world, blocktypes, water, r, reg, cx, cz);
                assert(out == spec_draw_step(
                    prior,
                    world,
                    blocktypes,
                    water,
                    view,
                    r,
                    reg,
                    cx,
                    cz,
                ));
                assert forall|x: int, z: int, k: int|
                    spec_column_drawn(world, r, reg, count, x, z) && 0 <= k < 4 implies out[
                #[trigger] spec_ortho_pixel(world, x, z) + k] == #[trigger] orthomap::spec_channel(
                    spec_world_column_color(world, blocktypes, r, reg, x, z),
                    k,
                ) by {
                    lemma_ortho_cell_colors(
                        out,
                        prior,
                        pixels,
                        world,
                        blocktypes,
                        r,
                        reg,
                        count,
                        x,
                        z,
                        k,
                    );
                }
                assert forall|p: int|
                    0 <= p < pixels.len() && !spec_in_drawn_column(
                        world,
                        r,
                        reg,
                        count,
                        p,
                    ) implies #[trigger] out[p] == pixels[p] by {
                    lemma_ortho_cell_frame(out, prior, pixels, world, blocktypes, r, reg, count, p);
                }
            },
        }
    } else {
        assert(out == pixels);
    }
}

/// Drawing the chunk of a cell of a region into the image of a world seen
/// from above fills the chunk's tile and leaves the rest as it was.
proof fn lemma_ortho_cell_step(
    prior: Seq<u8>,
    world: &World,
    blocktypes: Seq<BlockType>,
    water: BlockType,
    r: Pair<isize>,
    reg: &RegionData,
    cx: int,
    cz: int,
)
    requires
        world.spec_drawable(),
        spec_region_drawable(world, r, reg, blocktypes.len() as int),
        prior.len() == world.bsize.x * world.bsize.z * 4,
        0 <= cx < 32,
        0 <= cz < 32,
        spec_get_chunk(reg, cx, cz) is Some,
    ensures
        spec_ortho_cell_drawn(
            spec_draw_step(prior, world, blocktypes, water, View::Orthographic, r, reg, cx, cz),
            prior,
            world,
            blocktypes,
            r,
            reg,
            cx,
            cz,
        ),
{
    let chunk = spec_get_chunk(reg, cx, cz)->Some_0;
    lemma_chunk_valid(world, r, reg, blocktypes.len() as int, cx, cz);
    lemma_chunk_in_world(world, r, cx, cz);
    lemma_ortho_tile_fits(world, r, cx, cz);
    orthomap::lemma_ortho_chunk_drawn(
        prior,
        chunk,
        blocktypes,
        spec_tile_offset(world, View::Orthographic, r, cx, cz),
        world.bsize.x as int,
        spec_chunk_limits(world.bedges, r.x * 32 + cx, r.z * 32 + cz),
        world.ylimits.start as int,
        world.ylimits.end - 1,
    );
}

/// Whether the byte `p` of the image of a world in isometric view lies in
/// the footprint of a block that is drawn of the chunk at `(cx, cz)` of a
/// region: no byte does where the cell holds no chunk.
pub open spec fn spec_in_iso_cell(
    p: int,
    world: &World,
    blocktypes: Seq<BlockType>,
    r: Pair<isize>,
    reg: &RegionData,
    cx: int,
    cz: int,
) -> bool {
    spec_get_chunk(reg, cx, cz) matches Some(chunk) && isomap::spec_in_iso_tile(
        p,
        chunk,
        blocktypes,
        spec_tile_offset(world, View::Isometric, r, cx, cz),
        spec_image_width(world, View::Isometric),
        spec_chunk_limits(world.bedges, r.x * 32 + cx, r.z * 32 + cz),
        world.ylimits.start as int,
        world.ylimits.end - 1,
    )
}

/// Whether the byte `p` of the image lies in the footprint of a block that
/// is drawn of one of the first `count` cells of a region.
pub open spec fn spec_in_iso_region(
    p: int,
    world: &World,
    blocktypes: Seq<BlockType>,
    r: Pair<isize>,
    reg: &RegionData,
    count: int,
) -> bool {
    exists|cx: int, cz: int|
        0 <= cx < 32 && 0 <= cz < 32 && cz * 32 + cx >= 1024 - count && #[trigger] spec_in_iso_cell(
            p,
            world,
            blocktypes,
            r,
            reg,
            cx,
            cz,
        )
}

/// After the first `count` cells of a region have been drawn into the image
/// of a world in isometric view, every byte outside the footprints of the
/// blocks that were drawn is as it was: a cell without a chunk, and a chunk
/// that could not be decoded, leave their tile blank.
pub proof fn lemma_iso_region_frame(
    pixels: Seq<u8>,
    world: &World,
    blocktypes: Seq<BlockType>,
    water: BlockType,
    r: Pair<isize>,
    reg: &RegionData,
    count: int,
    p: int,
)
    requires
        world.spec_drawable(),
        spec_region_drawable(world, r, reg, blocktypes.len() as int),
        pixels.len() == spec_image_width(world, View::Isometric) * spec_image_height(
            world,
            View::Isometric,
        ) * 4,
        0 <= count <= 1024,
        0 <= p < pixels.len(),
        !spec_in_iso_region(p, world, blocktypes, r, reg, count),
    ensures
        spec_draw_region(pixels, world, blocktypes, water, View::Isometric, r, reg, count).len()
            == pixels.len(),
        spec_draw_region(pixels, world, blocktypes, water, View::Isometric, r, reg, count)[p]
            == pixels[p],
    decreases count,
{
    let view = View::Isometric;
    if count > 0 {
        let cx = (1024 - count) % 32;
        let cz = (1024 - count) / 32;
        if spec_in_iso_region(p, world, blocktypes, r, reg, count - 1) {
            let (ax, az) = choose|ax: int, az: int|
                0 <= ax < 32 && 0 <= az < 32 && az * 32 + ax >= 1024 - (count - 1)
                    && #[trigger] spec_in_iso_cell(p, world, blocktypes, r, reg, ax, az);
            assert(spec_in_iso_cell(p, world, blocktypes, r, reg, ax, az));
            assert(false);
        }
        lemma_iso_region_frame(pixels, world, blocktypes, water, r, reg, count - 1, p);
        let prior = spec_draw_region(pixels, world, blocktypes, water, view, r, reg, count - 1);
        match spec_get_chunk(reg, cx, cz) {
            None => {},
            Some(chunk) => {
                assert(!spec_in_iso_cell(p, world, blocktypes, r, reg, cx, cz));
                lemma_chunk_valid(world, r, reg, blocktypes.len() as int, cx, cz);
                lemma_chunk_in_world(world, r, cx, cz);
                lemma_iso_tile_fits(world, r, cx, cz);
                let limits = spec_chunk_limits(world.bedges, r.x * 32 + cx, r.z * 32 + cz);
                isomap::lemma_iso_chunk_frame(
                    prior,
                    chunk,
                    blocktypes,
                    water,
                    spec_tile_offset(world, view, r, cx, cz),
                    spec_image_width(world, view),
                    limits,
                    world.ylimits.start as int,
                    world.ylimits.end - 1,
                    limits.n as int,
                    p,
                );
            },
        }
    }
}

} // verus!
