use std::io::Write;

use rmapbash::blockstates::pack_block_states;
use rmapbash::blocktypes::{color_index, find_water, types_wf, BlockType};
use rmapbash::color::RGBA;
use rmapbash::isomap;
use rmapbash::map::{
    blank_image, chunk_limits, create_image, create_pixels, draw_map_region, get_crop, get_size, image_fits,
    region_drawable,
};
use rmapbash::options::View;
use rmapbash::orthomap;
use rmapbash::region::{read_region_data, Chunk, ChunkData, RegionData};
use rmapbash::types::{Edges, Pair};
use rmapbash::world::{get_world, World};

/// The colour of a block type for a biome, two light levels and a variant,
/// made so that each place in the table has a colour of its own.
fn render_color(kind: u8, biome: usize, sky: usize, block: usize, variant: usize, alpha: u8) -> RGBA {
    RGBA { r: kind * 16 + variant as u8, g: (sky * 16 + block) as u8, b: biome as u8, a: alpha }
}

fn render_blocktype(name: &str, kind: u8, alpha: u8, solid: bool, empty: bool) -> BlockType {
    let mut colors = Vec::with_capacity(304640);
    for biome in 0..170 {
        for sky in 0..16 {
            for block in 0..16 {
                for variant in 0..7 {
                    colors.push(render_color(kind, biome, sky, block, variant, alpha));
                }
            }
        }
    }
    BlockType {
        name: name.to_string(),
        colors,
        state: vec![],
        shape: [[1, 1, 2, 2], [1, 1, 2, 2], [1, 1, 3, 3], [1, 1, 3, 3]],
        solid,
        empty,
        waterlogged: false,
    }
}

fn render_blocktypes() -> Vec<BlockType> {
    vec![
        render_blocktype("minecraft:air", 0, 0, false, true),
        render_blocktype("minecraft:stone", 1, 255, true, false),
        render_blocktype("minecraft:glass", 2, 100, false, false),
        render_blocktype("minecraft:water", 3, 128, false, false),
    ]
}

fn render_header(id: u8, name: &str) -> Vec<u8> {
    let mut out = vec![id];
    out.extend_from_slice(&(name.len() as u16).to_be_bytes());
    out.extend_from_slice(name.as_bytes());
    out
}

fn render_palette_entry(name: &str) -> Vec<u8> {
    let mut out = render_header(8, "Name");
    out.extend_from_slice(&(name.len() as u16).to_be_bytes());
    out.extend_from_slice(name.as_bytes());
    out.push(0);
    out
}

fn render_section(y: u8, indices: &[u16], sky: u8, block: u8) -> Vec<u8> {
    let mut out = render_header(1, "Y");
    out.push(y);
    out.extend(render_header(9, "Palette"));
    out.push(10);
    out.extend_from_slice(&4u32.to_be_bytes());
    for name in ["minecraft:air", "minecraft:stone", "minecraft:glass", "minecraft:water"] {
        out.extend(render_palette_entry(name));
    }
    let states = pack_block_states(&indices.to_vec(), 4);
    out.extend(render_header(12, "BlockStates"));
    out.extend_from_slice(&(states.len() as u32).to_be_bytes());
    for long in states {
        out.extend_from_slice(&long.to_be_bytes());
    }
    out.extend(render_header(7, "SkyLight"));
    out.extend_from_slice(&2048u32.to_be_bytes());
    out.extend(vec![sky | (sky << 4); 2048]);
    out.extend(render_header(7, "BlockLight"));
    out.extend_from_slice(&2048u32.to_be_bytes());
    out.extend(vec![block | (block << 4); 2048]);
    out.push(0);
    out
}

fn render_chunk_nbt(sections: &[Vec<u8>], biome: u8) -> Vec<u8> {
    let mut out = render_header(10, "Level");
    out.extend(render_header(7, "Biomes"));
    out.extend_from_slice(&256u32.to_be_bytes());
    out.extend(vec![biome; 256]);
    out.extend(render_header(9, "Sections"));
    out.push(10);
    out.extend_from_slice(&(sections.len() as u32).to_be_bytes());
    for section in sections {
        out.extend_from_slice(section);
    }
    out.push(0);
    out.push(0);
    out
}

fn render_region_file(chunks: &[(usize, usize, Vec<u8>)]) -> Vec<u8> {
    let mut file = vec![0u8; 8192];
    for (cx, cz, nbt) in chunks {
        let mut root = render_header(10, "");
        root.extend_from_slice(nbt);
        let mut encoder =
            flate2::write::ZlibEncoder::new(Vec::new(), flate2::Compression::default());
        encoder.write_all(&root).unwrap();
        let compressed = encoder.finish().unwrap();
        let sector = file.len() / 4096;
        let entry = ((sector as u32) << 8) | 1;
        let at = (cz * 32 + cx) * 4;
        file[at..at + 4].copy_from_slice(&entry.to_be_bytes());
        file.extend_from_slice(&((compressed.len() + 1) as u32).to_be_bytes());
        file.push(2);
        file.extend_from_slice(&compressed);
        while file.len() % 4096 != 0 {
            file.push(0);
        }
    }
    file
}

fn render_no_files() -> Edges<Option<Vec<u8>>> {
    Edges { n: None, e: None, s: None, w: None }
}

/// Draws the world of one region file at region (0, 0).
fn render_world(
    file: Vec<u8>,
    view: View,
    limits: Option<Edges<isize>>,
    ylimits: std::ops::Range<usize>,
    nfiles: &Edges<Option<Vec<u8>>>,
) -> (World, Vec<u8>) {
    let blocktypes = render_blocktypes();
    assert!(types_wf(&blocktypes));
    let files = vec![("r.0.0.mca".to_string(), file)];
    let world = get_world(&files, &limits, ylimits).unwrap().unwrap();
    assert!(world.drawable());
    assert!(image_fits(&world, &view));
    let mut pixels = create_pixels(&world, &view).unwrap();
    let r = Pair { x: 0, z: 0 };
    let region = read_region_data(&world, &r, Some(&files[0].1[..]), nfiles, &blocktypes)
        .unwrap()
        .unwrap();
    assert!(region_drawable(&world, &r, &region, blocktypes.len()));
    let water = find_water(&blocktypes).unwrap();
    assert_eq!(water, 3);
    assert!(draw_map_region(&mut pixels, &world, &blocktypes, water, &view, &r, &region));
    (world, pixels)
}

fn render_pixel(pixels: &[u8], width: usize, x: usize, y: usize) -> RGBA {
    let po = (y * width + x) * 4;
    RGBA { r: pixels[po], g: pixels[po + 1], b: pixels[po + 2], a: pixels[po + 3] }
}

#[test]
fn chunk_of_stone_is_a_tile_of_the_colour_of_stone() {
    let sections: Vec<Vec<u8>> = (0..16).map(|y| render_section(y, &[1u16; 4096], 0, 0)).collect();
    let file = render_region_file(&[(2, 3, render_chunk_nbt(&sections, 5))]);
    let (world, pixels) = render_world(file, View::Orthographic, None, 0..256, &render_no_files());
    assert_eq!(world.bsize, Pair { x: 16, z: 16 });
    assert_eq!(pixels.len(), 16 * 16 * 4);
    // The top of stone, in biome 5, in the full skylight above the world.
    let top = render_color(1, 5, 15, 0, 1, 255);
    for y in 0..16 {
        for x in 0..16 {
            assert_eq!(render_pixel(&pixels, 16, x, y), top);
        }
    }
}

#[test]
fn single_block_is_the_only_opaque_pixel() {
    let mut indices = vec![0u16; 4096];
    indices[5 * 16 + 3] = 1;
    let sections = vec![render_section(0, &indices, 9, 2)];
    let file = render_region_file(&[(0, 0, render_chunk_nbt(&sections, 0))]);
    let (world, pixels) = render_world(file, View::Orthographic, None, 0..256, &render_no_files());
    assert_eq!(world.bsize, Pair { x: 16, z: 16 });
    // The block is lit by the air above it and has open sides all around.
    let lit = render_color(1, 0, 9, 2, 1, 255);
    for z in 0..16 {
        for x in 0..16 {
            let pixel = render_pixel(&pixels, 16, x, z);
            if x == 3 && z == 5 {
                assert_eq!(pixel, lit);
            } else {
                assert_eq!(pixel, RGBA { r: 0, g: 0, b: 0, a: 0 });
            }
        }
    }
}

#[test]
fn layer_of_stone_at_the_bottom_is_drawn_through_the_air() {
    let mut indices = vec![0u16; 4096];
    for i in 0..256 {
        indices[i] = 1;
    }
    let sections = vec![render_section(0, &indices, 15, 0)];
    let file = render_region_file(&[(0, 0, render_chunk_nbt(&sections, 0))]);
    let (_, pixels) = render_world(file, View::Orthographic, None, 0..256, &render_no_files());
    // Inside the chunk no side is open: the neighbours are solid.
    assert_eq!(render_pixel(&pixels, 16, 8, 8), render_color(1, 0, 15, 0, 1, 255));
    // On the edge the neighbour is a chunk without data, which lets no light in.
    assert_eq!(render_pixel(&pixels, 16, 0, 8), render_color(1, 0, 15, 0, 1, 255));
    for po in (0..pixels.len()).step_by(4) {
        assert_eq!(pixels[po + 3], 255);
    }
}

#[test]
fn open_sides_shade_a_block() {
    // A plateau of stone in the layer 1 on a floor of stone in the layer 0.
    let mut indices = vec![0u16; 4096];
    for i in 0..256 {
        indices[i] = 1;
    }
    for z in 4..8 {
        for x in 4..8 {
            indices[256 + z * 16 + x] = 1;
        }
    }
    let sections = vec![render_section(0, &indices, 15, 0)];
    let file = render_region_file(&[(0, 0, render_chunk_nbt(&sections, 0))]);
    let (_, pixels) = render_world(file, View::Orthographic, None, 0..256, &render_no_files());
    // Open to the north and west: a highlight.
    assert_eq!(render_pixel(&pixels, 16, 4, 4), render_color(1, 0, 15, 0, 2, 255));
    assert_eq!(render_pixel(&pixels, 16, 5, 4), render_color(1, 0, 15, 0, 2, 255));
    // Open to the east and south: a shadow.
    assert_eq!(render_pixel(&pixels, 16, 7, 7), render_color(1, 0, 15, 0, 3, 255));
    assert_eq!(render_pixel(&pixels, 16, 7, 6), render_color(1, 0, 15, 0, 3, 255));
    // Open on both kinds of side, or on none: neither.
    assert_eq!(render_pixel(&pixels, 16, 7, 4), render_color(1, 0, 15, 0, 1, 255));
    assert_eq!(render_pixel(&pixels, 16, 5, 5), render_color(1, 0, 15, 0, 1, 255));
    assert_eq!(render_pixel(&pixels, 16, 10, 10), render_color(1, 0, 15, 0, 1, 255));
}

#[test]
fn glass_lets_the_stone_below_show_through() {
    let mut indices = vec![0u16; 4096];
    for i in 0..256 {
        indices[i] = 1;
        indices[256 + i] = 2;
    }
    let sections = vec![render_section(0, &indices, 15, 0)];
    let file = render_region_file(&[(0, 0, render_chunk_nbt(&sections, 0))]);
    let (_, pixels) = render_world(file, View::Orthographic, None, 0..256, &render_no_files());
    let glass = render_color(2, 0, 15, 0, 1, 100);
    let stone = render_color(1, 0, 15, 0, 1, 255);
    let seen = rmapbash::color::blend_alpha_color(&glass, &stone);
    assert_eq!(seen.a, 255);
    assert_eq!(render_pixel(&pixels, 16, 8, 8), seen);
    // Weights: glass 100 * 255 = 25500, stone 255 * 155 = 39525.
    assert_eq!(seen.r, ((33 * 25500 + 17 * 39525) / 65025) as u8);
}

#[test]
fn layers_outside_the_limits_are_not_drawn() {
    let mut indices = vec![0u16; 4096];
    for i in 0..256 {
        indices[i] = 1;
        indices[5 * 256 + i] = 2;
    }
    let sections = vec![render_section(0, &indices, 15, 0)];
    let file = render_region_file(&[(0, 0, render_chunk_nbt(&sections, 0))]);
    let (_, pixels) = render_world(file, View::Orthographic, None, 0..4, &render_no_files());
    // The glass in the layer 5 is left out; the ceiling of the layers gives full skylight.
    assert_eq!(render_pixel(&pixels, 16, 8, 8), render_color(1, 0, 15, 0, 1, 255));
}

#[test]
fn block_limits_crop_the_tile() {
    let sections = vec![render_section(0, &[1u16; 4096], 15, 0)];
    let file = render_region_file(&[
        (0, 0, render_chunk_nbt(&sections, 0)),
        (1, 0, render_chunk_nbt(&sections, 7)),
    ]);
    let limits = Some(Edges { n: 2, e: 20, s: 9, w: 5 });
    let (world, pixels) =
        render_world(file, View::Orthographic, limits, 0..256, &render_no_files());
    assert_eq!(world.bsize, Pair { x: 16, z: 8 });
    assert_eq!(pixels.len(), 16 * 8 * 4);
    // Blocks 5 to 15 are of the first chunk, blocks 16 to 20 of the second.
    // The section above the stone is absent and gives no light.
    for z in 0..8 {
        for x in 0..16 {
            let biome = if x < 11 { 0 } else { 7 };
            assert_eq!(render_pixel(&pixels, 16, x, z), render_color(1, biome, 0, 0, 1, 255));
        }
    }
}

#[test]
fn neighbour_across_the_region_border_shades_the_edge() {
    // A floor of stone with a wall on its western edge; to the west, in the
    // next region, air in full skylight in one chunk and nothing in the rest.
    let mut indices = vec![0u16; 4096];
    for i in 0..256 {
        indices[i] = 1;
    }
    for z in 0..16 {
        indices[256 + z * 16] = 1;
    }
    let sections = vec![render_section(0, &indices, 15, 0)];
    let file = render_region_file(&[
        (0, 0, render_chunk_nbt(&sections, 0)),
        (0, 1, render_chunk_nbt(&sections, 0)),
    ]);
    let air = vec![render_section(0, &[0u16; 4096], 15, 0)];
    let west = render_region_file(&[(31, 0, render_chunk_nbt(&air, 0))]);
    let nfiles = Edges { n: None, e: None, s: None, w: Some(west) };
    let (_, pixels) = render_world(file, View::Orthographic, None, 0..256, &nfiles);
    // Beside the chunk of lit air the wall has one open side to the west and
    // one to the east: no shade. Beside the absent chunk only the east is open.
    assert_eq!(render_pixel(&pixels, 16, 0, 4), render_color(1, 0, 15, 0, 1, 255));
    assert_eq!(render_pixel(&pixels, 16, 0, 20), render_color(1, 0, 15, 0, 3, 255));
    // The floor beside the wall is open to nothing but the wall's own level.
    assert_eq!(render_pixel(&pixels, 16, 8, 4), render_color(1, 0, 15, 0, 1, 255));
}

#[test]
fn isometric_image_has_the_size_of_the_world() {
    let sections = vec![render_section(0, &[1u16; 4096], 15, 0)];
    let file = render_region_file(&[(0, 0, render_chunk_nbt(&sections, 0))]);
    let (world, pixels) = render_world(file, View::Isometric, None, 0..256, &render_no_files());
    let size = get_size(&world, &View::Isometric);
    assert_eq!(size, Pair { x: 64, z: 32 + 768 });
    assert_eq!(pixels.len(), 64 * 800 * 4);
    assert_eq!(get_crop(&world, &View::Isometric, &size), 0);
    assert_eq!(isomap::get_size(&world), size);
    assert_eq!(orthomap::get_size(&world), Pair { x: 16, z: 16 });
}

#[test]
fn isometric_block_is_drawn_at_its_place() {
    // One block of stone at (15, 0, 0): the easternmost of the northernmost row.
    let mut indices = vec![0u16; 4096];
    indices[15] = 1;
    let sections = vec![render_section(0, &indices, 9, 2)];
    let file = render_region_file(&[(0, 0, render_chunk_nbt(&sections, 0))]);
    let (_, pixels) = render_world(file, View::Isometric, None, 0..256, &render_no_files());
    // The block's footprint starts 2 * (15 - 0 - 1) + 32 pixels to the right
    // and 15 + 255 * 3 pixels down.
    let left = 60;
    let top = 15 + 765;
    let shape = [[1, 1, 2, 2], [1, 1, 2, 2], [1, 1, 3, 3], [1, 1, 3, 3]];
    for y in 0..800 {
        for x in 0..64 {
            let pixel = render_pixel(&pixels, 64, x, y);
            if x >= left && x < left + 4 && y >= top && y < top + 4 {
                let variant = shape[x - left][y - top];
                // The top in the light of the air above; the left side in
                // the light of the air to the south, with a highlight; the
                // right side towards the chunk to the east, which has no
                // data and so gives no light and no shade.
                let expected = if variant == 1 {
                    render_color(1, 0, 9, 2, 1, 255)
                } else if variant == 2 {
                    render_color(1, 0, 9, 2, 2, 255)
                } else {
                    render_color(1, 0, 0, 0, 1, 255)
                };
                assert_eq!(pixel, expected);
            } else {
                assert_eq!(pixel, RGBA { r: 0, g: 0, b: 0, a: 0 });
            }
        }
    }
}

#[test]
fn isometric_blocks_in_front_hide_those_behind() {
    let mut indices = vec![0u16; 4096];
    for i in 0..256 {
        indices[i] = 1;
    }
    let sections = vec![render_section(0, &indices, 15, 0)];
    let file = render_region_file(&[(0, 0, render_chunk_nbt(&sections, 0))]);
    let (_, pixels) = render_world(file, View::Isometric, None, 0..256, &render_no_files());
    let mut opaque = 0;
    for po in (0..pixels.len()).step_by(4) {
        assert!(pixels[po + 3] == 0 || pixels[po + 3] == 255);
        if pixels[po + 3] == 255 {
            opaque += 1;
        }
    }
    // A diamond of 16 by 16 blocks: 32 rows of tops, each two rows of pixels
    // of a block high, and two rows of sides below.
    assert!(opaque > 16 * 16 * 2);
    // The southernmost block (15, 0, 15) is drawn first and keeps its place.
    let left = 2 * (15 - 15 - 1) + 32;
    let top = 30 + 765;
    assert_eq!(render_pixel(&pixels, 64, left as usize, top).a, 255);
}

#[test]
fn region_that_cannot_be_drawn_is_left_alone() {
    let blocktypes = render_blocktypes();
    let sections = vec![render_section(0, &[1u16; 4096], 15, 0)];
    let file = render_region_file(&[(0, 0, render_chunk_nbt(&sections, 0))]);
    let files = vec![("r.0.0.mca".to_string(), file)];
    let world = get_world(&files, &None, 0..256).unwrap().unwrap();
    let r = Pair { x: 0, z: 0 };
    let region =
        read_region_data(&world, &r, Some(&files[0].1[..]), &render_no_files(), &blocktypes)
            .unwrap()
            .unwrap();
    // An image of another size.
    let mut pixels = vec![7u8; 100];
    assert!(!draw_map_region(
        &mut pixels,
        &world,
        &blocktypes,
        3,
        &View::Orthographic,
        &r,
        &region
    ));
    assert_eq!(pixels, vec![7u8; 100]);
    // A table of block types that is too short for the chunk.
    let mut pixels = create_pixels(&world, &View::Orthographic).unwrap();
    assert!(!region_drawable(&world, &r, &region, 1));
    assert!(!draw_map_region(
        &mut pixels,
        &world,
        &blocktypes[..1],
        0,
        &View::Orthographic,
        &r,
        &region
    ));
    assert!(pixels.iter().all(|b| *b == 0));
    // A region outside of the world.
    assert!(!region_drawable(&world, &Pair { x: 1, z: 0 }, &region, blocktypes.len()));
}

#[test]
fn region_without_chunks_gives_no_data() {
    let blocktypes = render_blocktypes();
    let sections = vec![render_section(0, &[1u16; 4096], 15, 0)];
    let file = render_region_file(&[(0, 0, render_chunk_nbt(&sections, 0))]);
    let files = vec![("r.0.0.mca".to_string(), file)];
    let world = get_world(&files, &None, 0..256).unwrap().unwrap();
    let empty = render_region_file(&[]);
    let r = Pair { x: 0, z: 0 };
    assert!(read_region_data(&world, &r, Some(&empty[..]), &render_no_files(), &blocktypes)
        .unwrap()
        .is_none());
    assert!(read_region_data(&world, &r, None, &render_no_files(), &blocktypes)
        .unwrap()
        .is_none());
}

#[test]
fn limits_of_a_chunk_inside_the_world() {
    let bedges = Edges { n: -20, e: 40, s: 20, w: -5 };
    let limits = chunk_limits(&bedges, &Pair { x: -1, z: -2 });
    assert_eq!((limits.n, limits.e, limits.s, limits.w), (12, 15, 15, 11));
    let limits = chunk_limits(&bedges, &Pair { x: 2, z: 1 });
    assert_eq!((limits.n, limits.e, limits.s, limits.w), (0, 8, 4, 0));
    let limits = chunk_limits(&bedges, &Pair { x: 0, z: 0 });
    assert_eq!((limits.n, limits.e, limits.s, limits.w), (0, 15, 15, 0));
}

#[test]
fn tile_of_a_chunk_drawn_straight() {
    let blocktypes = render_blocktypes();
    let mut data = ChunkData::new();
    for i in 0..256 {
        data.blocks[i] = 1;
        data.lights[256 + i] = 0x3c;
    }
    let chunk = Chunk { data: &data, ndata: Edges { n: None, e: None, s: None, w: None } };
    let mut pixels = vec![9u8; 20 * 20 * 4];
    let limits = Edges { n: 1, e: 3, s: 2, w: 2 };
    orthomap::draw_chunk(&mut pixels, &blocktypes, &chunk, &(20 * 4 + 5), &20, &limits, &(0..10));
    let lit = render_color(1, 0, 12, 3, 1, 255);
    for y in 0..20 {
        for x in 0..20 {
            let pixel = render_pixel(&pixels, 20, x, y);
            if (x == 7 || x == 8) && (y == 5 || y == 6) {
                assert_eq!(pixel, lit);
            } else {
                assert_eq!(pixel, RGBA { r: 9, g: 9, b: 9, a: 9 });
            }
        }
    }
    assert_eq!(orthomap::get_block_color(2, 1, &blocktypes, &chunk, &(0..10)), lit);
    assert_eq!(
        orthomap::get_block_color(2, 1, &blocktypes, &chunk, &(1..10)),
        RGBA { r: 0, g: 0, b: 0, a: 0 }
    );
    assert_eq!(orthomap::get_chunk_pixel(&Pair { x: -3, z: 2 }, &Pair { x: 5, z: 0 }), Pair {
        x: 32,
        z: 32
    });
}

#[test]
fn colours_of_a_block_by_the_digits_of_its_shape() {
    let blocktypes = render_blocktypes();
    let stone = &blocktypes[1];
    let glass = &blocktypes[2];
    let block = rmapbash::region::Block { btype: 1, slight: 4, blight: 5 };
    let above = rmapbash::region::Block { btype: 0, slight: 15, blight: 1 };
    let open = rmapbash::region::Block { btype: 0, slight: 7, blight: 2 };
    let shut = rmapbash::region::Block { btype: 1, slight: 0, blight: 3 };
    let colors =
        isomap::get_block_colors(&blocktypes, stone, &block, &[Some(above), Some(open), Some(shut)], 6);
    assert_eq!(colors[0], RGBA { r: 0, g: 0, b: 0, a: 0 });
    assert_eq!(colors[1], render_color(1, 6, 15, 1, 1, 255));
    assert_eq!(colors[4], render_color(1, 6, 15, 1, 4, 255));
    // The left side is open to the light: a highlight in the neighbour's light.
    assert_eq!(colors[2], render_color(1, 6, 7, 2, 2, 255));
    assert_eq!(colors[5], render_color(1, 6, 7, 2, 5, 255));
    // The right side is shut.
    assert_eq!(colors[3], render_color(1, 6, 0, 3, 1, 255));
    assert_eq!(colors[6], render_color(1, 6, 0, 3, 4, 255));
    // A block that is not solid is drawn in its own light.
    let colors = isomap::get_block_colors(&blocktypes, glass, &block, &[Some(above), None, None], 6);
    assert_eq!(colors[1], render_color(2, 6, 15, 1, 1, 100));
    assert_eq!(colors[2], render_color(2, 6, 4, 5, 2, 100));
    assert_eq!(colors[3], render_color(2, 6, 4, 5, 3, 100));
    assert_eq!(colors[5], render_color(2, 6, 4, 5, 5, 100));
    assert_eq!(colors[6], render_color(2, 6, 4, 5, 6, 100));
}

#[test]
fn block_types_without_their_colours_are_not_well_formed() {
    let mut types = render_blocktypes();
    assert!(types_wf(&types));
    types[2].colors.pop();
    assert!(!types[2].is_wf());
    assert!(!types_wf(&types));
    let mut types = render_blocktypes();
    types[1].shape[3][3] = 7;
    assert!(!types_wf(&types));
    assert_eq!(find_water(&types[..3]), None);
}

#[test]
fn empty_region_data_can_be_drawn() {
    let blocktypes = render_blocktypes();
    let sections = vec![render_section(0, &[1u16; 4096], 15, 0)];
    let file = render_region_file(&[(0, 0, render_chunk_nbt(&sections, 0))]);
    let files = vec![("r.0.0.mca".to_string(), file)];
    let world = get_world(&files, &None, 0..256).unwrap().unwrap();
    let region = RegionData {
        chunks: std::collections::HashMap::new(),
        nchunks: Edges {
            n: std::collections::HashMap::new(),
            e: std::collections::HashMap::new(),
            s: std::collections::HashMap::new(),
            w: std::collections::HashMap::new(),
        },
    };
    let mut pixels = create_pixels(&world, &View::Orthographic).unwrap();
    assert!(draw_map_region(
        &mut pixels,
        &world,
        &blocktypes,
        3,
        &View::Orthographic,
        &Pair { x: 0, z: 0 },
        &region
    ));
    assert!(pixels.iter().all(|b| *b == 0));
}

#[test]
fn colours_lie_in_the_order_of_biome_lights_and_variant() {
    assert_eq!(color_index(0, 0, 0, 0), 0);
    assert_eq!(color_index(0, 0, 0, 6), 6);
    assert_eq!(color_index(0, 0, 1, 0), 7);
    assert_eq!(color_index(0, 1, 0, 0), 112);
    assert_eq!(color_index(1, 0, 0, 0), 1792);
    assert_eq!(color_index(169, 15, 15, 6), 304639);
    let stone = &render_blocktypes()[1];
    assert_eq!(*stone.color(7, 3, 2, 5), render_color(1, 7, 3, 2, 5, 255));
}

#[test]
fn world_without_data_is_one_blank_pixel() {
    let (size, pixels) = blank_image();
    assert_eq!(size, Pair { x: 1, z: 1 });
    assert_eq!(pixels, vec![0u8; 4]);
    let empty = render_region_file(&[]);
    let files = vec![("r.0.0.mca".to_string(), empty)];
    let found = get_world(&files, &None, 0..256).unwrap();
    assert!(found.is_none());
    for view in [View::Orthographic, View::Isometric] {
        let (size, pixels) = create_image(&found, &view).unwrap();
        assert_eq!(size, Pair { x: 1, z: 1 });
        assert_eq!(pixels, vec![0u8; 4]);
    }
    let none: Vec<(String, Vec<u8>)> = Vec::new();
    assert!(get_world(&none, &None, 0..256).unwrap().is_none());
}

#[test]
fn block_above_its_like_hides_its_top_face() {
    let blocktypes = render_blocktypes();
    let mut data = ChunkData::new();
    // Two blocks of stone, one above the other, at (8, 0, 8) and (8, 1, 8).
    data.blocks[8 * 16 + 8] = 1;
    data.blocks[256 + 8 * 16 + 8] = 1;
    let chunk = Chunk { data: &data, ndata: Edges { n: None, e: None, s: None, w: None } };
    let mut pixels = vec![0u8; 64 * 800 * 4];
    let limits = Edges { n: 0, e: 15, s: 15, w: 0 };
    isomap::draw_chunk(&mut pixels, &blocktypes, &blocktypes[3], &chunk, &0, &64, &limits, &(0..256));
    // Both footprints start 2 * (8 - 8 - 1) + 32 pixels to the right; the
    // lower 16 + 255 * 3 pixels down, the upper three pixels higher.
    let left = 30;
    let lower = 16 + 765;
    let upper = 16 + 762;
    // The upper block lies above its like: the first row of its footprint stays blank.
    for x in left..left + 4 {
        assert_eq!(render_pixel(&pixels, 64, x, upper).a, 0);
        assert_eq!(render_pixel(&pixels, 64, x, upper + 1).a, 255);
        assert_eq!(render_pixel(&pixels, 64, x, lower + 3).a, 255);
    }
    assert_eq!(render_pixel(&pixels, 64, left - 1, upper + 1).a, 0);
    assert_eq!(render_pixel(&pixels, 64, left + 4, upper + 1).a, 0);
    assert_eq!(render_pixel(&pixels, 64, left, lower + 4).a, 0);
}

#[test]
fn image_of_a_world_is_blank_and_of_its_size() {
    let sections = vec![render_section(0, &[1u16; 4096], 15, 0)];
    let file = render_region_file(&[
        (0, 0, render_chunk_nbt(&sections, 0)),
        (2, 1, render_chunk_nbt(&sections, 0)),
    ]);
    let files = vec![("r.0.0.mca".to_string(), file)];
    let found = get_world(&files, &None, 0..256).unwrap();
    let (size, pixels) = create_image(&found, &View::Orthographic).unwrap();
    assert_eq!(size, Pair { x: 48, z: 32 });
    assert_eq!(pixels, vec![0u8; 48 * 32 * 4]);
    let (size, pixels) = create_image(&found, &View::Isometric).unwrap();
    assert_eq!(size, Pair { x: 160, z: 848 });
    assert_eq!(pixels, vec![0u8; 160 * 848 * 4]);
    let world = found.unwrap();
    assert_eq!(size, get_size(&world, &View::Isometric));
}

#[test]
fn cell_without_a_chunk_leaves_its_tile_blank() {
    let blocktypes = render_blocktypes();
    let sections = vec![render_section(0, &[1u16; 4096], 15, 0)];
    let file = render_region_file(&[
        (0, 0, render_chunk_nbt(&sections, 0)),
        (2, 0, render_chunk_nbt(&sections, 0)),
    ]);
    let files = vec![("r.0.0.mca".to_string(), file)];
    let found = get_world(&files, &None, 0..256).unwrap();
    let (size, mut pixels) = create_image(&found, &View::Orthographic).unwrap();
    assert_eq!(size, Pair { x: 48, z: 16 });
    let world = found.unwrap();
    let r = Pair { x: 0, z: 0 };
    let region =
        read_region_data(&world, &r, Some(&files[0].1[..]), &render_no_files(), &blocktypes)
            .unwrap()
            .unwrap();
    assert!(draw_map_region(&mut pixels, &world, &blocktypes, 3, &View::Orthographic, &r, &region));
    for z in 0..16 {
        for x in 0..48 {
            let pixel = render_pixel(&pixels, 48, x, z);
            if (16..32).contains(&x) {
                assert_eq!(pixel, RGBA { r: 0, g: 0, b: 0, a: 0 });
            } else {
                assert_eq!(pixel.a, 255);
            }
        }
    }
}
