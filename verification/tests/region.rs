use std::collections::HashMap;
use std::io::Write;

use rmapbash::blockstates::pack_block_states;
use rmapbash::blocktypes::{find_block_type, BlockType};
use rmapbash::color::RGBA;
use rmapbash::nbt::{NbtError, Reader};
use rmapbash::region::{
    chunk_key, get_region_chunk_reader, read_region_chunk, read_region_chunk_coords,
    read_region_chunk_data, read_region_chunk_present, Block, Chunk, ChunkData, RegionData,
};
use rmapbash::types::{Edges, Pair};

fn region_blocktype(name: &str, state: &[(&str, &str)]) -> BlockType {
    BlockType {
        name: name.to_string(),
        colors: vec![RGBA { r: 0, g: 0, b: 0, a: 0 }; 304640],
        state: state.iter().map(|(k, v)| (k.to_string(), v.to_string())).collect(),
        shape: [[1usize; 4]; 4],
        solid: true,
        empty: false,
        waterlogged: false,
    }
}

fn region_blocktypes() -> Vec<BlockType> {
    vec![
        region_blocktype("minecraft:air", &[]),
        region_blocktype("minecraft:stone", &[]),
        region_blocktype("minecraft:oak_log", &[("axis", "x")]),
        region_blocktype("minecraft:oak_log", &[("axis", "y")]),
        region_blocktype("minecraft:oak_log", &[]),
    ]
}

fn region_header(id: u8, name: &str) -> Vec<u8> {
    let mut out = vec![id];
    out.extend_from_slice(&(name.len() as u16).to_be_bytes());
    out.extend_from_slice(name.as_bytes());
    out
}

fn region_string(text: &str) -> Vec<u8> {
    let mut out = (text.len() as u16).to_be_bytes().to_vec();
    out.extend_from_slice(text.as_bytes());
    out
}

fn region_palette_entry(name: &str, props: &[(&str, &str)]) -> Vec<u8> {
    let mut out = region_header(8, "Name");
    out.extend(region_string(name));
    if !props.is_empty() {
        out.extend(region_header(10, "Properties"));
        for (k, v) in props {
            out.extend(region_header(8, k));
            out.extend(region_string(v));
        }
        out.push(0);
    }
    out.push(0);
    out
}

struct RegionSection {
    y: u8,
    palette: Vec<Vec<u8>>,
    states: Option<Vec<u64>>,
    sky: Option<Vec<u8>>,
    block: Option<Vec<u8>>,
}

fn region_section(section: &RegionSection) -> Vec<u8> {
    let mut out = region_header(1, "Y");
    out.push(section.y);
    if !section.palette.is_empty() {
        out.extend(region_header(9, "Palette"));
        out.push(10);
        out.extend_from_slice(&(section.palette.len() as u32).to_be_bytes());
        for entry in &section.palette {
            out.extend_from_slice(entry);
        }
    }
    if let Some(states) = &section.states {
        out.extend(region_header(12, "BlockStates"));
        out.extend_from_slice(&(states.len() as u32).to_be_bytes());
        for long in states {
            out.extend_from_slice(&long.to_be_bytes());
        }
    }
    for (name, array) in [("SkyLight", &section.sky), ("BlockLight", &section.block)] {
        if let Some(bytes) = array {
            out.extend(region_header(7, name));
            out.extend_from_slice(&(bytes.len() as u32).to_be_bytes());
            out.extend_from_slice(bytes);
        }
    }
    out.push(0);
    out
}

/// The children of a chunk's root tag: some tags in front, the level with
/// its sections and biomes, and the end of the root.
fn region_chunk_nbt(sections: &[RegionSection], biomes: Option<Vec<u8>>) -> Vec<u8> {
    let mut out = region_header(3, "DataVersion");
    out.extend_from_slice(&1631u32.to_be_bytes());
    out.extend(region_header(10, "Level"));
    out.extend(region_header(9, "Entities"));
    out.push(0);
    out.extend_from_slice(&0u32.to_be_bytes());
    if let Some(bytes) = biomes {
        out.extend(region_header(7, "Biomes"));
        out.extend_from_slice(&(bytes.len() as u32).to_be_bytes());
        out.extend_from_slice(&bytes);
    }
    out.extend(region_header(9, "Sections"));
    out.push(10);
    out.extend_from_slice(&(sections.len() as u32).to_be_bytes());
    for section in sections {
        out.extend(region_section(section));
    }
    out.extend(region_header(8, "Status"));
    out.extend(region_string("full"));
    out.push(0);
    out.push(0);
    out
}

fn region_file(chunks: &[(usize, usize, Vec<u8>)]) -> Vec<u8> {
    let mut file = vec![0u8; 8192];
    for (cx, cz, nbt) in chunks {
        let mut root = region_header(10, "");
        root.extend_from_slice(nbt);
        let mut encoder =
            flate2::write::ZlibEncoder::new(Vec::new(), flate2::Compression::default());
        encoder.write_all(&root).unwrap();
        let compressed = encoder.finish().unwrap();
        let sector = file.len() / 4096;
        let entry = ((sector as u32) << 8) | 1;
        let at = (cz * 32 + cx) * 4;
        file[at..at + 4].copy_from_slice(&entry.to_be_bytes());
        file.extend_from_slice(&((compressed.len() + 1) as u32).to_be_bytes());
        file.push(2);
        file.extend_from_slice(&compressed);
        while file.len() % 4096 != 0 {
            file.push(0);
        }
    }
    file
}

fn region_stone_section(y: u8) -> RegionSection {
    RegionSection {
        y,
        palette: vec![
            region_palette_entry("minecraft:air", &[]),
            region_palette_entry("minecraft:stone", &[]),
        ],
        states: Some(pack_block_states(&vec![1u16; 4096], 4)),
        sky: Some(vec![0xff; 2048]),
        block: Some(vec![0x00; 2048]),
    }
}

fn region_decode(nbt: Vec<u8>) -> Result<Option<ChunkData>, NbtError> {
    let mut reader = Reader::new(nbt);
    read_region_chunk(&mut reader, &region_blocktypes())
}

#[test]
fn chunk_of_stone_decodes_to_stone() {
    let mut section = region_stone_section(2);
    let mut indices = vec![1u16; 4096];
    indices[0] = 0;
    indices[4095] = 0;
    section.states = Some(pack_block_states(&indices, 4));
    let chunk = region_decode(region_chunk_nbt(&[section], None)).unwrap().unwrap();
    assert_eq!(chunk.blocks[0], 0);
    assert_eq!(chunk.blocks[2 * 4096 - 1], 0);
    assert_eq!(chunk.blocks[2 * 4096], 0);
    assert_eq!(chunk.blocks[2 * 4096 + 1], 1);
    assert_eq!(chunk.blocks[3 * 4096 - 2], 1);
    assert_eq!(chunk.blocks[3 * 4096 - 1], 0);
    assert_eq!(chunk.blocks[3 * 4096], 0);
    assert_eq!(chunk.blocks.iter().filter(|b| **b == 1).count(), 4094);
}

#[test]
fn lights_are_two_nibbles_a_byte() {
    let mut section = region_stone_section(0);
    let mut sky = vec![0u8; 2048];
    let mut block = vec![0u8; 2048];
    sky[0] = 0xa5;
    block[0] = 0x3c;
    sky[2047] = 0x0f;
    block[2047] = 0xf0;
    section.sky = Some(sky);
    section.block = Some(block);
    let chunk = region_decode(region_chunk_nbt(&[section], None)).unwrap().unwrap();
    // Voxel 0: low nibbles; skylight 5 in the low half, blocklight 12 in the high half.
    assert_eq!(chunk.lights[0], 0xc5);
    // Voxel 1: high nibbles.
    assert_eq!(chunk.lights[1], 0x3a);
    assert_eq!(chunk.lights[4094], 0x0f);
    assert_eq!(chunk.lights[4095], 0xf0);
    assert_eq!(chunk.lights[2], 0x00);
}

#[test]
fn every_pair_of_light_levels_survives_packing() {
    for sky in 0u8..16 {
        for block in 0u8..16 {
            let mut section = region_stone_section(1);
            section.sky = Some(vec![sky | (sky << 4); 2048]);
            section.block = Some(vec![block | (block << 4); 2048]);
            let data = region_decode(region_chunk_nbt(&[section], None)).unwrap().unwrap();
            let chunk = Chunk { data: &data, ndata: Edges { n: None, e: None, s: None, w: None } };
            for voxel in [4096usize, 4097, 8191] {
                let seen = chunk.get_block(&voxel);
                assert_eq!(seen.slight, sky as usize);
                assert_eq!(seen.blight, block as usize);
            }
        }
    }
}

#[test]
fn missing_light_arrays_mean_full_skylight_and_no_blocklight() {
    let mut section = region_stone_section(3);
    section.sky = None;
    section.block = None;
    let chunk = region_decode(region_chunk_nbt(&[section], None)).unwrap().unwrap();
    assert_eq!(chunk.lights[3 * 4096], 0x0f);
    assert_eq!(chunk.lights[4 * 4096 - 1], 0x0f);
    // A section that is absent has no light at all.
    assert_eq!(chunk.lights[0], 0x00);
    assert_eq!(chunk.lights[4 * 4096], 0x00);
    let mut section = region_stone_section(3);
    section.sky = None;
    section.block = Some(vec![0x21; 2048]);
    let chunk = region_decode(region_chunk_nbt(&[section], None)).unwrap().unwrap();
    assert_eq!(chunk.lights[3 * 4096], 0x1f);
    assert_eq!(chunk.lights[3 * 4096 + 1], 0x2f);
}

#[test]
fn section_without_block_states_stays_air() {
    let mut section = region_stone_section(5);
    section.states = None;
    section.palette = vec![];
    let chunk = region_decode(region_chunk_nbt(&[section], None)).unwrap().unwrap();
    assert!(chunk.blocks.iter().all(|b| *b == 0));
    assert_eq!(chunk.lights[5 * 4096], 0x0f);
}

#[test]
fn sections_above_the_world_are_passed_over() {
    let mut high = region_stone_section(16);
    high.states = Some(vec![0u64; 3]);
    let low = region_stone_section(0);
    let below = region_stone_section(255);
    let chunk = region_decode(region_chunk_nbt(&[high, low, below], None)).unwrap().unwrap();
    assert_eq!(chunk.blocks.iter().filter(|b| **b == 1).count(), 4096);
    assert_eq!(chunk.blocks[0], 1);
    assert_eq!(chunk.blocks[4096], 0);
}

#[test]
fn sections_may_come_in_any_order() {
    let chunk = region_decode(region_chunk_nbt(
        &[region_stone_section(7), region_stone_section(1)],
        None,
    ))
    .unwrap()
    .unwrap();
    assert_eq!(chunk.blocks[4096], 1);
    assert_eq!(chunk.blocks[7 * 4096 + 5], 1);
    assert_eq!(chunk.blocks[2 * 4096], 0);
}

#[test]
fn palette_entries_are_told_apart_by_their_properties() {
    let mut section = region_stone_section(0);
    section.palette = vec![
        region_palette_entry("minecraft:oak_log", &[("axis", "y")]),
        region_palette_entry("minecraft:oak_log", &[("axis", "z")]),
        region_palette_entry("minecraft:oak_log", &[("axis", "x"), ("other", "1")]),
        region_palette_entry("minecraft:stone", &[("ignored", "yes")]),
    ];
    let mut indices = vec![0u16; 4096];
    indices[1] = 1;
    indices[2] = 2;
    indices[3] = 3;
    section.states = Some(pack_block_states(&indices, 4));
    let chunk = region_decode(region_chunk_nbt(&[section], None)).unwrap().unwrap();
    assert_eq!(chunk.blocks[0], 3);
    assert_eq!(chunk.blocks[1], 4);
    assert_eq!(chunk.blocks[2], 2);
    assert_eq!(chunk.blocks[3], 1);
}

#[test]
fn block_type_is_the_first_that_matches() {
    let types = region_blocktypes();
    let name = "minecraft:oak_log".to_string();
    let props = vec![("axis".to_string(), "y".to_string())];
    assert_eq!(find_block_type(&types, &name, &props), Some(3));
    assert_eq!(find_block_type(&types, &name, &vec![]), Some(4));
    assert_eq!(find_block_type(&types, &"minecraft:dirt".to_string(), &vec![]), None);
}

#[test]
fn biomes_come_from_bytes_or_from_numbers() {
    let biomes: Vec<u8> = (0..256).map(|i| (i % 170) as u8).collect();
    let chunk = region_decode(region_chunk_nbt(&[region_stone_section(0)], Some(biomes.clone())))
        .unwrap()
        .unwrap();
    assert_eq!(chunk.biomes.to_vec(), biomes);
    // A biome array of another length is passed over.
    let chunk = region_decode(region_chunk_nbt(&[region_stone_section(0)], Some(vec![9; 255])))
        .unwrap()
        .unwrap();
    assert!(chunk.biomes.iter().all(|b| *b == 0));
    // Numbers of 32 bits keep their low byte.
    let mut nbt = region_header(10, "Level");
    nbt.extend(region_header(11, "Biomes"));
    nbt.extend_from_slice(&256u32.to_be_bytes());
    for i in 0..256u32 {
        nbt.extend_from_slice(&(0x0100 + i).to_be_bytes());
    }
    nbt.extend(region_header(9, "Sections"));
    nbt.push(10);
    nbt.extend_from_slice(&1u32.to_be_bytes());
    nbt.extend(region_section(&region_stone_section(0)));
    nbt.push(0);
    nbt.push(0);
    let chunk = region_decode(nbt).unwrap().unwrap();
    assert_eq!(chunk.biomes[0], 0);
    assert_eq!(chunk.biomes[255], 255);
}

#[test]
fn chunk_without_level_is_absent() {
    let mut nbt = region_header(3, "DataVersion");
    nbt.extend_from_slice(&1u32.to_be_bytes());
    nbt.push(0);
    assert!(region_decode(nbt.clone()).unwrap().is_none());
    let mut reader = Reader::new(nbt);
    assert_eq!(read_region_chunk_present(&mut reader), Ok(false));
}

#[test]
fn level_without_sections_is_absent() {
    // A level that holds nothing at all.
    let mut nbt = region_header(10, "Level");
    nbt.push(0);
    nbt.push(0);
    assert_eq!(nbt, vec![0x0a, 0x00, 0x05, b'L', b'e', b'v', b'e', b'l', 0x00, 0x00]);
    assert!(region_decode(nbt.clone()).unwrap().is_none());
    let mut reader = Reader::new(nbt);
    assert_eq!(read_region_chunk_present(&mut reader), Ok(false));
    // A level that holds biomes and no sections.
    let mut nbt = region_header(10, "Level");
    nbt.extend(region_header(7, "Biomes"));
    nbt.extend_from_slice(&256u32.to_be_bytes());
    nbt.extend_from_slice(&[4u8; 256]);
    nbt.push(0);
    nbt.push(0);
    assert!(region_decode(nbt.clone()).unwrap().is_none());
    let mut reader = Reader::new(nbt);
    assert_eq!(read_region_chunk_present(&mut reader), Ok(false));
}

#[test]
fn chunk_with_empty_sections_is_absent() {
    let nbt = region_chunk_nbt(&[], Some(vec![1; 256]));
    assert!(region_decode(nbt.clone()).unwrap().is_none());
    let mut reader = Reader::new(nbt);
    assert_eq!(read_region_chunk_present(&mut reader), Ok(false));
}

#[test]
fn malformed_chunks_are_absent() {
    // A palette entry that stands for no block type.
    let mut section = region_stone_section(0);
    section.palette = vec![region_palette_entry("minecraft:unobtainium", &[])];
    assert!(region_decode(region_chunk_nbt(&[section], None)).unwrap().is_none());
    // A section without a height.
    let mut nbt = region_header(10, "Level");
    nbt.extend(region_header(9, "Sections"));
    nbt.push(10);
    nbt.extend_from_slice(&1u32.to_be_bytes());
    nbt.push(0);
    nbt.push(0);
    nbt.push(0);
    assert!(region_decode(nbt).unwrap().is_none());
    // A palette index beyond the palette.
    let mut section = region_stone_section(0);
    section.states = Some(pack_block_states(&vec![2u16; 4096], 4));
    assert!(region_decode(region_chunk_nbt(&[section], None)).unwrap().is_none());
    // A light array that is too short.
    let mut section = region_stone_section(0);
    section.sky = Some(vec![0; 100]);
    assert!(region_decode(region_chunk_nbt(&[section], None)).unwrap().is_none());
    // Block states of more than 16 bits a voxel.
    let mut section = region_stone_section(0);
    section.states = Some(vec![0; 64 * 17]);
    assert!(region_decode(region_chunk_nbt(&[section], None)).unwrap().is_none());
    // An unknown kind of tag.
    let mut nbt = region_header(10, "Level");
    nbt.extend(region_header(99, "Strange"));
    assert!(region_decode(nbt).unwrap().is_none());
}

#[test]
fn truncated_chunk_is_an_error() {
    let mut nbt = region_chunk_nbt(&[region_stone_section(0)], None);
    nbt.truncate(nbt.len() - 20);
    assert!(matches!(region_decode(nbt), Err(NbtError::UnexpectedEof)));
}

#[test]
fn scan_and_decoding_agree() {
    let cases: Vec<Vec<u8>> = vec![
        region_chunk_nbt(&[region_stone_section(0)], None),
        region_chunk_nbt(&[region_stone_section(3), region_stone_section(4)], Some(vec![2; 256])),
        region_chunk_nbt(&[], None),
        vec![0],
        vec![0x0a, 0x00, 0x05, b'L', b'e', b'v', b'e', b'l', 0x00, 0x00],
        vec![0x0a, 0x00, 0x05, b'L', b'e', b'v', b'e', b'l', 0x01, 0x00, 0x01, b'a', 0x07, 0x00, 0x00],
        vec![0x01, 0x00, 0x05, b'L', b'e', b'v', b'e', b'l', 0x07, 0x00],
    ];
    for nbt in cases {
        let mut reader = Reader::new(nbt.clone());
        let present = read_region_chunk_present(&mut reader).unwrap();
        let decoded = region_decode(nbt).unwrap();
        assert_eq!(present, decoded.is_some());
    }
}

#[test]
fn region_file_gives_its_chunks() {
    let file = region_file(&[
        (3, 0, region_chunk_nbt(&[region_stone_section(0)], None)),
        (31, 31, region_chunk_nbt(&[region_stone_section(1)], None)),
        (5, 7, region_chunk_nbt(&[], None)),
    ]);
    let coords = read_region_chunk_coords(&file, &None).unwrap();
    assert_eq!(coords, vec![Pair { x: 3, z: 0 }, Pair { x: 31, z: 31 }]);
    let limits = Some(Edges { n: 0, e: 10, s: 10, w: 0 });
    assert_eq!(read_region_chunk_coords(&file, &limits).unwrap(), vec![Pair { x: 3, z: 0 }]);
    let limits = Some(Edges { n: 5, e: 2, s: 4, w: 3 });
    assert!(read_region_chunk_coords(&file, &limits).unwrap().is_empty());
    let reader = get_region_chunk_reader(&file, 3, 0).unwrap();
    assert!(reader.is_some());
    assert!(get_region_chunk_reader(&file, 4, 0).unwrap().is_none());
}

#[test]
fn absent_cell_gives_no_chunk_and_no_error() {
    let file = region_file(&[]);
    assert!(read_region_chunk_coords(&file, &None).unwrap().is_empty());
    let limits = Edges { n: 0, e: 31, s: 31, w: 0 };
    let chunks = read_region_chunk_data(Some(&file[..]), &limits, &region_blocktypes()).unwrap();
    assert!(chunks.is_empty());
    let chunks = read_region_chunk_data(None, &limits, &region_blocktypes()).unwrap();
    assert!(chunks.is_empty());
}

#[test]
fn region_file_decodes_its_chunks() {
    let file = region_file(&[
        (3, 0, region_chunk_nbt(&[region_stone_section(0)], None)),
        (4, 2, region_chunk_nbt(&[region_stone_section(1)], None)),
    ]);
    let limits = Edges { n: 0, e: 31, s: 31, w: 0 };
    let chunks = read_region_chunk_data(Some(&file[..]), &limits, &region_blocktypes()).unwrap();
    assert_eq!(chunks.len(), 2);
    assert_eq!(chunks[&chunk_key(&Pair { x: 3, z: 0 })].blocks[0], 1);
    assert_eq!(chunks[&chunk_key(&Pair { x: 4, z: 2 })].blocks[0], 0);
    assert_eq!(chunks[&chunk_key(&Pair { x: 4, z: 2 })].blocks[4096], 1);
    let limits = Edges { n: 0, e: 3, s: 1, w: 0 };
    let chunks = read_region_chunk_data(Some(&file[..]), &limits, &region_blocktypes()).unwrap();
    assert_eq!(chunks.len(), 1);
}

#[test]
fn region_file_that_is_cut_short_is_an_error() {
    let file = region_file(&[(3, 0, region_chunk_nbt(&[region_stone_section(0)], None))]);
    assert!(matches!(read_region_chunk_coords(&file[..100], &None), Err(NbtError::UnexpectedEof)));
    assert!(matches!(
        read_region_chunk_coords(&file[..8192 + 3], &None),
        Err(NbtError::UnexpectedEof)
    ));
}

#[test]
fn chunk_that_does_not_decompress_is_absent() {
    let mut file = region_file(&[(0, 0, region_chunk_nbt(&[region_stone_section(0)], None))]);
    for byte in file[8192 + 5..8192 + 40].iter_mut() {
        *byte = 0xff;
    }
    assert!(read_region_chunk_coords(&file, &None).unwrap().is_empty());
    // Another compression than zlib is not decoded.
    let mut file = region_file(&[(0, 0, region_chunk_nbt(&[region_stone_section(0)], None))]);
    file[8192 + 4] = 1;
    assert!(read_region_chunk_coords(&file, &None).unwrap().is_empty());
}

fn region_chunk_with(value: u16, light: u8) -> ChunkData {
    let mut data = ChunkData::new();
    for i in 0..65536 {
        data.blocks[i] = value;
        data.lights[i] = light;
    }
    data
}

#[test]
fn new_chunk_is_air_without_light() {
    let data = ChunkData::new();
    assert!(data.blocks.iter().all(|b| *b == 0));
    assert!(data.lights.iter().all(|b| *b == 0));
    assert!(data.biomes.iter().all(|b| *b == 0));
    assert!(data.within(1, 1));
    assert!(!data.within(0, 1));
    assert!(!region_chunk_with(5, 0).within(5, 1));
    assert!(region_chunk_with(5, 0).within(6, 1));
}

#[test]
fn neighbours_inside_a_chunk() {
    let mut data = ChunkData::new();
    let here = 5 * 256 + 7 * 16 + 9;
    data.blocks[here + 256] = 1;
    data.blocks[here - 16] = 2;
    data.blocks[here + 1] = 3;
    data.blocks[here + 16] = 4;
    data.blocks[here - 1] = 5;
    data.lights[here + 1] = 0x4b;
    let chunk = Chunk { data: &data, ndata: Edges { n: None, e: None, s: None, w: None } };
    assert_eq!(chunk.get_t_block(&5, &here, 255).btype, 1);
    assert_eq!(chunk.get_n_block(&7, &here).btype, 2);
    assert_eq!(chunk.get_e_block(&9, &here), Block { btype: 3, slight: 11, blight: 4 });
    assert_eq!(chunk.get_s_block(&7, &here).btype, 4);
    assert_eq!(chunk.get_w_block(&9, &here).btype, 5);
}

#[test]
fn block_above_the_ceiling_is_air_in_full_skylight() {
    let data = region_chunk_with(7, 0x21);
    let chunk = Chunk { data: &data, ndata: Edges { n: None, e: None, s: None, w: None } };
    let top = 255 * 256;
    assert_eq!(chunk.get_t_block(&255, &top, 255), Block { btype: 0, slight: 15, blight: 0 });
    let mid = 100 * 256;
    assert_eq!(chunk.get_t_block(&100, &mid, 100), Block { btype: 0, slight: 15, blight: 0 });
    assert_eq!(chunk.get_t_block(&100, &mid, 255), Block { btype: 7, slight: 1, blight: 2 });
}

#[test]
fn neighbours_across_the_border_of_a_chunk() {
    let data = region_chunk_with(1, 0);
    let mut north = ChunkData::new();
    let mut east = ChunkData::new();
    let mut south = ChunkData::new();
    let mut west = ChunkData::new();
    let y = 3 * 256;
    north.blocks[y + 15 * 16 + 4] = 11;
    east.blocks[y + 4 * 16] = 12;
    south.blocks[y + 4] = 13;
    west.blocks[y + 4 * 16 + 15] = 14;
    west.lights[y + 4 * 16 + 15] = 0x9e;
    let chunk = Chunk {
        data: &data,
        ndata: Edges { n: Some(&north), e: Some(&east), s: Some(&south), w: Some(&west) },
    };
    assert_eq!(chunk.get_n_block(&0, &(y + 4)).btype, 11);
    assert_eq!(chunk.get_e_block(&15, &(y + 4 * 16 + 15)).btype, 12);
    assert_eq!(chunk.get_s_block(&15, &(y + 15 * 16 + 4)).btype, 13);
    assert_eq!(chunk.get_w_block(&0, &(y + 4 * 16)), Block { btype: 14, slight: 14, blight: 9 });
    let alone = Chunk { data: &data, ndata: Edges { n: None, e: None, s: None, w: None } };
    assert_eq!(alone.get_w_block(&0, &(y + 4 * 16)), Block { btype: 0, slight: 0, blight: 0 });
    assert_eq!(alone.get_n_block(&0, &(y + 4)), Block { btype: 0, slight: 0, blight: 0 });
}

#[test]
fn chunks_of_a_region_have_their_neighbours() {
    let mut region = RegionData {
        chunks: HashMap::new(),
        nchunks: Edges {
            n: HashMap::new(),
            e: HashMap::new(),
            s: HashMap::new(),
            w: HashMap::new(),
        },
    };
    region.chunks.insert(chunk_key(&Pair { x: 0, z: 5 }), region_chunk_with(1, 0));
    region.chunks.insert(chunk_key(&Pair { x: 1, z: 5 }), region_chunk_with(2, 0));
    region.chunks.insert(chunk_key(&Pair { x: 0, z: 4 }), region_chunk_with(3, 0));
    region.nchunks.w.insert(chunk_key(&Pair { x: 31, z: 5 }), region_chunk_with(4, 0x7a));
    region.nchunks.w.insert(chunk_key(&Pair { x: 31, z: 6 }), region_chunk_with(5, 0));
    let chunk = region.get_chunk(&Pair { x: 0, z: 5 }).unwrap();
    assert_eq!(chunk.data.blocks[0], 1);
    assert_eq!(chunk.ndata.e.unwrap().blocks[0], 2);
    assert_eq!(chunk.ndata.n.unwrap().blocks[0], 3);
    assert_eq!(chunk.ndata.w.unwrap().blocks[0], 4);
    assert!(chunk.ndata.s.is_none());
    // The block on the western edge sees the eastern edge of the region to the west.
    let here = 10 * 256 + 3 * 16;
    assert_eq!(chunk.get_w_block(&0, &here), Block { btype: 4, slight: 10, blight: 7 });
    assert!(region.get_chunk(&Pair { x: 2, z: 5 }).is_none());
    assert!(region.get_chunk(&Pair { x: 32, z: 5 }).is_none());
    let east = region.get_chunk(&Pair { x: 1, z: 5 }).unwrap();
    assert_eq!(east.ndata.w.unwrap().blocks[0], 1);
    assert!(east.ndata.e.is_none());
}

#[test]
fn chunk_keys_go_row_by_row() {
    assert_eq!(chunk_key(&Pair { x: 0, z: 0 }), 0);
    assert_eq!(chunk_key(&Pair { x: 31, z: 0 }), 31);
    assert_eq!(chunk_key(&Pair { x: 0, z: 1 }), 32);
    assert_eq!(chunk_key(&Pair { x: 31, z: 31 }), 1023);
}

#[test]
fn empty_list_of_sections_behind_a_full_one_is_absent() {
    // The level holds a list of one section and then an empty list.
    let mut nbt = region_header(10, "Level");
    nbt.extend(region_header(9, "Sections"));
    nbt.push(10);
    nbt.extend_from_slice(&1u32.to_be_bytes());
    nbt.extend(region_section(&region_stone_section(0)));
    nbt.extend(region_header(9, "Sections"));
    nbt.push(10);
    nbt.extend_from_slice(&0u32.to_be_bytes());
    nbt.push(0);
    nbt.push(0);
    assert!(region_decode(nbt.clone()).unwrap().is_none());
    let mut reader = Reader::new(nbt);
    assert_eq!(read_region_chunk_present(&mut reader), Ok(true));
}

#[test]
fn chunk_reading_never_moves_the_cursor_back() {
    let nbt = region_chunk_nbt(&[region_stone_section(0)], None);
    let len = nbt.len();
    let mut reader = Reader::new(nbt.clone());
    assert!(read_region_chunk(&mut reader, &region_blocktypes()).unwrap().is_some());
    assert!(reader.remaining() < len);
    let mut reader = Reader::new(nbt);
    assert_eq!(read_region_chunk_present(&mut reader), Ok(true));
    assert!(reader.remaining() < len);
}

#[test]
fn cursor_stands_behind_what_was_read_of_a_chunk() {
    // The level is the last child of the root, and the end of the root follows it.
    let nbt = region_chunk_nbt(&[region_stone_section(0)], None);
    let mut reader = Reader::new(nbt.clone());
    assert!(read_region_chunk(&mut reader, &region_blocktypes()).unwrap().is_some());
    assert_eq!(reader.remaining(), 1);
    assert_eq!(reader.read_u8(), Ok(0));
    // The scan stops behind the length of the list of sections.
    let mut reader = Reader::new(nbt.clone());
    assert_eq!(read_region_chunk_present(&mut reader), Ok(true));
    let mut head = region_header(3, "DataVersion");
    head.extend_from_slice(&1631u32.to_be_bytes());
    head.extend(region_header(10, "Level"));
    head.extend(region_header(9, "Entities"));
    head.push(0);
    head.extend_from_slice(&0u32.to_be_bytes());
    head.extend(region_header(9, "Sections"));
    head.push(10);
    head.extend_from_slice(&1u32.to_be_bytes());
    assert_eq!(reader.remaining(), nbt.len() - head.len());
}
