use rmapbash::blockstates::pack_block_states;
use rmapbash::blocktypes::BlockType;
use rmapbash::color::RGBA;
use rmapbash::nbt::{NbtError, Tag};
use rmapbash::region::ChunkData;
use rmapbash::sections::{apply_biomes, apply_section};

fn sections_blocktype(name: &str) -> BlockType {
    BlockType {
        name: name.to_string(),
        colors: vec![RGBA { r: 0, g: 0, b: 0, a: 0 }; 304640],
        state: vec![],
        shape: [[1usize; 4]; 4],
        solid: true,
        empty: false,
        waterlogged: false,
    }
}

fn sections_blocktypes() -> Vec<BlockType> {
    vec![sections_blocktype("minecraft:air"), sections_blocktype("minecraft:stone")]
}

fn sections_entry(name: &str) -> Tag {
    Tag::Compound(vec![("Name".to_string(), Tag::String(name.to_string()))])
}

fn sections_section(y: u8, palette: Vec<Tag>, indices: &[u16]) -> Vec<(String, Tag)> {
    vec![
        ("Y".to_string(), Tag::Byte(y)),
        ("Palette".to_string(), Tag::List(palette)),
        ("BlockStates".to_string(), Tag::LongArray(pack_block_states(&indices.to_vec(), 4))),
    ]
}

#[test]
fn section_is_read_into_its_place() {
    let mut chunk = ChunkData::new();
    let mut indices = vec![0u16; 4096];
    indices[17] = 1;
    let palette = vec![sections_entry("minecraft:air"), sections_entry("minecraft:stone")];
    let section = sections_section(15, palette, &indices);
    assert_eq!(apply_section(&mut chunk, &section, &sections_blocktypes()), Ok(()));
    assert_eq!(chunk.blocks[15 * 4096 + 17], 1);
    assert_eq!(chunk.blocks.iter().filter(|b| **b != 0).count(), 1);
    assert_eq!(chunk.lights[15 * 4096], 0x0f);
    assert_eq!(chunk.lights[15 * 4096 - 1], 0x00);
}

#[test]
fn section_without_height_is_missing_a_tag() {
    let mut chunk = ChunkData::new();
    let section = vec![("Palette".to_string(), Tag::List(vec![]))];
    assert_eq!(
        apply_section(&mut chunk, &section, &sections_blocktypes()),
        Err(NbtError::MissingTag)
    );
}

#[test]
fn section_with_block_states_needs_a_palette() {
    let mut chunk = ChunkData::new();
    let section = vec![
        ("Y".to_string(), Tag::Byte(0)),
        ("BlockStates".to_string(), Tag::LongArray(vec![0; 256])),
    ];
    assert_eq!(
        apply_section(&mut chunk, &section, &sections_blocktypes()),
        Err(NbtError::MissingTag)
    );
    let palette_without_name = vec![Tag::Compound(vec![])];
    let section = sections_section(0, palette_without_name, &[0u16; 4096]);
    assert_eq!(
        apply_section(&mut chunk, &section, &sections_blocktypes()),
        Err(NbtError::MissingTag)
    );
}

#[test]
fn section_with_tags_of_the_wrong_kind() {
    let mut chunk = ChunkData::new();
    let section = vec![("Y".to_string(), Tag::Int(0))];
    assert_eq!(
        apply_section(&mut chunk, &section, &sections_blocktypes()),
        Err(NbtError::WrongTag)
    );
    let section = vec![
        ("Y".to_string(), Tag::Byte(0)),
        ("Palette".to_string(), Tag::List(vec![sections_entry("minecraft:air")])),
        ("BlockStates".to_string(), Tag::ByteArray(vec![0; 16])),
    ];
    assert_eq!(
        apply_section(&mut chunk, &section, &sections_blocktypes()),
        Err(NbtError::WrongTag)
    );
    let section =
        vec![("Y".to_string(), Tag::Byte(0)), ("SkyLight".to_string(), Tag::LongArray(vec![0; 256]))];
    assert_eq!(
        apply_section(&mut chunk, &section, &sections_blocktypes()),
        Err(NbtError::WrongTag)
    );
    let entry = Tag::Compound(vec![
        ("Name".to_string(), Tag::String("minecraft:stone".to_string())),
        ("Properties".to_string(), Tag::Compound(vec![("axis".to_string(), Tag::Byte(1))])),
    ]);
    let section = sections_section(0, vec![entry], &[0u16; 4096]);
    assert_eq!(
        apply_section(&mut chunk, &section, &sections_blocktypes()),
        Err(NbtError::WrongTag)
    );
}

#[test]
fn section_with_a_block_that_no_type_stands_for() {
    let mut chunk = ChunkData::new();
    let section = sections_section(0, vec![sections_entry("minecraft:dirt")], &[0u16; 4096]);
    assert_eq!(
        apply_section(&mut chunk, &section, &sections_blocktypes()),
        Err(NbtError::UnknownBlock)
    );
}

#[test]
fn section_with_bad_lengths() {
    let mut chunk = ChunkData::new();
    let palette = vec![sections_entry("minecraft:air")];
    let section = sections_section(0, palette, &[1u16; 4096]);
    assert_eq!(
        apply_section(&mut chunk, &section, &sections_blocktypes()),
        Err(NbtError::BadLength)
    );
    let section = vec![
        ("Y".to_string(), Tag::Byte(0)),
        ("Palette".to_string(), Tag::List(vec![sections_entry("minecraft:air")])),
        ("BlockStates".to_string(), Tag::LongArray(vec![0; 64 * 17])),
    ];
    assert_eq!(
        apply_section(&mut chunk, &section, &sections_blocktypes()),
        Err(NbtError::BadLength)
    );
    let section =
        vec![("Y".to_string(), Tag::Byte(0)), ("BlockLight".to_string(), Tag::ByteArray(vec![0; 2047]))];
    assert_eq!(
        apply_section(&mut chunk, &section, &sections_blocktypes()),
        Err(NbtError::BadLength)
    );
}

#[test]
fn section_above_the_world_changes_nothing() {
    let mut chunk = ChunkData::new();
    let section = vec![("Y".to_string(), Tag::Byte(16)), ("Palette".to_string(), Tag::Byte(1))];
    assert_eq!(apply_section(&mut chunk, &section, &sections_blocktypes()), Ok(()));
    assert!(chunk.lights.iter().all(|b| *b == 0));
}

#[test]
fn biomes_are_read_where_there_is_one_for_each_column() {
    let mut chunk = ChunkData::new();
    apply_biomes(&mut chunk, &Tag::ByteArray(vec![4; 256]));
    assert!(chunk.biomes.iter().all(|b| *b == 4));
    apply_biomes(&mut chunk, &Tag::ByteArray(vec![5; 257]));
    assert!(chunk.biomes.iter().all(|b| *b == 4));
    apply_biomes(&mut chunk, &Tag::IntArray(vec![0x0102_0306; 256]));
    assert!(chunk.biomes.iter().all(|b| *b == 6));
    apply_biomes(&mut chunk, &Tag::IntArray(vec![7; 1024]));
    assert!(chunk.biomes.iter().all(|b| *b == 6));
    apply_biomes(&mut chunk, &Tag::LongArray(vec![8; 256]));
    assert!(chunk.biomes.iter().all(|b| *b == 6));
}
