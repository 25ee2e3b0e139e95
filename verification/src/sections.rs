use vstd::prelude::*;

use crate::blockstates::{
    lemma_pack_unpack, spec_index_fits, spec_pack, spec_state_bits, spec_unpack,
    unpack_block_states,
};
use crate::blocktypes::{find_block_type, prop_views, spec_find_block_type, BlockType};
use crate::nbt::{
    compound_get, entry_views, lemma_compound_view, lemma_list_view, spec_compound_get, tag_views,
    NbtError, Tag, TagTree,
};
use crate::region::{
    lemma_light_nibbles, spec_blocklight, spec_pack_light, spec_skylight, ChunkData, ChunkModel,
};
use crate::sizes::{
    BLOCKS_IN_CHUNK_2D, BLOCKS_IN_CHUNK_3D, BLOCKS_IN_SECTION_3D, MAX_SECTION_IN_CHUNK_Y,
};

verus! {

/// The names of the children of a section that the decoder reads.
pub open spec fn spec_section_names() -> Seq<Seq<char>> {
    seq!["Y"@, "Palette"@, "BlockStates"@, "BlockLight"@, "SkyLight"@]
}

/// The height of a section, counted in sections: its child `Y`, a byte.
pub open spec fn spec_section_y(entries: Seq<(Seq<char>, TagTree)>) -> Result<u8, NbtError> {
    match spec_compound_get(entries, "Y"@) {
        None => Err(NbtError::MissingTag),
        Some(TagTree::Byte(y)) => Ok(y),
        Some(_) => Err(NbtError::WrongTag),
    }
}

/// The first `count` properties of a palette entry, each a name and a text.
pub open spec fn spec_string_props(props: Seq<(Seq<char>, TagTree)>, count: int) -> Result<
    Seq<(Seq<char>, Seq<char>)>,
    NbtError,
>
    decreases count,
{
    if count <= 0 {
        Ok(Seq::empty())
    } else {
        match spec_string_props(props, count - 1) {
            Err(e) => Err(e),
            Ok(front) => match props[count - 1].1 {
                TagTree::String(v) => Ok(front.push((props[count - 1].0, v))),
                _ => Err(NbtError::WrongTag),
            },
        }
    }
}

/// The properties of a palette entry: those of its child `Properties`, none
/// where it has no such child.
pub open spec fn spec_entry_props(entry: Seq<(Seq<char>, TagTree)>) -> Result<
    Seq<(Seq<char>, Seq<char>)>,
    NbtError,
> {
    match spec_compound_get(entry, "Properties"@) {
        None => Ok(Seq::empty()),
        Some(TagTree::Compound(props)) => spec_string_props(props, props.len() as int),
        Some(_) => Err(NbtError::WrongTag),
    }
}

/// The block type that a palette entry stands for: the first of
/// `blocktypes` with the entry's name whose states are all among the entry's
/// properties.
pub open spec fn spec_palette_entry(entry: TagTree, blocktypes: Seq<BlockType>) -> Result<
    u16,
    NbtError,
> {
    match entry {
        TagTree::Compound(children) => match spec_compound_get(children, "Name"@) {
            None => Err(NbtError::MissingTag),
            Some(TagTree::String(name)) => match spec_entry_props(children) {
                Err(e) => Err(e),
                Ok(props) => match spec_find_block_type(blocktypes, name, props, 0) {
                    Some(i) => if i <= 0xffff {
                        Ok(i as u16)
                    } else {
                        Err(NbtError::UnknownBlock)
                    },
                    None => Err(NbtError::UnknownBlock),
                },
            },
            Some(_) => Err(NbtError::WrongTag),
        },
        _ => Err(NbtError::WrongTag),
    }
}

/// The block types of the first `count` entries of a palette.
pub open spec fn spec_palette(palette: Seq<TagTree>, blocktypes: Seq<BlockType>, count: int) -> Result<
    Seq<u16>,
    NbtError,
>
    decreases count,
{
    if count <= 0 {
        Ok(Seq::empty())
    } else {
        match spec_palette(palette, blocktypes, count - 1) {
            Err(e) => Err(e),
            Ok(front) => match spec_palette_entry(palette[count - 1], blocktypes) {
                Err(e) => Err(e),
                Ok(v) => Ok(front.push(v)),
            },
        }
    }
}

/// The blocks of a chunk after the 4096 voxels from index `so` on have been
/// set from the block states `states` through the palette `pblocks`.
pub open spec fn spec_section_blocks(
    blocks: Seq<u16>,
    so: int,
    pblocks: Seq<u16>,
    states: Seq<u64>,
) -> Result<Seq<u16>, NbtError> {
    if spec_state_bits(states) > 16 {
        Err(NbtError::BadLength)
    } else if exists|voxel: int|
        0 <= voxel < BLOCKS_IN_SECTION_3D && (#[trigger] spec_unpack(states)[voxel])
            >= pblocks.len() {
        Err(NbtError::BadLength)
    } else {
        Ok(
            Seq::new(
                blocks.len(),
                |i: int|
                    if so <= i < so + BLOCKS_IN_SECTION_3D {
                        pblocks[spec_unpack(states)[i - so] as int]
                    } else {
                        blocks[i]
                    },
            ),
        )
    }
}

/// The blocks of a chunk after a section at index `so` has been read: set
/// from its children `Palette` and `BlockStates` where it has block states,
/// and as they were where it has none.
pub open spec fn spec_apply_blocks(
    blocks: Seq<u16>,
    so: int,
    entries: Seq<(Seq<char>, TagTree)>,
    blocktypes: Seq<BlockType>,
) -> Result<Seq<u16>, NbtError> {
    match spec_compound_get(entries, "BlockStates"@) {
        None => Ok(blocks),
        Some(states_tag) => match spec_compound_get(entries, "Palette"@) {
            None => Err(NbtError::MissingTag),
            Some(TagTree::List(palette)) => match states_tag {
                TagTree::LongArray(states) => match spec_palette(
                    palette,
                    blocktypes,
                    palette.len() as int,
                ) {
                    Err(e) => Err(e),
                    Ok(pblocks) => spec_section_blocks(blocks, so, pblocks, states),
                },
                _ => Err(NbtError::WrongTag),
            },
            Some(_) => Err(NbtError::WrongTag),
        },
    }
}

/// The light array of the name `name` of a section, where it has one.
pub open spec fn spec_light_array(entries: Seq<(Seq<char>, TagTree)>, name: Seq<char>) -> Result<
    Option<Seq<u8>>,
    NbtError,
> {
    match spec_compound_get(entries, name) {
        None => Ok(None),
        Some(TagTree::ByteArray(v)) => Ok(Some(v)),
        Some(_) => Err(NbtError::WrongTag),
    }
}

/// The light level of voxel `voxel` of a section in a light array: each byte
/// holds an even voxel in its low half and the next voxel in its high half.
/// Without an array the level is `default`.
pub open spec fn spec_light_nibble(array: Option<Seq<u8>>, default: u8, voxel: int) -> u8 {
    match array {
        None => default,
        Some(a) => if voxel % 2 == 0 {
            a[voxel / 2] & 0x0f
        } else {
            a[voxel / 2] >> 4
        },
    }
}

/// Whether a light array, where there is one, has a level for each voxel of
/// a section.
pub open spec fn spec_light_array_long_enough(array: Option<Seq<u8>>) -> bool {
    match array {
        None => true,
        Some(a) => a.len() >= BLOCKS_IN_SECTION_3D / 2,
    }
}

/// The lights of a chunk after the section at index `so` has been read: a
/// missing skylight array stands for full skylight, a missing blocklight
/// array for no blocklight.
pub open spec fn spec_apply_lights(lights: Seq<u8>, so: int, entries: Seq<(Seq<char>, TagTree)>) -> Result<
    Seq<u8>,
    NbtError,
> {
    match spec_light_array(entries, "SkyLight"@) {
        Err(e) => Err(e),
        Ok(sky) => match spec_light_array(entries, "BlockLight"@) {
            Err(e) => Err(e),
            Ok(block) => if spec_light_array_long_enough(sky) && spec_light_array_long_enough(
                block,
            ) {
                Ok(
                    Seq::new(
                        lights.len(),
                        |i: int|
                            if so <= i < so + BLOCKS_IN_SECTION_3D {
                                spec_pack_light(
                                    spec_light_nibble(sky, 15, i - so),
                                    spec_light_nibble(block, 0, i - so),
                                )
                            } else {
                                lights[i]
                            },
                    ),
                )
            } else {
                Err(NbtError::BadLength)
            },
        },
    }
}

/// The chunk after a section has been read into it. A section above the
/// sixteenth leaves the chunk as it is.
#[verifier::opaque]
pub open spec fn spec_apply_section(
    chunk: ChunkModel,
    entries: Seq<(Seq<char>, TagTree)>,
    blocktypes: Seq<BlockType>,
) -> Result<ChunkModel, NbtError> {
    match spec_section_y(entries) {
        Err(e) => Err(e),
        Ok(y) => if y > MAX_SECTION_IN_CHUNK_Y {
            Ok(chunk)
        } else {
            match spec_apply_blocks(
                chunk.blocks,
                y as int * BLOCKS_IN_SECTION_3D as int,
                entries,
                blocktypes,
            ) {
                Err(e) => Err(e),
                Ok(blocks) => match spec_apply_lights(
                    chunk.lights,
                    y as int * BLOCKS_IN_SECTION_3D as int,
                    entries,
                ) {
                    Err(e) => Err(e),
                    Ok(lights) => Ok(ChunkModel { blocks, lights, biomes: chunk.biomes }),
                },
            }
        },
    }
}

/// The biomes of a chunk's columns as a biome tag gives them: a byte array,
/// or an array of 32-bit numbers of which the low bytes count. An array that
/// has not one biome for each column, or a tag of another kind, gives none.
pub open spec fn spec_biome_array(tag: TagTree) -> Option<Seq<u8>> {
    match tag {
        TagTree::ByteArray(v) => if v.len() == BLOCKS_IN_CHUNK_2D {
            Some(v)
        } else {
            None
        },
        TagTree::IntArray(v) => if v.len() == BLOCKS_IN_CHUNK_2D {
            Some(Seq::new(v.len(), |i: int| (v[i] & 0xff) as u8))
        } else {
            None
        },
        _ => None,
    }
}

/// The chunk after a biome tag has been read into it.
#[verifier::opaque]
pub open spec fn spec_apply_biomes(chunk: ChunkModel, tag: TagTree) -> ChunkModel {
    match spec_biome_array(tag) {
        Some(biomes) => ChunkModel { blocks: chunk.blocks, lights: chunk.lights, biomes },
        None => chunk,
    }
}

/// An entry that is no text fails the properties from there on.
proof fn lemma_string_props_error(props: Seq<(Seq<char>, TagTree)>, at: int, count: int)
    requires
        0 <= at <= count,
        spec_string_props(props, at) is Err,
    ensures
        spec_string_props(props, count) == spec_string_props(props, at),
    decreases count - at,
{
    if at < count {
        lemma_string_props_error(props, at, count - 1);
    }
}

/// An entry that stands for no block type fails the palette from there on.
proof fn lemma_palette_error(palette: Seq<TagTree>, blocktypes: Seq<BlockType>, at: int, count: int)
    requires
        0 <= at <= count,
        spec_palette(palette, blocktypes, at) is Err,
    ensures
        spec_palette(palette, blocktypes, count) == spec_palette(palette, blocktypes, at),
    decreases count - at,
{
    if at < count {
        lemma_palette_error(palette, blocktypes, at, count - 1);
    }
}

fn section_y(section: &Vec<(String, Tag)>) -> (r: Result<u8, NbtError>)
    ensures
        r == spec_section_y(entry_views(section@)),
{
    match compound_get(section, "Y") {
        None => Err(NbtError::MissingTag),
        Some(tag) => match tag {
            Tag::Byte(y) => Ok(*y),
            _ => Err(NbtError::WrongTag),
        },
    }
}

fn string_props(props: &Vec<(String, Tag)>) -> (r: Result<Vec<(String, String)>, NbtError>)
    ensures
        match spec_string_props(entry_views(props@), props.len() as int) {
            Ok(v) => r matches Ok(out) && prop_views(out@) == v,
            Err(e) => r matches Err(err) && err == e,
        },
{
    let mut out: Vec<(String, String)> = Vec::new();
    let mut i: usize = 0;
    assert(prop_views(out@) =~= Seq::empty());
    while i < props.len()
        invariant
            i <= props.len(),
            spec_string_props(entry_views(props@), i as int) == Ok::<
                Seq<(Seq<char>, Seq<char>)>,
                NbtError,
            >(prop_views(out@)),
        decreases props.len() - i,
    {
        let ghost front = prop_views(out@);
        match &props[i].1 {
            Tag::String(v) => {
                out.push((props[i].0.clone(), v.clone()));
                assert(prop_views(out@) =~= front.push((props[i as int].0@, v@)));
            },
            _ => {
                proof {
                    lemma_string_props_error(entry_views(props@), i + 1, props.len() as int);
                }
                return Err(NbtError::WrongTag);
            },
        }
        i = i + 1;
    }
    Ok(out)
}

fn entry_props(entry: &Vec<(String, Tag)>) -> (r: Result<Vec<(String, String)>, NbtError>)
    ensures
        match spec_entry_props(entry_views(entry@)) {
            Ok(v) => r matches Ok(out) && prop_views(out@) == v,
            Err(e) => r matches Err(err) && err == e,
        },
{
    match compound_get(entry, "Properties") {
        None => {
            let out: Vec<(String, String)> = Vec::new();
            assert(prop_views(out@) =~= Seq::empty());
            Ok(out)
        },
        Some(tag) => match tag {
            Tag::Compound(props) => {
                proof {
                    lemma_compound_view(*props);
                }
                string_props(props)
            },
            _ => Err(NbtError::WrongTag),
        },
    }
}

fn palette_entry(entry: &Tag, blocktypes: &[BlockType]) -> (r: Result<u16, NbtError>)
    ensures
        r == spec_palette_entry(entry@, blocktypes@),
{
    match entry {
        Tag::Compound(children) => {
            proof {
                lemma_compound_view(*children);
            }
            match compound_get(children, "Name") {
                None => Err(NbtError::MissingTag),
                Some(name_tag) => match name_tag {
                    Tag::String(name) => {
                        let props: Vec<(String, String)> = entry_props(children)?;
                        match find_block_type(blocktypes, name, &props) {
                            Some(i) => if i <= 0xffff {
                                Ok(i as u16)
                            } else {
                                Err(NbtError::UnknownBlock)
                            },
                            None => Err(NbtError::UnknownBlock),
                        }
                    },
                    _ => Err(NbtError::WrongTag),
                },
            }
        },
        _ => Err(NbtError::WrongTag),
    }
}

fn resolve_palette(palette: &Vec<Tag>, blocktypes: &[BlockType]) -> (r: Result<Vec<u16>, NbtError>)
    ensures
        match spec_palette(tag_views(palette@), blocktypes@, palette.len() as int) {
            Ok(v) => r matches Ok(out) && out@ == v,
            Err(e) => r matches Err(err) && err == e,
        },
{
    let mut pblocks: Vec<u16> = Vec::new();
    let mut i: usize = 0;
    while i < palette.len()
        invariant
            i <= palette.len(),
            spec_palette(tag_views(palette@), blocktypes@, i as int) == Ok::<Seq<u16>, NbtError>(
                pblocks@,
            ),
        decreases palette.len() - i,
    {
        let v: u16 = match palette_entry(&palette[i], blocktypes) {
            Ok(v) => v,
            Err(e) => {
                proof {
                    lemma_palette_error(
                        tag_views(palette@),
                        blocktypes@,
                        i + 1,
                        palette.len() as int,
                    );
                }
                return Err(e);
            },
        };
        pblocks.push(v);
        i = i + 1;
    }
    Ok(pblocks)
}

fn set_section_blocks(chunk: &mut ChunkData, so: usize, pblocks: &Vec<u16>, states: &Vec<u64>) -> (r:
    Result<(), NbtError>)
    requires
        so + BLOCKS_IN_SECTION_3D <= BLOCKS_IN_CHUNK_3D,
    ensures
        final(chunk).lights == old(chunk).lights,
        final(chunk).biomes == old(chunk).biomes,
        match spec_section_blocks(old(chunk).blocks@, so as int, pblocks@, states@) {
            Ok(blocks) => r is Ok && final(chunk).blocks@ == blocks,
            Err(e) => r matches Err(err) && err == e,
        },
{
    let indices: Vec<u16> = match unpack_block_states(states) {
        None => {
            return Err(NbtError::BadLength);
        },
        Some(v) => v,
    };
    let mut i: usize = 0;
    while i < BLOCKS_IN_SECTION_3D
        invariant
            i <= BLOCKS_IN_SECTION_3D,
            so + BLOCKS_IN_SECTION_3D <= BLOCKS_IN_CHUNK_3D,
            indices@ == spec_unpack(states@),
            spec_state_bits(states@) <= 16,
            chunk.lights == old(chunk).lights,
            chunk.biomes == old(chunk).biomes,
            forall|voxel: int| 0 <= voxel < i ==> (#[trigger] indices[voxel]) < pblocks.len(),
            forall|k: int|
                0 <= k < BLOCKS_IN_CHUNK_3D ==> (#[trigger] chunk.blocks[k]) == (if so <= k < so
                    + i {
                    pblocks[indices[k - so] as int]
                } else {
                    old(chunk).blocks[k]
                }),
        decreases BLOCKS_IN_SECTION_3D - i,
    {
        let index: usize = indices[i] as usize;
        if index >= pblocks.len() {
            assert(spec_unpack(states@)[i as int] >= pblocks.len());
            return Err(NbtError::BadLength);
        }
        chunk.blocks[so + i] = pblocks[index];
        i = i + 1;
    }
    assert(chunk.blocks@ =~= spec_section_blocks(
        old(chunk).blocks@,
        so as int,
        pblocks@,
        states@,
    )->Ok_0);
    Ok(())
}

fn apply_blocks(
    chunk: &mut ChunkData,
    so: usize,
    section: &Vec<(String, Tag)>,
    blocktypes: &[BlockType],
) -> (r: Result<(), NbtError>)
    requires
        so + BLOCKS_IN_SECTION_3D <= BLOCKS_IN_CHUNK_3D,
    ensures
        final(chunk).lights == old(chunk).lights,
        final(chunk).biomes == old(chunk).biomes,
        match spec_apply_blocks(
            old(chunk).blocks@,
            so as int,
            entry_views(section@),
            blocktypes@,
        ) {
            Ok(blocks) => r is Ok && final(chunk).blocks@ == blocks,
            Err(e) => r matches Err(err) && err == e,
        },
{
    match compound_get(section, "BlockStates") {
        None => Ok(()),
        Some(states_tag) => match compound_get(section, "Palette") {
            None => Err(NbtError::MissingTag),
            Some(palette_tag) => match palette_tag {
                Tag::List(palette) => {
                    proof {
                        lemma_list_view(*palette);
                    }
                    match states_tag {
                        Tag::LongArray(states) => {
                            let pblocks: Vec<u16> = resolve_palette(palette, blocktypes)?;
                            set_section_blocks(chunk, so, &pblocks, states)
                        },
                        _ => Err(NbtError::WrongTag),
                    }
                },
                _ => Err(NbtError::WrongTag),
            },
        },
    }
}

/// The view of an optional array.
pub open spec fn spec_array_view(array: Option<&Vec<u8>>) -> Option<Seq<u8>> {
    match array {
        Some(a) => Some(a@),
        None => None,
    }
}

fn light_array<'a>(section: &'a Vec<(String, Tag)>, name: &str) -> (r: Result<
    Option<&'a Vec<u8>>,
    NbtError,
>)
    ensures
        match spec_light_array(entry_views(section@), name@) {
            Ok(v) => r matches Ok(out) && spec_array_view(out) == v,
            Err(e) => r matches Err(err) && err == e,
        },
{
    match compound_get(section, name) {
        None => Ok(None),
        Some(tag) => match tag {
            Tag::ByteArray(v) => Ok(Some(v)),
            _ => Err(NbtError::WrongTag),
        },
    }
}

fn light_nibble(array: Option<&Vec<u8>>, default: u8, voxel: usize) -> (r: u8)
    requires
        spec_light_array_long_enough(spec_array_view(array)),
        voxel < BLOCKS_IN_SECTION_3D,
        default < 16,
    ensures
        r == spec_light_nibble(spec_array_view(array), default, voxel as int),
        r < 16,
{
    match array {
        None => default,
        Some(a) => {
            let byte: u8 = a[voxel / 2];
            assert(byte & 0x0f < 16 && byte >> 4 < 16) by (bit_vector);
            if voxel % 2 == 0 {
                byte & 0x0f
            } else {
                byte >> 4
            }
        },
    }
}

fn long_enough(array: Option<&Vec<u8>>) -> (r: bool)
    ensures
        r == spec_light_array_long_enough(spec_array_view(array)),
{
    match array {
        None => true,
        Some(a) => a.len() >= BLOCKS_IN_SECTION_3D / 2,
    }
}

fn apply_lights(chunk: &mut ChunkData, so: usize, section: &Vec<(String, Tag)>) -> (r: Result<
    (),
    NbtError,
>)
    requires
        so + BLOCKS_IN_SECTION_3D <= BLOCKS_IN_CHUNK_3D,
    ensures
        final(chunk).blocks == old(chunk).blocks,
        final(chunk).biomes == old(chunk).biomes,
        match spec_apply_lights(old(chunk).lights@, so as int, entry_views(section@)) {
            Ok(lights) => r is Ok && final(chunk).lights@ == lights,
            Err(e) => r matches Err(err) && err == e,
        },
{
    let sky: Option<&Vec<u8>> = light_array(section, "SkyLight")?;
    let block: Option<&Vec<u8>> = light_array(section, "BlockLight")?;
    if !(long_enough(sky) && long_enough(block)) {
        return Err(NbtError::BadLength);
    }
    let mut i: usize = 0;
    while i < BLOCKS_IN_SECTION_3D
        invariant
            i <= BLOCKS_IN_SECTION_3D,
            so + BLOCKS_IN_SECTION_3D <= BLOCKS_IN_CHUNK_3D,
            spec_light_array_long_enough(spec_array_view(sky)),
            spec_light_array_long_enough(spec_array_view(block)),
            chunk.blocks == old(chunk).blocks,
            chunk.biomes == old(chunk).biomes,
            forall|k: int|
                0 <= k < BLOCKS_IN_CHUNK_3D ==> (#[trigger] chunk.lights[k]) == (if so <= k < so
                    + i {
                    spec_pack_light(
                        spec_light_nibble(spec_array_view(sky), 15, k - so),
                        spec_light_nibble(spec_array_view(block), 0, k - so),
                    )
                } else {
                    old(chunk).lights[k]
                }),
        decreases BLOCKS_IN_SECTION_3D - i,
    {
        let s: u8 = light_nibble(sky, 15, i);
        let b: u8 = light_nibble(block, 0, i);
        assert(b << 4 == (b << 4) & 0xff) by (bit_vector);
        chunk.lights[so + i] = (b << 4) | s;
        i = i + 1;
    }
    assert(chunk.lights@ =~= spec_apply_lights(
        old(chunk).lights@,
        so as int,
        entry_views(section@),
    )->Ok_0);
    Ok(())
}

/// Reads one section into `chunk`: its block states through its palette,
/// and its two light arrays. A section above the sixteenth is passed over.
pub fn apply_section(chunk: &mut ChunkData, section: &Vec<(String, Tag)>, blocktypes: &[BlockType]) -> (r:
    Result<(), NbtError>)
    ensures
        match spec_apply_section(old(chunk)@, entry_views(section@), blocktypes@) {
            Ok(model) => r is Ok && final(chunk)@ == model,
            Err(e) => r matches Err(err) && err == e,
        },
{
    reveal(spec_apply_section);
    let y: usize = section_y(section)? as usize;
    if y > MAX_SECTION_IN_CHUNK_Y {
        return Ok(());
    }
    let so: usize = y * BLOCKS_IN_SECTION_3D;
    apply_blocks(chunk, so, section, blocktypes)?;
    apply_lights(chunk, so, section)
}

/// Reads a biome tag into `chunk`.
pub fn apply_biomes(chunk: &mut ChunkData, tag: &Tag)
    ensures
        final(chunk)@ == spec_apply_biomes(old(chunk)@, tag@),
{
    reveal(spec_apply_biomes);
    match tag {
        Tag::ByteArray(v) => {
            if v.len() == BLOCKS_IN_CHUNK_2D {
                let mut i: usize = 0;
                while i < BLOCKS_IN_CHUNK_2D
                    invariant
                        i <= BLOCKS_IN_CHUNK_2D,
                        v.len() == BLOCKS_IN_CHUNK_2D,
                        chunk.blocks == old(chunk).blocks,
                        chunk.lights == old(chunk).lights,
                        forall|k: int| 0 <= k < i ==> (#[trigger] chunk.biomes[k]) == v[k],
                    decreases BLOCKS_IN_CHUNK_2D - i,
                {
                    chunk.biomes[i] = v[i];
                    i = i + 1;
                }
                assert(chunk.biomes@ =~= v@);
            }
        },
        Tag::IntArray(v) => {
            if v.len() == BLOCKS_IN_CHUNK_2D {
                let mut i: usize = 0;
                while i < BLOCKS_IN_CHUNK_2D
                    invariant
                        i <= BLOCKS_IN_CHUNK_2D,
                        v.len() == BLOCKS_IN_CHUNK_2D,
                        chunk.blocks == old(chunk).blocks,
                        chunk.lights == old(chunk).lights,
                        forall|k: int|
                            0 <= k < i ==> (#[trigger] chunk.biomes[k]) == (v[k] & 0xff) as u8,
                    decreases BLOCKS_IN_CHUNK_2D - i,
                {
                    let wide: u32 = v[i];
                    let low: u32 = wide & 0xff;
                    assert(wide & 0xff <= 0xff) by (bit_vector);
                    chunk.biomes[i] = low as u8;
                    i = i + 1;
                }
                assert(chunk.biomes@ =~= spec_biome_array(tag@)->Some_0);
            }
        },
        _ => {},
    }
}

/// Whether every block of `blocks` is air or a block type below `types`.
pub open spec fn spec_blocks_known(blocks: Seq<u16>, types: int) -> bool {
    forall|i: int| 0 <= i < blocks.len() ==> (#[trigger] blocks[i]) == 0 || blocks[i] < types
}

/// Every entry of a resolved palette is the place of a block type.
pub proof fn lemma_palette_known(palette: Seq<TagTree>, blocktypes: Seq<BlockType>, count: int)
    requires
        spec_palette(palette, blocktypes, count) is Ok,
    ensures
        forall|i: int|
            0 <= i < spec_palette(palette, blocktypes, count)->Ok_0.len() ==> (
            #[trigger] spec_palette(palette, blocktypes, count)->Ok_0[i]) < blocktypes.len(),
    decreases count,
{
    if count > 0 {
        lemma_palette_known(palette, blocktypes, count - 1);
        let front = spec_palette(palette, blocktypes, count - 1)->Ok_0;
        let entry = palette[count - 1];
        if let TagTree::Compound(children) = entry {
            if let Some(TagTree::String(name)) = spec_compound_get(children, "Name"@) {
                if let Ok(props) = spec_entry_props(children) {
                    lemma_find_in_range(blocktypes, name, props, 0);
                }
            }
        }
    }
}

/// The block type that a search finds lies in the table.
pub proof fn lemma_find_in_range(
    blocktypes: Seq<BlockType>,
    name: Seq<char>,
    props: Seq<(Seq<char>, Seq<char>)>,
    from: int,
)
    requires
        0 <= from,
    ensures
        spec_find_block_type(blocktypes, name, props, from) matches Some(i) ==> from <= i
            < blocktypes.len(),
    decreases blocktypes.len() - from,
{
    if from < blocktypes.len() && !blocktypes[from].spec_matches(name, props) {
        lemma_find_in_range(blocktypes, name, props, from + 1);
    }
}

/// A section that is read into a chunk of blocks of the table leaves a chunk
/// of blocks of the table.
pub proof fn lemma_section_known(
    chunk: ChunkModel,
    entries: Seq<(Seq<char>, TagTree)>,
    blocktypes: Seq<BlockType>,
)
    requires
        spec_blocks_known(chunk.blocks, blocktypes.len() as int),
        spec_apply_section(chunk, entries, blocktypes) is Ok,
    ensures
        spec_blocks_known(
            spec_apply_section(chunk, entries, blocktypes)->Ok_0.blocks,
            blocktypes.len() as int,
        ),
        spec_apply_section(chunk, entries, blocktypes)->Ok_0.blocks.len() == chunk.blocks.len(),
{
    reveal(spec_apply_section);
    if let Some(TagTree::List(palette)) = spec_compound_get(entries, "Palette"@) {
        if spec_palette(palette, blocktypes, palette.len() as int) is Ok {
            lemma_palette_known(palette, blocktypes, palette.len() as int);
        }
    }
}

/// Whether the children of a section are those of a section at the height
/// `y` whose block states are the palette indices `indices`, packed with
/// `bits` bits each, whose palette is `palette`, and whose light arrays are
/// `sky` and `block`.
pub open spec fn spec_is_section(
    entries: Seq<(Seq<char>, TagTree)>,
    y: u8,
    palette: Seq<TagTree>,
    indices: Seq<u16>,
    bits: int,
    sky: Seq<u8>,
    block: Seq<u8>,
) -> bool {
    &&& spec_compound_get(entries, "Y"@) == Some(TagTree::Byte(y))
    &&& spec_compound_get(entries, "Palette"@) == Some(TagTree::List(palette))
    &&& spec_compound_get(entries, "BlockStates"@) == Some(
        TagTree::LongArray(spec_pack(indices, bits)),
    )
    &&& spec_compound_get(entries, "SkyLight"@) == Some(TagTree::ByteArray(sky))
    &&& spec_compound_get(entries, "BlockLight"@) == Some(TagTree::ByteArray(block))
}

/// What was packed into a section comes out of it. A section of the world
/// whose block states are palette indices packed with any width from 1 to 16
/// bits decodes: each of its voxels gets the block type that the palette has
/// at the voxel's index, and the two light levels that the light arrays hold
/// for it, the skylight in the low half of the light byte and the blocklight
/// in the high half. The rest of the chunk stays as it was.
pub proof fn lemma_section_decodes(
    chunk: ChunkModel,
    entries: Seq<(Seq<char>, TagTree)>,
    blocktypes: Seq<BlockType>,
    y: u8,
    palette: Seq<TagTree>,
    pblocks: Seq<u16>,
    indices: Seq<u16>,
    bits: int,
    sky: Seq<u8>,
    block: Seq<u8>,
)
    requires
        y <= MAX_SECTION_IN_CHUNK_Y,
        spec_is_section(entries, y, palette, indices, bits, sky, block),
        spec_palette(palette, blocktypes, palette.len() as int) == Ok::<Seq<u16>, NbtError>(pblocks),
        1 <= bits <= 16,
        indices.len() == BLOCKS_IN_SECTION_3D,
        forall|voxel: int|
            0 <= voxel < BLOCKS_IN_SECTION_3D ==> spec_index_fits(#[trigger] indices[voxel], bits)
                && indices[voxel] < pblocks.len(),
        sky.len() >= BLOCKS_IN_SECTION_3D / 2,
        block.len() >= BLOCKS_IN_SECTION_3D / 2,
    ensures
        spec_apply_section(chunk, entries, blocktypes) matches Ok(model) && model.blocks.len()
            == chunk.blocks.len() && model.lights.len() == chunk.lights.len() && model.biomes
            == chunk.biomes && (forall|i: int|
            #![trigger model.blocks[i]]
            #![trigger model.lights[i]]
            0 <= i < chunk.blocks.len() && 0 <= i < chunk.lights.len() ==> if y * 4096 <= i < y
                * 4096 + 4096 {
                &&& model.blocks[i] == pblocks[indices[i - y * 4096] as int]
                &&& spec_skylight(model.lights[i]) == spec_light_nibble(Some(sky), 15, i - y * 4096)
                &&& spec_blocklight(model.lights[i]) == spec_light_nibble(
                    Some(block),
                    0,
                    i - y * 4096,
                )
            } else {
                model.blocks[i] == chunk.blocks[i] && model.lights[i] == chunk.lights[i]
            }),
{
    reveal(spec_apply_section);
    lemma_pack_unpack(indices, bits);
    let states = spec_pack(indices, bits);
    let so = y as int * BLOCKS_IN_SECTION_3D as int;
    assert(spec_section_blocks(chunk.blocks, so, pblocks, states) is Ok);
    let model = spec_apply_section(chunk, entries, blocktypes)->Ok_0;
    assert forall|i: int|
        #![trigger model.blocks[i]]
        #![trigger model.lights[i]]
        0 <= i < chunk.blocks.len() && 0 <= i < chunk.lights.len() implies if y * 4096 <= i < y
        * 4096 + 4096 {
        &&& model.blocks[i] == pblocks[indices[i - y * 4096] as int]
        &&& spec_skylight(model.lights[i]) == spec_light_nibble(Some(sky), 15, i - y * 4096)
        &&& spec_blocklight(model.lights[i]) == spec_light_nibble(Some(block), 0, i - y * 4096)
    } else {
        model.blocks[i] == chunk.blocks[i] && model.lights[i] == chunk.lights[i]
    } by {
        if so <= i < so + 4096 {
            let voxel = i - so;
            let s: u8 = spec_light_nibble(Some(sky), 15, voxel);
            let b: u8 = spec_light_nibble(Some(block), 0, voxel);
            let sb: u8 = sky[voxel / 2];
            let bb: u8 = block[voxel / 2];
            assert(sb & 0x0f < 16 && sb >> 4 < 16 && bb & 0x0f < 16 && bb >> 4 < 16)
                by (bit_vector);
            lemma_light_nibbles(0, s, b);
            assert(model.lights[i] == spec_pack_light(s, b));
        }
    }
}

} // verus!
