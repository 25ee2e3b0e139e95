use vstd::prelude::*;

use crate::blocktypes::BlockType;
use crate::nbt::{
    spec_compound_items, spec_list_items, spec_list_length, spec_read_u32, spec_read_u8,
    spec_seek, spec_skip_compound, spec_skip_list, spec_skip_payload, spec_tag_header,
    spec_tag_payload, NbtError, TagTree,
};
use crate::region::{
    spec_cell_has_chunk, spec_chunk_bytes, spec_chunk_model, spec_chunk_present, spec_contain,
    spec_decode_chunk, spec_empty_chunk, spec_level, spec_level_child, spec_level_names,
    spec_level_step, spec_scan_chunk, spec_sections, ChunkModel,
};
use crate::blockstates::spec_index_fits;
use crate::region::{spec_blocklight, spec_skylight};
use crate::sections::{
    lemma_section_decodes, lemma_section_known, spec_apply_biomes, spec_apply_section,
    spec_blocks_known, spec_is_section, spec_light_nibble, spec_palette, spec_section_names,
};
use crate::sizes::{BLOCKS_IN_SECTION_3D, MAX_SECTION_IN_CHUNK_Y};

verus! {

/// Passing over a payload ends behind its start and inside the bytes.
pub proof fn lemma_skip_bounds(bytes: Seq<u8>, pos: int, id: u8)
    ensures
        spec_skip_payload(bytes, pos, id) matches Ok(next) ==> pos < next <= bytes.len(),
    decreases bytes.len() - pos, 1int, 0int,
{
    if 0 <= pos <= bytes.len() {
        if id == 9 {
            if let Ok((sub_id, at_len)) = spec_read_u8(bytes, pos) {
                if let Ok((len, start)) = spec_read_u32(bytes, at_len) {
                    lemma_skip_list_bounds(bytes, start, sub_id, len as int);
                }
            }
        } else if id == 10 {
            lemma_skip_compound_bounds(bytes, pos);
        }
    }
}

/// Passing over a row of payloads ends at or behind its start and inside
/// the bytes.
pub proof fn lemma_skip_list_bounds(bytes: Seq<u8>, pos: int, id: u8, count: int)
    requires
        0 <= pos <= bytes.len(),
    ensures
        spec_skip_list(bytes, pos, id, count) matches Ok(next) ==> pos <= next <= bytes.len(),
    decreases bytes.len() - pos, 2int, count,
{
    if count > 0 {
        lemma_skip_bounds(bytes, pos, id);
        if let Ok(next) = spec_skip_payload(bytes, pos, id) {
            if pos < next <= bytes.len() {
                lemma_skip_list_bounds(bytes, next, id, count - 1);
            }
        }
    }
}

/// Passing over a compound ends behind its start and inside the bytes.
pub proof fn lemma_skip_compound_bounds(bytes: Seq<u8>, pos: int)
    ensures
        spec_skip_compound(bytes, pos) matches Ok(next) ==> pos < next <= bytes.len(),
    decreases bytes.len() - pos, 0int, 0int,
{
    if let Ok(((id, _), start)) = spec_tag_header(bytes, pos) {
        if id != 0 && pos < start <= bytes.len() {
            lemma_skip_bounds(bytes, start, id);
            if let Ok(next) = spec_skip_payload(bytes, start, id) {
                if start <= next <= bytes.len() {
                    lemma_skip_compound_bounds(bytes, next);
                }
            }
        }
    }
}

/// Where a payload can be read it can be passed over, up to the same place;
/// and where reading it runs out of bytes, so does passing over it.
pub proof fn lemma_payload_skip(bytes: Seq<u8>, pos: int, id: u8)
    ensures
        spec_tag_payload(bytes, pos, id) matches Ok((_, next)) ==> spec_skip_payload(bytes, pos, id)
            == Ok::<int, NbtError>(next),
        spec_tag_payload(bytes, pos, id) matches Err(e) && e == NbtError::UnexpectedEof
            ==> spec_skip_payload(bytes, pos, id) == Err::<int, NbtError>(NbtError::UnexpectedEof),
    decreases bytes.len() - pos, 1int, 0int,
{
    if 0 <= pos <= bytes.len() {
        if id == 9 {
            if let Ok((sub_id, at_len)) = spec_read_u8(bytes, pos) {
                if let Ok((len, start)) = spec_read_u32(bytes, at_len) {
                    lemma_list_skip(bytes, start, sub_id, len as int);
                }
            }
        } else if id == 10 {
            lemma_compound_skip(bytes, pos);
        }
    }
}

/// Where a row of payloads can be read it can be passed over, up to the same
/// place; and where reading it runs out of bytes, so does passing over it.
pub proof fn lemma_list_skip(bytes: Seq<u8>, pos: int, id: u8, count: int)
    requires
        0 <= pos <= bytes.len(),
    ensures
        spec_list_items(bytes, pos, id, count) matches Ok((_, next)) ==> spec_skip_list(
            bytes,
            pos,
            id,
            count,
        ) == Ok::<int, NbtError>(next),
        spec_list_items(bytes, pos, id, count) matches Err(e) && e == NbtError::UnexpectedEof
            ==> spec_skip_list(bytes, pos, id, count) == Err::<int, NbtError>(
            NbtError::UnexpectedEof,
        ),
    decreases bytes.len() - pos, 2int, count,
{
    if count > 0 {
        lemma_payload_skip(bytes, pos, id);
        if let Ok((_, next)) = spec_tag_payload(bytes, pos, id) {
            if pos < next <= bytes.len() {
                lemma_list_skip(bytes, next, id, count - 1);
            }
        }
    }
}

/// Where the children of a compound can be read they can be passed over, up
/// to the same place; and where reading them runs out of bytes, so does
/// passing over them.
pub proof fn lemma_compound_skip(bytes: Seq<u8>, pos: int)
    ensures
        spec_compound_items(bytes, pos, None) matches Ok((_, next)) ==> spec_skip_compound(
            bytes,
            pos,
        ) == Ok::<int, NbtError>(next),
        spec_compound_items(bytes, pos, None) matches Err(e) && e == NbtError::UnexpectedEof
            ==> spec_skip_compound(bytes, pos) == Err::<int, NbtError>(NbtError::UnexpectedEof),
    decreases bytes.len() - pos, 0int, 0int,
{
    if let Ok(((id, _), start)) = spec_tag_header(bytes, pos) {
        if id != 0 && pos < start <= bytes.len() {
            lemma_payload_skip(bytes, start, id);
            if let Ok((_, next)) = spec_tag_payload(bytes, start, id) {
                if start <= next <= bytes.len() {
                    lemma_compound_skip(bytes, next);
                }
            }
        }
    }
}

/// Reading a payload ends behind its start and inside the bytes.
pub proof fn lemma_payload_bounds(bytes: Seq<u8>, pos: int, id: u8)
    ensures
        spec_tag_payload(bytes, pos, id) matches Ok((_, next)) ==> pos < next <= bytes.len(),
{
    lemma_payload_skip(bytes, pos, id);
    lemma_skip_bounds(bytes, pos, id);
}

/// Reading the children of a compound ends behind its start and inside the
/// bytes.
pub proof fn lemma_items_bounds(bytes: Seq<u8>, pos: int, wanted: Option<Seq<Seq<char>>>)
    ensures
        spec_compound_items(bytes, pos, wanted) matches Ok((_, next)) ==> pos < next <= bytes.len(),
    decreases bytes.len() - pos,
{
    if let Ok(((id, name), start)) = spec_tag_header(bytes, pos) {
        if id != 0 && pos < start <= bytes.len() {
            lemma_payload_bounds(bytes, start, id);
            lemma_skip_bounds(bytes, start, id);
            if crate::nbt::name_wanted(wanted, name) {
                if let Ok((_, next)) = spec_tag_payload(bytes, start, id) {
                    lemma_items_bounds(bytes, next, wanted);
                }
            } else {
                if let Ok(next) = spec_skip_payload(bytes, start, id) {
                    lemma_items_bounds(bytes, next, wanted);
                }
            }
        }
    }
}

/// Reading a row of sections ends at or behind its start and inside the
/// bytes.
pub proof fn lemma_sections_bounds(
    bytes: Seq<u8>,
    pos: int,
    count: int,
    blocktypes: Seq<BlockType>,
    chunk: ChunkModel,
)
    requires
        0 <= pos <= bytes.len(),
    ensures
        spec_sections(bytes, pos, count, blocktypes, chunk) matches Ok((_, next)) ==> pos <= next
            <= bytes.len(),
    decreases count,
{
    if count > 0 {
        lemma_items_bounds(bytes, pos, Some(spec_section_names()));
        if let Ok((entries, next)) = spec_compound_items(bytes, pos, Some(spec_section_names())) {
            if let Ok(after) = spec_apply_section(chunk, entries, blocktypes) {
                lemma_sections_bounds(bytes, next, count - 1, blocktypes, after);
            }
        }
    }
}

/// Seeking a child ends behind its start and inside the bytes.
pub proof fn lemma_seek_bounds(bytes: Seq<u8>, pos: int, names: Seq<Seq<char>>)
    ensures
        spec_seek(bytes, pos, names) matches Ok((_, next)) ==> pos < next <= bytes.len(),
    decreases bytes.len() - pos,
{
    if let Ok(((id, name), start)) = spec_tag_header(bytes, pos) {
        if id != 0 && id <= 12 && !names.contains(name) {
            if let Ok(next) = spec_skip_payload(bytes, start, id) {
                if pos < next <= bytes.len() {
                    lemma_seek_bounds(bytes, next, names);
                }
            }
        }
    }
}

/// Reading a child of a chunk's level ends behind its start and inside the
/// bytes.
pub proof fn lemma_level_child_bounds(
    bytes: Seq<u8>,
    start: int,
    id: u8,
    name: Seq<char>,
    blocktypes: Seq<BlockType>,
    chunk: ChunkModel,
)
    requires
        0 <= start <= bytes.len(),
    ensures
        spec_level_child(bytes, start, id, name, blocktypes, chunk) matches Ok(Some((_, next)))
            ==> start < next <= bytes.len(),
{
    reveal(spec_level_child);
    lemma_payload_bounds(bytes, start, id);
    if let Ok((count, first)) = spec_list_length(bytes, start) {
        lemma_sections_bounds(bytes, first, count, blocktypes, chunk);
    }
}

/// The children of a level from a child on are those from the place in
/// front of which only children of other names lie.
proof fn lemma_level_shift(
    bytes: Seq<u8>,
    from: int,
    to: int,
    blocktypes: Seq<BlockType>,
    chunk: ChunkModel,
    seen: bool,
)
    requires
        0 <= from <= to <= bytes.len(),
        spec_seek(bytes, from, spec_level_names()) == spec_seek(bytes, to, spec_level_names()),
    ensures
        spec_level(bytes, from, blocktypes, chunk, seen) == spec_level(
            bytes,
            to,
            blocktypes,
            chunk,
            seen,
        ),
{
    lemma_seek_bounds(bytes, to, spec_level_names());
    if let Ok((Some((id, name)), start)) = spec_seek(bytes, to, spec_level_names()) {
        lemma_level_child_bounds(bytes, start, id, name, blocktypes, chunk);
    }
}

/// What the decoding of a level comes to, seen from a seek for its list of
/// sections: where the seek fails, so does the decoding, and on malformed
/// data where the seek fails on malformed data; where the seek finds no list
/// and none has been read, the decoding gives no chunk or fails on malformed
/// data; where the seek finds a child that is no list, the decoding fails on
/// malformed data; where it finds a list whose length cannot be read, the
/// decoding fails; and where it finds an empty list, the decoding gives no
/// chunk or fails on malformed data.
pub proof fn lemma_level_vs_seek(
    bytes: Seq<u8>,
    pos: int,
    blocktypes: Seq<BlockType>,
    chunk: ChunkModel,
    seen: bool,
)
    requires
        0 <= pos <= bytes.len(),
    ensures
        match spec_seek(bytes, pos, seq!["Sections"@]) {
            Err(e) => spec_level(bytes, pos, blocktypes, chunk, seen) matches Err(e2) && (
            e.spec_is_format_error() ==> e2.spec_is_format_error()),
            Ok((None, _)) => !seen ==> spec_contain(
                spec_level(bytes, pos, blocktypes, chunk, seen),
            ) == Ok::<Option<ChunkModel>, NbtError>(None),
            Ok((Some((id, _)), at)) => {
                &&& id != 9 ==> (spec_level(bytes, pos, blocktypes, chunk, seen) matches Err(e2)
                    && e2.spec_is_format_error())
                &&& id == 9 ==> match spec_list_length(bytes, at) {
                    Err(_) => spec_level(bytes, pos, blocktypes, chunk, seen) is Err,
                    Ok((count, _)) => count == 0 ==> spec_contain(
                        spec_level(bytes, pos, blocktypes, chunk, seen),
                    ) == Ok::<Option<ChunkModel>, NbtError>(None),
                }
            },
        },
    decreases bytes.len() - pos,
{
    reveal_strlit("Sections");
    reveal_strlit("Biomes");
    reveal(spec_level_child);
    let one = seq!["Sections"@];
    let two = spec_level_names();
    assert(two[0] == "Sections"@ && two[1] == "Biomes"@);
    assert(one[0] == "Sections"@);
    assert("Sections"@.len() != "Biomes"@.len());
    if let Ok(((id, name), start)) = spec_tag_header(bytes, pos) {
        if id != 0 && id <= 12 {
            lemma_skip_bounds(bytes, start, id);
            lemma_payload_skip(bytes, start, id);
            if name == "Sections"@ {
                assert(one.contains(name));
                assert(two.contains(name));
            } else if name == "Biomes"@ {
                assert(two.contains(name));
                assert(!one.contains(name));
                if let Ok((tag, next)) = spec_tag_payload(bytes, start, id) {
                    lemma_level_vs_seek(
                        bytes,
                        next,
                        blocktypes,
                        spec_apply_biomes(chunk, tag),
                        seen,
                    );
                }
            } else {
                assert(!one.contains(name));
                assert(!two.contains(name));
                if let Ok(next) = spec_skip_payload(bytes, start, id) {
                    lemma_level_vs_seek(bytes, next, blocktypes, chunk, seen);
                    lemma_level_shift(bytes, pos, next, blocktypes, chunk, seen);
                }
            }
        }
    }
}

/// The scan of a chunk and its decoding agree: a chunk that the scan reports
/// absent decodes to none, and a chunk that decodes to data is one that the
/// scan reports present.
pub proof fn lemma_scan_agrees(bytes: Seq<u8>, pos: int, blocktypes: Seq<BlockType>)
    requires
        0 <= pos <= bytes.len(),
    ensures
        spec_contain(spec_scan_chunk(bytes, pos)) == Ok::<Option<()>, NbtError>(None)
            ==> spec_contain(spec_decode_chunk(bytes, pos, blocktypes)) == Ok::<
            Option<ChunkModel>,
            NbtError,
        >(None),
        spec_contain(spec_decode_chunk(bytes, pos, blocktypes)) matches Ok(Some(_))
            ==> spec_contain(spec_scan_chunk(bytes, pos)) == Ok::<Option<()>, NbtError>(Some(())),
{
    lemma_seek_bounds(bytes, pos, seq!["Level"@]);
    if let Ok((Some((id, _)), start)) = spec_seek(bytes, pos, seq!["Level"@]) {
        if id == 10 {
            lemma_level_vs_seek(bytes, start, blocktypes, spec_empty_chunk(), false);
        }
    }
}

/// The scan of a region file and its decoding agree on each cell: where the
/// scan reports the cell's chunk absent the decoder gives none, and where
/// the decoder gives a chunk the scan reports it present.
pub proof fn lemma_file_scan_agrees(file: Seq<u8>, cx: int, cz: int, blocktypes: Seq<BlockType>)
    ensures
        spec_chunk_present(file, cx, cz) == Ok::<bool, NbtError>(false) ==> spec_chunk_model(
            file,
            cx,
            cz,
            blocktypes,
        ) == Ok::<Option<ChunkModel>, NbtError>(None),
        spec_cell_has_chunk(file, cx, cz, blocktypes) ==> spec_chunk_present(file, cx, cz) == Ok::<
            bool,
            NbtError,
        >(true),
{
    reveal(spec_chunk_present);
    reveal(spec_chunk_model);
    if let Ok(Some((bytes, pos))) = spec_contain(spec_chunk_bytes(file, cx, cz)) {
        assert(0 <= pos <= bytes.len());
        lemma_scan_agrees(bytes, pos, blocktypes);
    }
}

/// A cell of a region file whose entry in the table of offsets names no
/// sector holds no chunk, for the scan and for the decoder, and is no error.
pub proof fn lemma_absent_cell(file: Seq<u8>, cx: int, cz: int, blocktypes: Seq<BlockType>)
    requires
        spec_read_u32(file, (cz * 32 + cx) * 4) matches Ok((entry, _)) && entry >> 8 == 0,
    ensures
        spec_chunk_present(file, cx, cz) == Ok::<bool, NbtError>(false),
        spec_chunk_model(file, cx, cz, blocktypes) == Ok::<Option<ChunkModel>, NbtError>(None),
        !spec_cell_has_chunk(file, cx, cz, blocktypes),
{
    reveal(spec_chunk_present);
    reveal(spec_chunk_model);
}

/// Sections that are read into a chunk of blocks of the table leave a chunk
/// of blocks of the table.
pub proof fn lemma_sections_known(
    bytes: Seq<u8>,
    pos: int,
    count: int,
    blocktypes: Seq<BlockType>,
    chunk: ChunkModel,
)
    requires
        spec_blocks_known(chunk.blocks, blocktypes.len() as int),
        spec_sections(bytes, pos, count, blocktypes, chunk) is Ok,
    ensures
        spec_blocks_known(
            spec_sections(bytes, pos, count, blocktypes, chunk)->Ok_0.0.blocks,
            blocktypes.len() as int,
        ),
    decreases count,
{
    if count > 0 {
        if let Ok((entries, next)) = spec_compound_items(bytes, pos, Some(spec_section_names())) {
            if let Ok(after) = spec_apply_section(chunk, entries, blocktypes) {
                lemma_section_known(chunk, entries, blocktypes);
                lemma_sections_known(bytes, next, count - 1, blocktypes, after);
            }
        }
    }
}

/// The children of a level that are read into a chunk of blocks of the table
/// leave a chunk of blocks of the table.
pub proof fn lemma_level_known(
    bytes: Seq<u8>,
    pos: int,
    blocktypes: Seq<BlockType>,
    chunk: ChunkModel,
    seen: bool,
)
    requires
        spec_blocks_known(chunk.blocks, blocktypes.len() as int),
    ensures
        spec_level(bytes, pos, blocktypes, chunk, seen) matches Ok(Some(model))
            ==> spec_blocks_known(model.blocks, blocktypes.len() as int),
    decreases bytes.len() - pos,
{
    reveal(spec_level_child);
    reveal(spec_apply_biomes);
    if let Ok((Some((id, name)), start)) = spec_seek(bytes, pos, spec_level_names()) {
        if let Ok(Some((after, next))) = spec_level_child(bytes, start, id, name, blocktypes, chunk) {
            if pos < next <= bytes.len() {
                if name == "Sections"@ {
                    if let Ok((count, first)) = spec_list_length(bytes, start) {
                        lemma_sections_known(bytes, first, count, blocktypes, chunk);
                    }
                }
                lemma_level_known(bytes, next, blocktypes, after, seen || name == "Sections"@);
            }
        }
    }
}

/// Every block of a decoded chunk is air or a block type of the table that
/// it was decoded with.
pub proof fn lemma_decoded_blocks_known(bytes: Seq<u8>, pos: int, blocktypes: Seq<BlockType>)
    ensures
        spec_decode_chunk(bytes, pos, blocktypes) matches Ok(Some(model)) ==> spec_blocks_known(
            model.blocks,
            blocktypes.len() as int,
        ),
{
    if let Ok((Some((id, _)), start)) = spec_seek(bytes, pos, seq!["Level"@]) {
        if id == 10 {
            lemma_level_known(bytes, start, blocktypes, spec_empty_chunk(), false);
        }
    }
}

/// Where the children of a compound can be read, whichever of them are
/// asked for, the compound can be passed over, up to the same place.
pub proof fn lemma_items_skip(bytes: Seq<u8>, pos: int, wanted: Option<Seq<Seq<char>>>)
    ensures
        spec_compound_items(bytes, pos, wanted) matches Ok((_, next)) ==> spec_skip_compound(
            bytes,
            pos,
        ) == Ok::<int, NbtError>(next),
    decreases bytes.len() - pos,
{
    if let Ok(((id, name), start)) = spec_tag_header(bytes, pos) {
        if id != 0 && pos < start <= bytes.len() {
            lemma_payload_skip(bytes, start, id);
            lemma_skip_bounds(bytes, start, id);
            if let Ok(next) = spec_skip_payload(bytes, start, id) {
                lemma_items_skip(bytes, next, wanted);
            }
        }
    }
}

/// Where a row of sections can be read, it can be passed over as a row of
/// compounds, up to the same place.
pub proof fn lemma_sections_skip(
    bytes: Seq<u8>,
    pos: int,
    count: int,
    blocktypes: Seq<BlockType>,
    chunk: ChunkModel,
)
    requires
        0 <= pos <= bytes.len(),
    ensures
        spec_sections(bytes, pos, count, blocktypes, chunk) matches Ok((_, next))
            ==> spec_skip_list(bytes, pos, 10, count) == Ok::<int, NbtError>(next),
    decreases count,
{
    if count > 0 {
        lemma_items_skip(bytes, pos, Some(spec_section_names()));
        lemma_items_bounds(bytes, pos, Some(spec_section_names()));
        assert(spec_skip_payload(bytes, pos, 10) == spec_skip_compound(bytes, pos));
        if let Ok((entries, next)) = spec_compound_items(bytes, pos, Some(spec_section_names())) {
            if let Ok(after) = spec_apply_section(chunk, entries, blocktypes) {
                lemma_sections_skip(bytes, next, count - 1, blocktypes, after);
            }
        }
    }
}

/// Whether every list of sections among the children of a level, from
/// `pos` on, is a list of compounds that is not empty.
pub open spec fn spec_section_lists_full(bytes: Seq<u8>, pos: int) -> bool
    decreases bytes.len() - pos,
{
    match spec_seek(bytes, pos, seq!["Sections"@]) {
        Ok((Some((id, _)), at)) => {
            &&& id == 9
            &&& spec_read_u8(bytes, at) == Ok::<(u8, int), NbtError>((10u8, at + 1))
            &&& spec_list_length(bytes, at) is Ok
            &&& spec_list_length(bytes, at)->Ok_0.0 > 0
            &&& match spec_skip_payload(bytes, at, 9) {
                Ok(after) => pos < after <= bytes.len() && spec_section_lists_full(bytes, after),
                Err(_) => true,
            }
        },
        _ => true,
    }
}

/// What holds of the lists of sections from a child on holds of them from
/// the place in front of which only children of other names lie.
proof fn lemma_section_lists_shift(bytes: Seq<u8>, from: int, to: int)
    requires
        0 <= from <= to <= bytes.len(),
        spec_seek(bytes, from, seq!["Sections"@]) == spec_seek(bytes, to, seq!["Sections"@]),
        spec_section_lists_full(bytes, from),
    ensures
        spec_section_lists_full(bytes, to),
{
    lemma_seek_bounds(bytes, to, seq!["Sections"@]);
    if let Ok((Some((id, _)), at)) = spec_seek(bytes, to, seq!["Sections"@]) {
        lemma_skip_bounds(bytes, at, 9);
    }
}

/// A list of sections that is not empty, with only such lists behind it,
/// decodes with what follows it to a chunk, where it decodes.
proof fn lemma_level_at_sections(
    bytes: Seq<u8>,
    pos: int,
    start: int,
    blocktypes: Seq<BlockType>,
    chunk: ChunkModel,
    seen: bool,
)
    requires
        0 <= pos < start <= bytes.len(),
        spec_seek(bytes, pos, spec_level_names()) == Ok::<
            (Option<(u8, Seq<char>)>, int),
            NbtError,
        >((Some((9u8, "Sections"@)), start)),
        spec_read_u8(bytes, start) == Ok::<(u8, int), NbtError>((10u8, start + 1)),
        spec_list_length(bytes, start) matches Ok((count, _)) && count > 0,
        match spec_skip_payload(bytes, start, 9) {
            Ok(after) => pos < after <= bytes.len() && spec_section_lists_full(bytes, after),
            Err(_) => true,
        },
        forall|next: int, after: ChunkModel|
            pos < next <= bytes.len() && spec_section_lists_full(bytes, next) ==> (
            #[trigger] spec_level(bytes, next, blocktypes, after, true) matches Ok(found)
                ==> found is Some),
    ensures
        spec_level(bytes, pos, blocktypes, chunk, seen) matches Ok(found) ==> found is Some,
{
    reveal(spec_level_child);
    if let Ok((count, first)) = spec_list_length(bytes, start) {
        lemma_sections_skip(bytes, first, count, blocktypes, chunk);
        lemma_sections_bounds(bytes, first, count, blocktypes, chunk);
        if let Ok((after, next)) = spec_sections(bytes, first, count, blocktypes, chunk) {
            assert(spec_skip_payload(bytes, start, 9) == Ok::<int, NbtError>(next));
            assert(spec_level(bytes, pos, blocktypes, chunk, seen) == spec_level(
                bytes,
                next,
                blocktypes,
                after,
                true,
            ));
        }
    }
}

/// Children of a level whose lists of sections are lists of compounds that
/// are not empty decode to a chunk, where they decode and a list of sections
/// has been read or is still to come.
pub proof fn lemma_level_with_sections(
    bytes: Seq<u8>,
    pos: int,
    blocktypes: Seq<BlockType>,
    chunk: ChunkModel,
    seen: bool,
)
    requires
        0 <= pos <= bytes.len(),
        spec_section_lists_full(bytes, pos),
        seen || spec_seek(bytes, pos, seq!["Sections"@]) matches Ok((Some(_), _)),
    ensures
        spec_level(bytes, pos, blocktypes, chunk, seen) matches Ok(found) ==> found is Some,
    decreases bytes.len() - pos,
{
    reveal_strlit("Sections");
    reveal_strlit("Biomes");
    let one = seq!["Sections"@];
    let two = spec_level_names();
    assert(two[0] == "Sections"@ && two[1] == "Biomes"@);
    assert(one[0] == "Sections"@);
    assert("Sections"@.len() != "Biomes"@.len());
    if let Ok(((id, name), start)) = spec_tag_header(bytes, pos) {
        if id != 0 && id <= 12 {
            if name == "Sections"@ {
                assert(one.contains(name));
                assert(two.contains(name));
                assert forall|next: int, after: ChunkModel|
                    pos < next <= bytes.len() && spec_section_lists_full(bytes, next) implies (
                #[trigger] spec_level(bytes, next, blocktypes, after, true) matches Ok(found)
                    ==> found is Some) by {
                    lemma_level_with_sections(bytes, next, blocktypes, after, true);
                }
                lemma_level_at_sections(bytes, pos, start, blocktypes, chunk, seen);
            } else {
                lemma_skip_bounds(bytes, start, id);
                if name == "Biomes"@ {
                    assert(two.contains(name));
                    assert(!one.contains(name));
                    lemma_payload_skip(bytes, start, id);
                    assert(spec_level(bytes, pos, blocktypes, chunk, seen) matches Ok(found)
                        ==> found is Some) by {
                        reveal(spec_level_child);
                        if let Ok((tag, next)) = spec_tag_payload(bytes, start, id) {
                            lemma_section_lists_shift(bytes, pos, next);
                            lemma_level_with_sections(
                                bytes,
                                next,
                                blocktypes,
                                spec_apply_biomes(chunk, tag),
                                seen,
                            );
                        }
                    }
                } else {
                    assert(!one.contains(name));
                    assert(!two.contains(name));
                    if let Ok(next) = spec_skip_payload(bytes, start, id) {
                        lemma_section_lists_shift(bytes, pos, next);
                        lemma_level_with_sections(bytes, next, blocktypes, chunk, seen);
                        lemma_level_shift(bytes, pos, next, blocktypes, chunk, seen);
                    }
                }
            }
        }
    }
}

/// A chunk that the scan reports present decodes to data, where its data
/// decodes at all and each list of sections of its level is a list of
/// compounds that is not empty.
pub proof fn lemma_full_lists_decode(bytes: Seq<u8>, pos: int, blocktypes: Seq<BlockType>)
    requires
        0 <= pos <= bytes.len(),
        spec_scan_chunk(bytes, pos) == Ok::<Option<()>, NbtError>(Some(())),
        spec_seek(bytes, pos, seq!["Level"@]) matches Ok((Some(_), start))
            ==> spec_section_lists_full(bytes, start),
    ensures
        spec_decode_chunk(bytes, pos, blocktypes) matches Ok(found) ==> found is Some,
{
    lemma_seek_bounds(bytes, pos, seq!["Level"@]);
    if let Ok((Some((id, _)), start)) = spec_seek(bytes, pos, seq!["Level"@]) {
        lemma_level_with_sections(bytes, start, blocktypes, spec_empty_chunk(), false);
    }
}

/// Whether the decoder, reading the children of a level from `pos` on into
/// `chunk`, meets an empty list of sections.
pub open spec fn spec_meets_empty_list(
    bytes: Seq<u8>,
    pos: int,
    blocktypes: Seq<BlockType>,
    chunk: ChunkModel,
) -> bool
    decreases bytes.len() - pos,
{
    match spec_level_step(bytes, pos, blocktypes, chunk) {
        Ok(Some(None)) => true,
        Ok(Some(Some((after, next, _)))) => pos < next <= bytes.len() && spec_meets_empty_list(
            bytes,
            next,
            blocktypes,
            after,
        ),
        _ => false,
    }
}

/// Behind a list of sections that has been read, the children of a level
/// give no chunk only where the decoder meets an empty list of sections.
pub proof fn lemma_level_behind_sections(
    bytes: Seq<u8>,
    pos: int,
    blocktypes: Seq<BlockType>,
    chunk: ChunkModel,
)
    ensures
        spec_level(bytes, pos, blocktypes, chunk, true) == Ok::<Option<ChunkModel>, NbtError>(None)
            ==> spec_meets_empty_list(bytes, pos, blocktypes, chunk),
    decreases bytes.len() - pos,
{
    if let Ok(Some(Some((after, next, _)))) = spec_level_step(bytes, pos, blocktypes, chunk) {
        if pos < next <= bytes.len() {
            lemma_level_behind_sections(bytes, next, blocktypes, after);
        }
    }
}

/// Where a seek finds a list of sections that is not empty, the children of
/// a level give no chunk only where the decoder meets an empty list of
/// sections.
pub proof fn lemma_level_in_front_of_sections(
    bytes: Seq<u8>,
    pos: int,
    blocktypes: Seq<BlockType>,
    chunk: ChunkModel,
    seen: bool,
)
    requires
        0 <= pos <= bytes.len(),
        spec_seek(bytes, pos, seq!["Sections"@]) matches Ok((Some((id, _)), at)) && id == 9
            && spec_list_length(bytes, at) is Ok && spec_list_length(bytes, at)->Ok_0.0 > 0,
    ensures
        spec_level(bytes, pos, blocktypes, chunk, seen) == Ok::<Option<ChunkModel>, NbtError>(None)
            ==> spec_meets_empty_list(bytes, pos, blocktypes, chunk),
    decreases bytes.len() - pos,
{
    reveal_strlit("Sections");
    reveal_strlit("Biomes");
    reveal(spec_level_child);
    let one = seq!["Sections"@];
    let two = spec_level_names();
    assert(two[0] == "Sections"@ && two[1] == "Biomes"@);
    assert(one[0] == "Sections"@);
    assert("Sections"@.len() != "Biomes"@.len());
    if let Ok(((id, name), start)) = spec_tag_header(bytes, pos) {
        if id != 0 && id <= 12 {
            lemma_skip_bounds(bytes, start, id);
            lemma_payload_skip(bytes, start, id);
            if name == "Sections"@ {
                assert(one.contains(name));
                assert(two.contains(name));
                if let Ok(Some(Some((after, next, _)))) = spec_level_step(
                    bytes,
                    pos,
                    blocktypes,
                    chunk,
                ) {
                    lemma_level_behind_sections(bytes, next, blocktypes, after);
                }
            } else if name == "Biomes"@ {
                assert(two.contains(name));
                assert(!one.contains(name));
                if let Ok((tag, next)) = spec_tag_payload(bytes, start, id) {
                    lemma_level_in_front_of_sections(
                        bytes,
                        next,
                        blocktypes,
                        spec_apply_biomes(chunk, tag),
                        seen,
                    );
                }
            } else {
                assert(!one.contains(name));
                assert(!two.contains(name));
                if let Ok(next) = spec_skip_payload(bytes, start, id) {
                    lemma_level_in_front_of_sections(bytes, next, blocktypes, chunk, seen);
                    lemma_level_shift(bytes, pos, next, blocktypes, chunk, seen);
                    lemma_seek_bounds(bytes, next, two);
                }
            }
        }
    }
}

/// Whether the decoder, reading the level of a chunk whose root tag's
/// children start at `pos`, meets an empty list of sections.
pub open spec fn spec_chunk_meets_empty_list(
    bytes: Seq<u8>,
    pos: int,
    blocktypes: Seq<BlockType>,
) -> bool {
    match spec_seek(bytes, pos, seq!["Level"@]) {
        Ok((Some(_), start)) => spec_meets_empty_list(bytes, start, blocktypes, spec_empty_chunk()),
        _ => false,
    }
}

/// A chunk that the scan reports present decodes to data, unless its data
/// is malformed or ends early, or the decoder meets an empty list of
/// sections behind the list that the scan found.
pub proof fn lemma_present_decodes(bytes: Seq<u8>, pos: int, blocktypes: Seq<BlockType>)
    requires
        0 <= pos <= bytes.len(),
        spec_scan_chunk(bytes, pos) == Ok::<Option<()>, NbtError>(Some(())),
    ensures
        spec_decode_chunk(bytes, pos, blocktypes) matches Ok(Some(_)) || spec_decode_chunk(
            bytes,
            pos,
            blocktypes,
        ) is Err || spec_chunk_meets_empty_list(bytes, pos, blocktypes),
{
    lemma_seek_bounds(bytes, pos, seq!["Level"@]);
    if let Ok((Some((id, _)), start)) = spec_seek(bytes, pos, seq!["Level"@]) {
        lemma_level_in_front_of_sections(bytes, start, blocktypes, spec_empty_chunk(), false);
    }
}

/// Whether the children of a root tag, from `pos` on, are those of a chunk
/// whose level holds one list of sections with one section, of the children
/// `entries`, and no biomes: the level starts at `start`, the list at `at`,
/// and the section ends at `next`.
pub open spec fn spec_chunk_of_one_section(
    bytes: Seq<u8>,
    pos: int,
    start: int,
    at: int,
    next: int,
    entries: Seq<(Seq<char>, TagTree)>,
) -> bool {
    &&& spec_seek(bytes, pos, seq!["Level"@]) == Ok::<(Option<(u8, Seq<char>)>, int), NbtError>(
        (Some((10u8, "Level"@)), start),
    )
    &&& spec_seek(bytes, start, spec_level_names()) == Ok::<
        (Option<(u8, Seq<char>)>, int),
        NbtError,
    >((Some((9u8, "Sections"@)), at))
    &&& spec_list_length(bytes, at) is Ok
    &&& spec_list_length(bytes, at)->Ok_0.0 == 1
    &&& spec_compound_items(bytes, spec_list_length(bytes, at)->Ok_0.1, Some(spec_section_names()))
        == Ok::<(Seq<(Seq<char>, TagTree)>, int), NbtError>((entries, next))
    &&& start < next <= bytes.len()
    &&& spec_seek(bytes, next, spec_level_names()) matches Ok((None, _))
}

/// A chunk whose level holds one section decodes to what that section makes
/// of a chunk of air without light, and fails where the section does.
pub proof fn lemma_chunk_of_one_section(
    bytes: Seq<u8>,
    pos: int,
    start: int,
    at: int,
    next: int,
    entries: Seq<(Seq<char>, TagTree)>,
    blocktypes: Seq<BlockType>,
)
    requires
        spec_chunk_of_one_section(bytes, pos, start, at, next, entries),
    ensures
        match spec_apply_section(spec_empty_chunk(), entries, blocktypes) {
            Ok(model) => spec_decode_chunk(bytes, pos, blocktypes) == Ok::<
                Option<ChunkModel>,
                NbtError,
            >(Some(model)),
            Err(e) => spec_decode_chunk(bytes, pos, blocktypes) == Err::<
                Option<ChunkModel>,
                NbtError,
            >(e),
        },
{
    reveal(spec_level_child);
    reveal_with_fuel(spec_sections, 3);
    let first = spec_list_length(bytes, at)->Ok_0.1;
    let air = spec_empty_chunk();
    match spec_apply_section(air, entries, blocktypes) {
        Ok(model) => {
            assert(spec_sections(bytes, first, 1, blocktypes, air) == Ok::<
                (ChunkModel, int),
                NbtError,
            >((model, next)));
            assert(spec_level(bytes, next, blocktypes, model, true) == Ok::<
                Option<ChunkModel>,
                NbtError,
            >(Some(model)));
            assert(spec_level(bytes, start, blocktypes, air, false) == spec_level(
                bytes,
                next,
                blocktypes,
                model,
                true,
            ));
        },
        Err(e) => {
            assert(spec_sections(bytes, first, 1, blocktypes, air) == Err::<
                (ChunkModel, int),
                NbtError,
            >(e));
        },
    }
}

/// What was packed into a chunk comes out of it. A chunk whose level holds
/// one section, at a height inside the world, with palette indices packed
/// with any width from 1 to 16 bits and with both light arrays, decodes: each
/// voxel of the section gets the block type that the palette has at the
/// voxel's index and the two light levels that the arrays hold for it, and
/// the rest of the chunk is air without light.
pub proof fn lemma_chunk_round_trip(
    bytes: Seq<u8>,
    pos: int,
    start: int,
    at: int,
    next: int,
    entries: Seq<(Seq<char>, TagTree)>,
    blocktypes: Seq<BlockType>,
    y: u8,
    palette: Seq<TagTree>,
    pblocks: Seq<u16>,
    indices: Seq<u16>,
    bits: int,
    sky: Seq<u8>,
    block: Seq<u8>,
)
    requires
        spec_chunk_of_one_section(bytes, pos, start, at, next, entries),
        y <= MAX_SECTION_IN_CHUNK_Y,
        spec_is_section(entries, y, palette, indices, bits, sky, block),
        spec_palette(palette, blocktypes, palette.len() as int) == Ok::<Seq<u16>, NbtError>(pblocks),
        1 <= bits <= 16,
        indices.len() == BLOCKS_IN_SECTION_3D,
        forall|voxel: int|
            0 <= voxel < BLOCKS_IN_SECTION_3D ==> spec_index_fits(#[trigger] indices[voxel], bits)
                && indices[voxel] < pblocks.len(),
        sky.len() >= BLOCKS_IN_SECTION_3D / 2,
        block.len() >= BLOCKS_IN_SECTION_3D / 2,
    ensures
        spec_decode_chunk(bytes, pos, blocktypes) matches Ok(Some(model)) && (forall|i: int|
            #![trigger model.blocks[i]]
            #![trigger model.lights[i]]
            0 <= i < 65536 ==> if y * 4096 <= i < y * 4096 + 4096 {
                &&& model.blocks[i] == pblocks[indices[i - y * 4096] as int]
                &&& spec_skylight(model.lights[i]) == spec_light_nibble(Some(sky), 15, i - y * 4096)
                &&& spec_blocklight(model.lights[i]) == spec_light_nibble(
                    Some(block),
                    0,
                    i - y * 4096,
                )
            } else {
                model.blocks[i] == 0 && model.lights[i] == 0
            }),
{
    lemma_chunk_of_one_section(bytes, pos, start, at, next, entries, blocktypes);
    lemma_section_decodes(
        spec_empty_chunk(),
        entries,
        blocktypes,
        y,
        palette,
        pblocks,
        indices,
        bits,
        sky,
        block,
    );
}

} // verus!
