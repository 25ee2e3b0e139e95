use bitreader::BitReader;
use vstd::prelude::*;

use crate::sizes::BLOCKS_IN_SECTION_3D;

verus! {

/// Bit `i` of `bytes`, counted from the highest bit of the first byte.
pub open spec fn spec_stream_bit(bytes: Seq<u8>, i: int) -> u64 {
    ((bytes[i / 8] >> ((7 - i % 8) as u8)) as u64) & 1
}

/// The number that the `count` bits from bit `pos` on hold, the highest bit
/// first.
pub open spec fn spec_bits_value(bytes: Seq<u8>, pos: int, count: int) -> u64
    decreases count,
{
    if count <= 0 {
        0
    } else {
        (spec_bits_value(bytes, pos, count - 1) << 1) | spec_stream_bit(bytes, pos + count - 1)
    }
}

/// Byte `b` of `long`, counted from its highest byte.
pub open spec fn spec_long_byte(long: u64, b: int) -> u8 {
    ((long >> (((7 - b) * 8) as u64)) & 0xff) as u8
}

/// The bytes of `states`: the longs from the last to the first, each with
/// its highest byte first.
pub open spec fn spec_state_bytes(states: Seq<u64>) -> Seq<u8> {
    Seq::new(
        states.len() * 8,
        |k: int| spec_long_byte(states[states.len() - 1 - k / 8], k % 8),
    )
}

/// How many bits of `states` stand for one voxel of a section.
pub open spec fn spec_state_bits(states: Seq<u64>) -> int {
    states.len() as int / 64
}

/// The palette index of voxel `voxel` of a section: the voxels are read from
/// the last to the first, each as a number of `spec_state_bits` bits.
pub open spec fn spec_state_index(states: Seq<u64>, voxel: int) -> u64 {
    spec_bits_value(
        spec_state_bytes(states),
        (BLOCKS_IN_SECTION_3D - 1 - voxel) * spec_state_bits(states),
        spec_state_bits(states),
    )
}

/// The palette indices of the 4096 voxels of a section.
pub open spec fn spec_unpack(states: Seq<u64>) -> Seq<u16> {
    Seq::new(BLOCKS_IN_SECTION_3D as nat, |voxel: int| #[verifier::truncate] (spec_state_index(states, voxel) as u16))
}

/// Whether `count` bits from bit `pos` on can be read as one number of at
/// most 16 bits: no bits always can.
pub open spec fn spec_bits_in_reach(bytes: Seq<u8>, pos: int, count: int) -> bool {
    count <= 16 && (count == 0 || pos + count <= bytes.len() * 8)
}

/// `BitReader::new`, `skip` and `read_u16` of the crate bitreader: the
/// number held by the `bit_count` bits of `bytes` from bit `position` on, the
/// highest bit first; 0 for no bits; nothing for more than 16 bits or for
/// bits beyond the end.
#[verifier::external_body]
fn read_bits_at(bytes: &[u8], position: u64, bit_count: u8) -> (r: Option<u16>)
    requires
        bytes@.len() <= 0x0fff_ffff_ffff_ffff,
        position <= bytes@.len() * 8,
    ensures
        r is Some <==> spec_bits_in_reach(bytes@, position as int, bit_count as int),
        r matches Some(v) ==> v == spec_bits_value(bytes@, position as int, bit_count as int),
{
    let mut reader = BitReader::new(bytes);
    match reader.skip(position) {
        Ok(()) => match reader.read_u16(bit_count) {
            Ok(v) => Some(v),
            Err(_) => None,
        },
        Err(_) => None,
    }
}

/// A number of at most 16 bits fits in 16 bits.
proof fn lemma_bits_value_bound(bytes: Seq<u8>, pos: int, count: int)
    requires
        count <= 16,
    ensures
        spec_bits_value(bytes, pos, count) <= 0xffff,
        count <= 0 ==> spec_bits_value(bytes, pos, count) == 0,
        count > 0 ==> spec_bits_value(bytes, pos, count) >> (count as u64) == 0,
    decreases count,
{
    if count > 0 {
        lemma_bits_value_bound(bytes, pos, count - 1);
        let prev = spec_bits_value(bytes, pos, count - 1);
        let bit = spec_stream_bit(bytes, pos + count - 1);
        let c = count as u64;
        let b = bytes[(pos + count - 1) / 8] >> ((7 - (pos + count - 1) % 8) as u8);
        assert((b as u64) & 1 <= 1) by (bit_vector);
        if count == 1 {
            assert(((0u64 << 1) | bit) >> 1 == 0) by (bit_vector)
                requires
                    bit <= 1,
            ;
            assert(((0u64 << 1) | bit) <= 0xffff) by (bit_vector)
                requires
                    bit <= 1,
            ;
        } else {
            assert(((prev << 1) | bit) >> c == 0 && ((prev << 1) | bit) <= 0xffff) by (bit_vector)
                requires
                    bit <= 1,
                    2 <= c <= 16,
                    prev >> ((c - 1) as u64) == 0,
            ;
        }
    }
}

/// The bytes of `states`, the longs from the last to the first.
fn state_bytes(states: &Vec<u64>) -> (bytes: Vec<u8>)
    requires
        states.len() <= 0x0fff_ffff,
    ensures
        bytes@ == spec_state_bytes(states@),
{
    let len: usize = states.len();
    let mut bytes: Vec<u8> = Vec::new();
    let mut i: usize = 0;
    while i < len
        invariant
            len == states.len(),
            len <= 0x0fff_ffff,
            i <= len,
            bytes.len() == i * 8,
            forall|k: int|
                0 <= k < i * 8 ==> bytes[k] == spec_long_byte(
                    #[trigger] states[len - 1 - k / 8],
                    k % 8,
                ),
        decreases len - i,
    {
        let long: u64 = states[len - i - 1];
        let mut b: usize = 0;
        while b < 8
            invariant
                len == states.len(),
                len <= 0x0fff_ffff,
                i < len,
                b <= 8,
                long == states[len - i - 1],
                bytes.len() == i * 8 + b,
                forall|k: int|
                    0 <= k < i * 8 + b ==> bytes[k] == spec_long_byte(
                        #[trigger] states[len - 1 - k / 8],
                        k % 8,
                    ),
            decreases 8 - b,
        {
            let shift: u64 = ((7 - b) * 8) as u64;
            let v: u64 = (long >> shift) & 0xff;
            assert((long >> shift) & 0xff <= 0xff) by (bit_vector);
            bytes.push(v as u8);
            b = b + 1;
        }
        i = i + 1;
    }
    assert(bytes@ =~= spec_state_bytes(states@));
    bytes
}

/// Unpacks the block states of a section: the palette index of each of its
/// 4096 voxels, of `states.len() / 64` bits each. The longs are taken from the
/// last to the first and the voxels come out from the last to the first.
/// Nothing where an index would have more than 16 bits.
pub fn unpack_block_states(states: &Vec<u64>) -> (r: Option<Vec<u16>>)
    ensures
        r is Some <==> spec_state_bits(states@) <= 16,
        r matches Some(indices) ==> indices@ == spec_unpack(states@),
{
    let len: usize = states.len();
    if len / 64 > 16 {
        return None;
    }
    let bits: u8 = (len / 64) as u8;
    let bytes: Vec<u8> = state_bytes(states);
    let mut indices: Vec<u16> = Vec::new();
    let mut n: usize = 0;
    while n < BLOCKS_IN_SECTION_3D
        invariant
            n <= BLOCKS_IN_SECTION_3D,
            indices.len() == n,
        decreases BLOCKS_IN_SECTION_3D - n,
    {
        indices.push(0);
        n = n + 1;
    }
    let mut i: usize = 0;
    while i < BLOCKS_IN_SECTION_3D
        invariant
            i <= BLOCKS_IN_SECTION_3D,
            indices.len() == BLOCKS_IN_SECTION_3D,
            len == states.len(),
            bits == len / 64,
            bits <= 16,
            bytes@ == spec_state_bytes(states@),
            forall|voxel: int|
                BLOCKS_IN_SECTION_3D - i <= voxel < BLOCKS_IN_SECTION_3D ==> indices[voxel]
                    == spec_unpack(states@)[voxel],
        decreases BLOCKS_IN_SECTION_3D - i,
    {
        let voxel: usize = BLOCKS_IN_SECTION_3D - 1 - i;
        assert(64 * bits <= len);
        assert(i * bits + bits <= 4096 * bits && i * bits <= 4096 * 16) by (nonlinear_arith)
            requires
                i < 4096,
                0 <= bits <= 16,
        ;
        let position: u64 = (i as u64) * (bits as u64);
        proof {
            lemma_bits_value_bound(bytes@, position as int, bits as int);
        }
        let v: Option<u16> = read_bits_at(bytes.as_slice(), position, bits);
        indices.set(voxel, v.unwrap());
        i = i + 1;
    }
    assert(indices@ =~= spec_unpack(states@));
    Some(indices)
}

/// Whether a palette index can be written in `bits` bits.
pub open spec fn spec_index_fits(index: u16, bits: int) -> bool {
    (index as u64) >> (bits as u64) == 0
}

/// Bit `g` of the packed block states of a section, counted from the lowest
/// bit of the first long: the voxels follow each other from the first, each
/// with its lowest bit first.
pub open spec fn spec_packed_bit(indices: Seq<u16>, bits: int, g: int) -> u64 {
    ((indices[g / bits] as u64) >> ((g % bits) as u64)) & 1
}

/// The lowest `count` bits of long `k` of the packed block states of a
/// section.
pub open spec fn spec_packed_long(indices: Seq<u16>, bits: int, k: int, count: int) -> u64
    decreases count,
{
    if count <= 0 {
        0
    } else {
        spec_packed_long(indices, bits, k, count - 1) | (spec_packed_bit(
            indices,
            bits,
            64 * k + count - 1,
        ) << ((count - 1) as u64))
    }
}

/// The block states of a section whose voxels have the palette indices
/// `indices`, of `bits` bits each.
pub open spec fn spec_pack(indices: Seq<u16>, bits: int) -> Seq<u64> {
    Seq::new((64 * bits) as nat, |k: int| spec_packed_long(indices, bits, k, 64))
}

/// Each of the lowest bits of a packed long is the bit of the stream in its
/// place, and the bits above them are clear.
proof fn lemma_packed_long_bits(indices: Seq<u16>, bits: int, k: int, count: int, q: int)
    requires
        0 <= q < count <= 64,
    ensures
        (spec_packed_long(indices, bits, k, count) >> (q as u64)) & 1 == spec_packed_bit(
            indices,
            bits,
            64 * k + q,
        ),
        count < 64 ==> spec_packed_long(indices, bits, k, count) >> (count as u64) == 0,
    decreases count,
{
    let prev = spec_packed_long(indices, bits, k, count - 1);
    let bit = spec_packed_bit(indices, bits, 64 * k + count - 1);
    let x = (indices[(64 * k + count - 1) / bits] as u64) >> (((64 * k + count - 1) % bits) as u64);
    assert(x & 1 <= 1) by (bit_vector);
    let s = (count - 1) as u64;
    let c = count as u64;
    let qq = q as u64;
    if count == 1 {
        assert(prev == 0);
        assert(((0u64 | (bit << 0u64)) >> 0u64) & 1 == bit) by (bit_vector)
            requires
                bit <= 1,
        ;
        assert((0u64 | (bit << 0u64)) >> 1u64 == 0) by (bit_vector)
            requires
                bit <= 1,
        ;
    } else {
        lemma_packed_long_bits(indices, bits, k, count - 1, 0);
        if q < count - 1 {
            lemma_packed_long_bits(indices, bits, k, count - 1, q);
            assert(((prev | (bit << s)) >> qq) & 1 == (prev >> qq) & 1) by (bit_vector)
                requires
                    qq < s,
                    s < 64,
            ;
        } else {
            assert(((prev | (bit << s)) >> qq) & 1 == bit) by (bit_vector)
                requires
                    qq == s,
                    s < 64,
                    bit <= 1,
                    prev >> s == 0,
            ;
        }
        if count < 64 {
            assert((prev | (bit << s)) >> c == 0) by (bit_vector)
                requires
                    c == s + 1,
                    c < 64,
                    bit <= 1,
                    prev >> s == 0,
            ;
        }
    }
}

/// A bit of the byte stream of block states is a bit of one of the longs:
/// the stream runs from the highest bit of the last long to the lowest bit of
/// the first.
proof fn lemma_stream_bit(states: Seq<u64>, p: int)
    requires
        0 <= p < 64 * states.len(),
    ensures
        spec_stream_bit(spec_state_bytes(states), p) == (states[states.len() - 1 - p / 64] >> ((63
            - p % 64) as u64)) & 1,
{
    let bytes = spec_state_bytes(states);
    let k = p / 8;
    let long = states[states.len() - 1 - k / 8];
    assert(bytes[k] == spec_long_byte(long, k % 8));
    let a = (7 - k % 8) as u64;
    let c = (7 - p % 8) as u8;
    let byte = spec_long_byte(long, k % 8);
    assert(byte == ((long >> ((a * 8) as u64)) & 0xff) as u8);
    let sh = (a * 8) as u64;
    let total = (63 - p % 64) as u64;
    assert((((((long >> sh) & 0xff) as u8) >> c) as u64) & 1 == (long >> total) & 1) by (bit_vector)
        requires
            c < 8,
            sh <= 56,
            total == sh + c,
    ;
}

/// The first `count` bits of the index of a voxel, read back from packed
/// block states, are the highest `count` bits of the index that was packed.
proof fn lemma_unpack_prefix(indices: Seq<u16>, bits: int, voxel: int, count: int)
    requires
        1 <= bits <= 16,
        indices.len() == BLOCKS_IN_SECTION_3D,
        0 <= voxel < BLOCKS_IN_SECTION_3D,
        spec_index_fits(indices[voxel], bits),
        0 <= count <= bits,
    ensures
        spec_bits_value(
            spec_state_bytes(spec_pack(indices, bits)),
            (BLOCKS_IN_SECTION_3D - 1 - voxel) * bits,
            count,
        ) == (indices[voxel] as u64) >> ((bits - count) as u64),
    decreases count,
{
    let states = spec_pack(indices, bits);
    let bytes = spec_state_bytes(states);
    let pos = (BLOCKS_IN_SECTION_3D - 1 - voxel) * bits;
    let x = indices[voxel] as u64;
    if count > 0 {
        lemma_unpack_prefix(indices, bits, voxel, count - 1);
        let p = pos + count - 1;
        assert(0 <= p < 4096 * bits && p == 4095 * bits - voxel * bits + count - 1)
            by (nonlinear_arith)
            requires
                p == (4095 - voxel) * bits + count - 1,
                0 <= voxel < 4096,
                1 <= count <= bits,
        ;
        lemma_stream_bit(states, p);
        let k = states.len() - 1 - p / 64;
        let q = 63 - p % 64;
        lemma_packed_long_bits(indices, bits, k, 64, q);
        let g = 64 * k + q;
        assert(g == 4096 * bits - 1 - p);
        assert(g == voxel * bits + (bits - count));
        assert(bits * voxel == voxel * bits) by (nonlinear_arith);
        vstd::arithmetic::div_mod::lemma_fundamental_div_mod_converse(
            g,
            bits,
            voxel,
            bits - count,
        );
        let s = (bits - count) as u64;
        let s1 = (bits - count + 1) as u64;
        assert(((x >> s1) << 1) | ((x >> s) & 1) == x >> s) by (bit_vector)
            requires
                s1 == s + 1,
                s < 64,
        ;
    }
}

/// Packing the palette indices of the voxels of a section and unpacking the
/// block states gives the indices back, whatever the width of an index from
/// 1 to 16 bits, so long as every index can be written in that width.
pub proof fn lemma_pack_unpack(indices: Seq<u16>, bits: int)
    requires
        1 <= bits <= 16,
        indices.len() == BLOCKS_IN_SECTION_3D,
        forall|voxel: int|
            0 <= voxel < BLOCKS_IN_SECTION_3D ==> spec_index_fits(#[trigger] indices[voxel], bits),
    ensures
        spec_state_bits(spec_pack(indices, bits)) == bits,
        spec_unpack(spec_pack(indices, bits)) == indices,
{
    let states = spec_pack(indices, bits);
    assert(spec_state_bits(states) == bits);
    assert forall|voxel: int| 0 <= voxel < BLOCKS_IN_SECTION_3D implies spec_unpack(states)[voxel]
        == indices[voxel] by {
        lemma_unpack_prefix(indices, bits, voxel, bits);
        let x = indices[voxel] as u64;
        assert(x >> 0u64 == x) by (bit_vector);
    }
    assert(spec_unpack(states) =~= indices);
}

/// Whether a palette index can be written in `bits` bits.
pub fn index_fits(index: u16, bits: u8) -> (r: bool)
    requires
        bits <= 16,
    ensures
        r == spec_index_fits(index, bits as int),
{
    ((index as u64) >> (bits as u64)) == 0
}

/// Packs the palette indices of the 4096 voxels of a section into block
/// states of `bits` bits a voxel: the voxels follow each other from the
/// lowest bit of the first long on, and an index may run over from one long
/// into the next.
pub fn pack_block_states(indices: &Vec<u16>, bits: u8) -> (states: Vec<u64>)
    requires
        1 <= bits <= 16,
        indices.len() == BLOCKS_IN_SECTION_3D,
        forall|voxel: int|
            0 <= voxel < BLOCKS_IN_SECTION_3D ==> spec_index_fits(#[trigger] indices[voxel], bits as int),
    ensures
        states@ == spec_pack(indices@, bits as int),
        states.len() == 64 * bits,
        spec_unpack(states@) == indices@,
{
    let count: usize = 64 * (bits as usize);
    let mut states: Vec<u64> = Vec::new();
    let mut k: usize = 0;
    while k < count
        invariant
            1 <= bits <= 16,
            count == 64 * bits,
            indices.len() == BLOCKS_IN_SECTION_3D,
            k <= count,
            states.len() == k,
            forall|i: int|
                0 <= i < k ==> states[i] == spec_packed_long(indices@, bits as int, i, 64),
        decreases count - k,
    {
        let mut long: u64 = 0;
        let mut q: usize = 0;
        while q < 64
            invariant
                1 <= bits <= 16,
                count == 64 * bits,
                indices.len() == BLOCKS_IN_SECTION_3D,
                k < count,
                q <= 64,
                long == spec_packed_long(indices@, bits as int, k as int, q as int),
            decreases 64 - q,
        {
            let g: usize = 64 * k + q;
            assert(g / (bits as usize) < 4096) by (nonlinear_arith)
                requires
                    0 <= g < 4096 * bits,
                    1 <= bits,
            ;
            let voxel: usize = g / (bits as usize);
            let shift: usize = g % (bits as usize);
            let bit: u64 = ((indices[voxel] as u64) >> (shift as u64)) & 1;
            long = long | (bit << (q as u64));
            q = q + 1;
        }
        states.push(long);
        k = k + 1;
    }
    proof {
        assert(states@ =~= spec_pack(indices@, bits as int));
        lemma_pack_unpack(indices@, bits as int);
    }
    states
}

} // verus!
