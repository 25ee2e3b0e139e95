use vstd::prelude::*;

verus! {

pub const BLOCKS_IN_CHUNK: usize = 16;

pub const MAX_BLOCK_IN_CHUNK: usize = 15;

pub const BLOCKS_IN_SECTION_Y: usize = 16;

pub const SECTIONS_IN_CHUNK_Y: usize = 16;

pub const MAX_SECTION_IN_CHUNK_Y: usize = 15;

pub const BLOCKS_IN_CHUNK_Y: usize = 256;

pub const MAX_BLOCK_IN_CHUNK_Y: usize = 255;

pub const BLOCKS_IN_CHUNK_2D: usize = 256;

pub const BLOCKS_IN_CHUNK_3D: usize = 65536;

pub const BLOCKS_IN_SECTION_3D: usize = 4096;

pub const CHUNKS_IN_REGION: usize = 32;

pub const CHUNKS_IN_REGION_2D: usize = 1024;

pub const BLOCKS_IN_REGION: usize = 512;

pub const MAX_CHUNK_IN_REGION: usize = 31;

pub const SECTOR_SIZE: usize = 4096;

// Pixel dimensions for isometric rendering.
pub const ISO_BLOCK_WIDTH: usize = 4;

pub const ISO_BLOCK_HEIGHT: usize = 4;

pub const ISO_BLOCK_TOP_HEIGHT: usize = 2;

pub const ISO_BLOCK_SIDE_HEIGHT: usize = 3;

pub const ISO_BLOCK_X_MARGIN: usize = 2;

pub const ISO_BLOCK_Y_MARGIN: usize = 1;

pub const ISO_CHUNK_WIDTH: usize = 64;

pub const ISO_CHUNK_SIDE_HEIGHT: usize = 768;

pub const ISO_CHUNK_X_MARGIN: usize = 32;

pub const ISO_CHUNK_Y_MARGIN: usize = 16;

pub const LIGHT_LEVELS: usize = 16;

pub const MAX_LIGHT_LEVEL: u8 = 15;

pub const BIOME_ARRAY_SIZE: usize = 170;

pub const MAX_CHANNEL_VALUE: u8 = 255;

/// The coordinate of the cell of width `ratio` that holds `value`: the floor
/// of the quotient, also for negative coordinates.
pub open spec fn spec_divide(value: int, ratio: int) -> int {
    value / ratio
}

/// The position of `value` inside its cell of width `ratio`, in `0..ratio`.
pub open spec fn spec_signed_modulo(value: int, ratio: int) -> int {
    value % ratio
}

/// Local position of `value` in the cell `cell` of width `ratio`, clamped to
/// the nearer edge of that cell where `value` lies outside of it.
pub open spec fn spec_pos_in_cell(value: int, cell: Option<int>, ratio: int) -> int {
    match cell {
        Some(c) => if spec_divide(value, ratio) < c {
            0
        } else if spec_divide(value, ratio) > c {
            ratio - 1
        } else {
            spec_signed_modulo(value, ratio)
        },
        None => spec_signed_modulo(value, ratio),
    }
}

pub fn divide(value: isize, ratio: usize) -> (q: isize)
    requires
        0 < ratio <= isize::MAX,
    ensures
        q == spec_divide(value as int, ratio as int),
        q * ratio <= value < (q + 1) * ratio,
{
    let r: isize = ratio as isize;
    let ghost v = value as int;
    let ghost d = ratio as int;
    proof {
        vstd::arithmetic::div_mod::lemma_fundamental_div_mod(v, d);
        vstd::arithmetic::div_mod::lemma_mod_bound(v, d);
    }
    if value >= 0 {
        proof {
            assert((v / d) * d <= v < (v / d + 1) * d) by (nonlinear_arith)
                requires
                    v == d * (v / d) + v % d,
                    0 <= v % d < d,
            ;
        }
        value / r
    } else {
        // Truncating division of the non-negative complement, mirrored.
        let neg1: isize = -(value + 1);
        let q1: isize = neg1 / r;
        proof {
            let n = neg1 as int;
            vstd::arithmetic::div_mod::lemma_fundamental_div_mod(n, d);
            vstd::arithmetic::div_mod::lemma_mod_bound(n, d);
            let q = -(n / d) - 1;
            let rem = d - 1 - n % d;
            assert(d * (n / d) + n % d == n);
            assert(v == d * q + rem) by (nonlinear_arith)
                requires
                    d * (n / d) + n % d == n,
                    n == -(v + 1),
                    q == -(n / d) - 1,
                    rem == d - 1 - n % d,
            ;
            vstd::arithmetic::div_mod::lemma_fundamental_div_mod_converse(v, d, q, rem);
            assert(q * d <= v < (q + 1) * d) by (nonlinear_arith)
                requires
                    v == d * q + rem,
                    0 <= rem < d,
            ;
        }
        -q1 - 1
    }
}

pub fn block_to_chunk(b: isize) -> (c: isize)
    ensures
        c == spec_divide(b as int, BLOCKS_IN_CHUNK as int),
{
    divide(b, BLOCKS_IN_CHUNK)
}

pub fn block_to_region(b: isize) -> (r: isize)
    ensures
        r == spec_divide(b as int, BLOCKS_IN_REGION as int),
{
    divide(b, BLOCKS_IN_REGION)
}

pub fn chunk_to_region(c: isize) -> (r: isize)
    ensures
        r == spec_divide(c as int, CHUNKS_IN_REGION as int),
{
    divide(c, CHUNKS_IN_REGION)
}

pub fn signed_modulo(value: isize, ratio: usize) -> (m: usize)
    requires
        0 < ratio <= isize::MAX,
    ensures
        m == spec_signed_modulo(value as int, ratio as int),
        m < ratio,
{
    let q: isize = divide(value, ratio);
    let ghost v = value as int;
    let ghost d = ratio as int;
    proof {
        vstd::arithmetic::div_mod::lemma_fundamental_div_mod(v, d);
        vstd::arithmetic::div_mod::lemma_mod_bound(v, d);
        assert(d * (v / d) == (v / d) * d) by (nonlinear_arith);
    }
    let base: i128 = (q as i128) * (ratio as i128);
    ((value as i128) - base) as usize
}

pub fn block_pos_in_chunk(b: isize, c: Option<isize>) -> (p: usize)
    ensures
        p == spec_pos_in_cell(
            b as int,
            match c {
                Some(v) => Some(v as int),
                None => None,
            },
            BLOCKS_IN_CHUNK as int,
        ),
        p <= MAX_BLOCK_IN_CHUNK,
{
    match c {
        Some(c) => {
            let bc: isize = block_to_chunk(b);
            if bc < c {
                0
            } else if bc > c {
                MAX_BLOCK_IN_CHUNK
            } else {
                signed_modulo(b, BLOCKS_IN_CHUNK)
            }
        },
        None => signed_modulo(b, BLOCKS_IN_CHUNK),
    }
}

pub fn chunk_pos_in_region(c: isize, r: Option<isize>) -> (p: usize)
    ensures
        p == spec_pos_in_cell(
            c as int,
            match r {
                Some(v) => Some(v as int),
                None => None,
            },
            CHUNKS_IN_REGION as int,
        ),
        p <= MAX_CHUNK_IN_REGION,
{
    match r {
        Some(r) => {
            let cr: isize = chunk_to_region(c);
            if cr < r {
                0
            } else if cr > r {
                MAX_CHUNK_IN_REGION
            } else {
                signed_modulo(c, CHUNKS_IN_REGION)
            }
        },
        None => signed_modulo(c, CHUNKS_IN_REGION),
    }
}

/// A coordinate is rebuilt from its cell and its position in the cell.
pub proof fn lemma_cell_and_position(value: int, ratio: int)
    requires
        ratio > 0,
    ensures
        value == spec_divide(value, ratio) * ratio + spec_signed_modulo(value, ratio),
        0 <= spec_signed_modulo(value, ratio) < ratio,
{
    vstd::arithmetic::div_mod::lemma_fundamental_div_mod(value, ratio);
    vstd::arithmetic::div_mod::lemma_mod_bound(value, ratio);
    assert(ratio * (value / ratio) == (value / ratio) * ratio) by (nonlinear_arith);
}

} // verus!
