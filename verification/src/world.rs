use std::ops::Range;
use vstd::prelude::*;

use crate::nbt::NbtError;
use crate::region::{
    get_coords_from_path, read_region_chunk_coords, region_limits, spec_chunk_present,
    spec_coords_from_groups, spec_first_error, spec_in_limits, spec_regex_captures,
    spec_region_limits, spec_region_pattern, spec_scan_fails, spec_scan_limits,
};
use crate::sizes::{
    block_to_chunk, block_to_region, spec_divide, spec_pos_in_cell, BLOCKS_IN_CHUNK,
    BLOCKS_IN_CHUNK_Y, BLOCKS_IN_REGION, CHUNKS_IN_REGION, MAX_BLOCK_IN_CHUNK,
};
use crate::types::{Edges, Pair};

verus! {

/// What the world knows of one region: the bounds of its chunks that hold
/// data, in the region's grid.
#[derive(Clone, Copy, Debug)]
pub struct Region {
    pub cedges: Edges<usize>,
}

/// The regions of a world with data, and the bounds of what is drawn, in
/// regions, chunks and blocks. All bounds include their edges.
pub struct World {
    pub regions: Vec<(Pair<isize>, Region)>,
    pub redges: Edges<isize>,
    pub cedges: Edges<isize>,
    pub bedges: Edges<isize>,
    pub rsize: Pair<usize>,
    pub csize: Pair<usize>,
    pub bsize: Pair<usize>,
    pub ylimits: Range<usize>,
}

/// Whether `cedges` bounds the cells of `limits` whose chunks hold sections,
/// and no wider bounds do.
pub open spec fn spec_is_box(cedges: Edges<usize>, file: Seq<u8>, limits: Edges<usize>) -> bool {
    &&& forall|x: int, z: int|
        spec_in_limits(limits, x, z) && #[trigger] spec_chunk_present(file, x, z) == Ok::<
            bool,
            NbtError,
        >(true) ==> cedges.w <= x <= cedges.e && cedges.n <= z <= cedges.s
    &&& exists|x: int|
        spec_in_limits(limits, x, cedges.n as int) && #[trigger] spec_chunk_present(
            file,
            x,
            cedges.n as int,
        ) == Ok::<bool, NbtError>(true)
    &&& exists|x: int|
        spec_in_limits(limits, x, cedges.s as int) && #[trigger] spec_chunk_present(
            file,
            x,
            cedges.s as int,
        ) == Ok::<bool, NbtError>(true)
    &&& exists|z: int|
        spec_in_limits(limits, cedges.e as int, z) && #[trigger] spec_chunk_present(
            file,
            cedges.e as int,
            z,
        ) == Ok::<bool, NbtError>(true)
    &&& exists|z: int|
        spec_in_limits(limits, cedges.w as int, z) && #[trigger] spec_chunk_present(
            file,
            cedges.w as int,
            z,
        ) == Ok::<bool, NbtError>(true)
}

/// The cells of `limits` have one box.
pub proof fn lemma_box_unique(a: Edges<usize>, b: Edges<usize>, file: Seq<u8>, limits: Edges<usize>)
    requires
        spec_is_box(a, file, limits),
        spec_is_box(b, file, limits),
    ensures
        a == b,
{
}

/// The regions that block limits reach.
pub open spec fn spec_limit_regions(blimits: Edges<isize>) -> Edges<isize> {
    Edges {
        n: spec_divide(blimits.n as int, BLOCKS_IN_REGION as int) as isize,
        e: spec_divide(blimits.e as int, BLOCKS_IN_REGION as int) as isize,
        s: spec_divide(blimits.s as int, BLOCKS_IN_REGION as int) as isize,
        w: spec_divide(blimits.w as int, BLOCKS_IN_REGION as int) as isize,
    }
}

/// Whether the region `r` lies inside the block limits, where there are any.
pub open spec fn spec_region_in_limits(r: Pair<isize>, blimits: Option<Edges<isize>>) -> bool {
    match blimits {
        None => true,
        Some(b) => spec_limit_regions(b).spec_contains(&r),
    }
}

/// The cells of the region `r` that a scan goes through: those that the
/// block limits reach, or all.
pub open spec fn spec_region_scan_limits(r: Pair<isize>, blimits: Option<Edges<isize>>) -> Edges<
    usize,
> {
    match blimits {
        None => spec_scan_limits(None),
        Some(b) => spec_region_limits(b, r),
    }
}

/// What a file of the name `name` adds to a world's regions: the region of
/// its coordinates with the box of its chunks that hold sections. Nothing
/// where the name is not that of a region file, where the region lies
/// outside of the block limits, or where no chunk holds sections.
pub open spec fn spec_file_entry(name: Seq<char>, file: Seq<u8>, blimits: Option<Edges<isize>>) -> Result<
    Option<(Pair<isize>, Region)>,
    NbtError,
> {
    match spec_regex_captures(spec_region_pattern(), name) {
        None => Ok(None),
        Some(groups) => match spec_coords_from_groups(groups) {
            None => Ok(None),
            Some(r) => if !spec_region_in_limits(r, blimits) {
                Ok(None)
            } else if exists|e: NbtError|
                spec_first_error(spec_scan_fails(file), spec_region_scan_limits(r, blimits), e) {
                Err(
                    choose|e: NbtError|
                        spec_first_error(
                            spec_scan_fails(file),
                            spec_region_scan_limits(r, blimits),
                            e,
                        ),
                )
            } else if exists|cedges: Edges<usize>|
                spec_is_box(cedges, file, spec_region_scan_limits(r, blimits)) {
                Ok(
                    Some(
                        (
                            r,
                            Region {
                                cedges: choose|cedges: Edges<usize>|
                                    spec_is_box(
                                        cedges,
                                        file,
                                        spec_region_scan_limits(r, blimits),
                                    ),
                            },
                        ),
                    ),
                )
            } else {
                Ok(None)
            },
        },
    }
}

/// The cells of `limits` give one first error.
pub proof fn lemma_first_error_unique(
    fails: spec_fn(int, int) -> Option<NbtError>,
    limits: Edges<usize>,
    a: NbtError,
    b: NbtError,
)
    requires
        spec_first_error(fails, limits, a),
        spec_first_error(fails, limits, b),
    ensures
        a == b,
{
    let (x1, z1) = choose|x: int, z: int|
        spec_in_limits(limits, x, z) && #[trigger] fails(x, z) == Some(a) && forall|
            x2: int,
            z2: int,
        |
            spec_in_limits(limits, x2, z2) && crate::region::spec_raster_before(x2, z2, x, z)
                ==> #[trigger] fails(x2, z2) is None;
    let (x3, z3) = choose|x: int, z: int|
        spec_in_limits(limits, x, z) && #[trigger] fails(x, z) == Some(b) && forall|
            x2: int,
            z2: int,
        |
            spec_in_limits(limits, x2, z2) && crate::region::spec_raster_before(x2, z2, x, z)
                ==> #[trigger] fails(x2, z2) is None;
    if crate::region::spec_raster_before(x1, z1, x3, z3) {
        assert(fails(x1, z1) is None);
    } else if crate::region::spec_raster_before(x3, z3, x1, z1) {
        assert(fails(x3, z3) is None);
    }
}

/// The box of the cells of `chunks`.
fn bounding_box(chunks: &Vec<Pair<usize>>) -> (cedges: Edges<usize>)
    requires
        chunks.len() > 0,
    ensures
        forall|i: int|
            0 <= i < chunks.len() ==> cedges.w <= (#[trigger] chunks[i]).x <= cedges.e && cedges.n
                <= chunks[i].z <= cedges.s,
        exists|i: int| 0 <= i < chunks.len() && (#[trigger] chunks[i]).z == cedges.n,
        exists|i: int| 0 <= i < chunks.len() && (#[trigger] chunks[i]).x == cedges.e,
        exists|i: int| 0 <= i < chunks.len() && (#[trigger] chunks[i]).z == cedges.s,
        exists|i: int| 0 <= i < chunks.len() && (#[trigger] chunks[i]).x == cedges.w,
{
    let mut cedges: Edges<usize> = Edges {
        n: chunks[0].z,
        e: chunks[0].x,
        s: chunks[0].z,
        w: chunks[0].x,
    };
    let mut k: usize = 1;
    while k < chunks.len()
        invariant
            1 <= k <= chunks.len(),
            forall|i: int|
                0 <= i < k ==> cedges.w <= (#[trigger] chunks[i]).x <= cedges.e && cedges.n
                    <= chunks[i].z <= cedges.s,
            exists|i: int| 0 <= i < k && (#[trigger] chunks[i]).z == cedges.n,
            exists|i: int| 0 <= i < k && (#[trigger] chunks[i]).x == cedges.e,
            exists|i: int| 0 <= i < k && (#[trigger] chunks[i]).z == cedges.s,
            exists|i: int| 0 <= i < k && (#[trigger] chunks[i]).x == cedges.w,
        decreases chunks.len() - k,
    {
        let c: Pair<usize> = chunks[k];
        if c.z < cedges.n {
            cedges.n = c.z;
        }
        if c.x > cedges.e {
            cedges.e = c.x;
        }
        if c.z > cedges.s {
            cedges.s = c.z;
        }
        if c.x < cedges.w {
            cedges.w = c.x;
        }
        k = k + 1;
    }
    cedges
}

/// Whether the region `r` lies inside the block limits, where there are any.
pub fn region_in_limits(r: &Pair<isize>, blimits: &Option<Edges<isize>>) -> (b: bool)
    ensures
        b == spec_region_in_limits(*r, *blimits),
{
    match blimits {
        None => true,
        Some(limits) => {
            let rlimits: Edges<isize> = Edges {
                n: block_to_region(limits.n),
                e: block_to_region(limits.e),
                s: block_to_region(limits.s),
                w: block_to_region(limits.w),
            };
            rlimits.contains(r)
        },
    }
}

/// Scans one file of a world's region directory: parses its name, and where
/// the region lies inside the block limits finds the box of its chunks that
/// hold sections, without decoding the chunks.
pub fn read_world_region(name: &str, file: &[u8], blimits: &Option<Edges<isize>>) -> (res: Result<
    Option<(Pair<isize>, Region)>,
    NbtError,
>)
    ensures
        res == spec_file_entry(name@, file@, *blimits),
{
    let r: Pair<isize> = match get_coords_from_path(name) {
        None => {
            return Ok(None);
        },
        Some(r) => r,
    };
    if !region_in_limits(&r, blimits) {
        return Ok(None);
    }
    let rclimits: Option<Edges<usize>> = match blimits {
        None => None,
        Some(limits) => Some(region_limits(limits, &r)),
    };
    let ghost limits = spec_region_scan_limits(r, *blimits);
    assert(spec_scan_limits(rclimits) == limits);
    let chunklist: Vec<Pair<usize>> = match read_region_chunk_coords(file, &rclimits) {
        Ok(v) => v,
        Err(e) => {
            proof {
                let chosen = choose|e2: NbtError|
                    spec_first_error(spec_scan_fails(file@), limits, e2);
                lemma_first_error_unique(spec_scan_fails(file@), limits, e, chosen);
            }
            return Err(e);
        },
    };
    proof {
        assert forall|e: NbtError| !spec_first_error(spec_scan_fails(file@), limits, e) by {
            if spec_first_error(spec_scan_fails(file@), limits, e) {
                let (x, z) = choose|x: int, z: int|
                    spec_in_limits(limits, x, z) && #[trigger] spec_scan_fails(file@)(x, z)
                        == Some(e);
                assert(crate::region::spec_raster_before(x, z, limits.w as int, limits.s + 1));
                assert(spec_scan_fails(file@)(x, z) is None);
            }
        }
    }
    if chunklist.len() == 0 {
        proof {
            assert forall|cedges: Edges<usize>| !spec_is_box(cedges, file@, limits) by {
                if spec_is_box(cedges, file@, limits) {
                    let x = choose|x: int|
                        spec_in_limits(limits, x, cedges.n as int) && #[trigger] spec_chunk_present(
                            file@,
                            x,
                            cedges.n as int,
                        ) == Ok::<bool, NbtError>(true);
                    assert(crate::region::spec_raster_before(
                        x,
                        cedges.n as int,
                        limits.w as int,
                        limits.s + 1,
                    ));
                }
            }
        }
        return Ok(None);
    }
    let cedges: Edges<usize> = bounding_box(&chunklist);
    proof {
        assert forall|x: int, z: int|
            spec_in_limits(limits, x, z) && #[trigger] spec_chunk_present(file@, x, z) == Ok::<
                bool,
                NbtError,
            >(true) implies cedges.w <= x <= cedges.e && cedges.n <= z <= cedges.s by {
            assert(crate::region::spec_raster_before(x, z, limits.w as int, limits.s + 1));
        }
        let i_n = choose|i: int| 0 <= i < chunklist.len() && (#[trigger] chunklist[i]).z == cedges.n;
        assert(spec_chunk_present(file@, chunklist[i_n].x as int, cedges.n as int) == Ok::<
            bool,
            NbtError,
        >(true));
        let i_s = choose|i: int| 0 <= i < chunklist.len() && (#[trigger] chunklist[i]).z == cedges.s;
        assert(spec_chunk_present(file@, chunklist[i_s].x as int, cedges.s as int) == Ok::<
            bool,
            NbtError,
        >(true));
        let i_e = choose|i: int| 0 <= i < chunklist.len() && (#[trigger] chunklist[i]).x == cedges.e;
        assert(spec_chunk_present(file@, cedges.e as int, chunklist[i_e].z as int) == Ok::<
            bool,
            NbtError,
        >(true));
        let i_w = choose|i: int| 0 <= i < chunklist.len() && (#[trigger] chunklist[i]).x == cedges.w;
        assert(spec_chunk_present(file@, cedges.w as int, chunklist[i_w].z as int) == Ok::<
            bool,
            NbtError,
        >(true));
        assert(spec_is_box(cedges, file@, limits));
        let chosen = choose|c: Edges<usize>| spec_is_box(c, file@, limits);
        lemma_box_unique(cedges, chosen, file@, limits);
    }
    Ok(Some((r, Region { cedges })))
}

/// The place of the first region of `regions`, from `from` on, with the
/// coordinates `r`.
pub open spec fn spec_region_index(regions: Seq<(Pair<isize>, Region)>, r: Pair<isize>, from: int) -> Option<
    int,
>
    decreases regions.len() - from,
{
    if from < 0 || from >= regions.len() {
        None
    } else if regions[from].0 == r {
        Some(from)
    } else {
        spec_region_index(regions, r, from + 1)
    }
}

/// `regions` with `entry` in the place of the region of its coordinates, or
/// at the end where there is no such region.
pub open spec fn spec_upsert(regions: Seq<(Pair<isize>, Region)>, entry: (Pair<isize>, Region)) -> Seq<
    (Pair<isize>, Region),
> {
    match spec_region_index(regions, entry.0, 0) {
        Some(i) => regions.update(i, entry),
        None => regions.push(entry),
    }
}

/// The regions that the first `count` files of a region directory give, each
/// file a name and its bytes: each region once, with what the last file of
/// its coordinates says of it.
pub open spec fn spec_world_regions(
    files: Seq<(String, Vec<u8>)>,
    blimits: Option<Edges<isize>>,
    count: int,
) -> Result<Seq<(Pair<isize>, Region)>, NbtError>
    decreases count,
{
    if count <= 0 {
        Ok(Seq::empty())
    } else {
        match spec_world_regions(files, blimits, count - 1) {
            Err(e) => Err(e),
            Ok(regions) => match spec_file_entry(
                files[count - 1].0@,
                files[count - 1].1@,
                blimits,
            ) {
                Err(e) => Err(e),
                Ok(None) => Ok(regions),
                Ok(Some(entry)) => Ok(spec_upsert(regions, entry)),
            },
        }
    }
}

/// A file that cannot be read to its end fails the directory from there on.
proof fn lemma_world_regions_error(
    files: Seq<(String, Vec<u8>)>,
    blimits: Option<Edges<isize>>,
    at: int,
    count: int,
)
    requires
        0 <= at <= count,
        spec_world_regions(files, blimits, at) is Err,
    ensures
        spec_world_regions(files, blimits, count) == spec_world_regions(files, blimits, at),
    decreases count - at,
{
    if at < count {
        lemma_world_regions_error(files, blimits, at, count - 1);
    }
}

/// Whether no two regions of `regions` have the same coordinates.
pub open spec fn spec_regions_distinct(regions: Seq<(Pair<isize>, Region)>) -> bool {
    forall|i: int, j: int|
        0 <= i < j < regions.len() ==> (#[trigger] regions[i]).0 != (#[trigger] regions[j]).0
}

/// The place of the region with the coordinates `r`.
fn region_index(regions: &Vec<(Pair<isize>, Region)>, r: &Pair<isize>) -> (res: Option<usize>)
    ensures
        match res {
            Some(i) => spec_region_index(regions@, *r, 0) == Some(i as int) && i < regions.len()
                && regions[i as int].0 == *r,
            None => spec_region_index(regions@, *r, 0) is None && forall|j: int|
                0 <= j < regions.len() ==> (#[trigger] regions[j]).0 != *r,
        },
{
    let mut i: usize = 0;
    while i < regions.len()
        invariant
            i <= regions.len(),
            spec_region_index(regions@, *r, 0) == spec_region_index(regions@, *r, i as int),
            forall|j: int| 0 <= j < i ==> (#[trigger] regions[j]).0 != *r,
        decreases regions.len() - i,
    {
        if regions[i].0.x == r.x && regions[i].0.z == r.z {
            return Some(i);
        }
        i = i + 1;
    }
    None
}

/// Puts a region into a list of regions: in the place of the region of its
/// coordinates, or at the end where the list has no such region.
pub fn add_region(regions: &mut Vec<(Pair<isize>, Region)>, entry: (Pair<isize>, Region))
    ensures
        final(regions)@ == spec_upsert(old(regions)@, entry),
        spec_regions_distinct(old(regions)@) ==> spec_regions_distinct(final(regions)@),
{
    match region_index(regions, &entry.0) {
        Some(i) => {
            regions.set(i, entry);
        },
        None => {
            regions.push(entry);
        },
    }
}

/// Scans the files of a world's region directory, each a name and its bytes,
/// and lists the regions with chunks that hold sections, each with the box
/// of those chunks.
pub fn read_world_regions(files: &Vec<(String, Vec<u8>)>, blimits: &Option<Edges<isize>>) -> (res:
    Result<Vec<(Pair<isize>, Region)>, NbtError>)
    ensures
        match spec_world_regions(files@, *blimits, files.len() as int) {
            Ok(regions) => res matches Ok(v) && v@ == regions && spec_regions_distinct(v@),
            Err(e) => res matches Err(err) && err == e,
        },
{
    let mut regions: Vec<(Pair<isize>, Region)> = Vec::new();
    let mut k: usize = 0;
    while k < files.len()
        invariant
            k <= files.len(),
            spec_world_regions(files@, *blimits, k as int) == Ok::<
                Seq<(Pair<isize>, Region)>,
                NbtError,
            >(regions@),
            spec_regions_distinct(regions@),
        decreases files.len() - k,
    {
        let found: Option<(Pair<isize>, Region)> = match read_world_region(
            files[k].0.as_str(),
            files[k].1.as_slice(),
            blimits,
        ) {
            Ok(v) => v,
            Err(e) => {
                proof {
                    lemma_world_regions_error(files@, *blimits, k + 1, files.len() as int);
                }
                return Err(e);
            },
        };
        match found {
            None => {},
            Some(entry) => {
                add_region(&mut regions, entry);
            },
        }
        k = k + 1;
    }
    Ok(regions)
}

/// How far from the origin a region may lie for the bounds of its blocks to
/// be coordinates.
pub const MAX_REGION_COORD: isize = 0x1f_ffff;

/// Whether the regions lie near enough to the origin, and their boxes inside
/// of a region's grid.
pub open spec fn spec_regions_in_range(regions: Seq<(Pair<isize>, Region)>) -> bool {
    forall|i: int|
        0 <= i < regions.len() ==> {
            &&& -MAX_REGION_COORD <= (#[trigger] regions[i]).0.x <= MAX_REGION_COORD
            &&& -MAX_REGION_COORD <= regions[i].0.z <= MAX_REGION_COORD
            &&& regions[i].1.cedges.n < CHUNKS_IN_REGION
            &&& regions[i].1.cedges.e < CHUNKS_IN_REGION
            &&& regions[i].1.cedges.s < CHUNKS_IN_REGION
            &&& regions[i].1.cedges.w < CHUNKS_IN_REGION
        }
}

/// Whether `redges` bounds the coordinates of `regions`, and no wider bounds
/// do.
pub open spec fn spec_is_region_edges(redges: Edges<isize>, regions: Seq<(Pair<isize>, Region)>) -> bool {
    &&& forall|i: int|
        0 <= i < regions.len() ==> redges.w <= (#[trigger] regions[i]).0.x <= redges.e && redges.n
            <= regions[i].0.z <= redges.s
    &&& exists|i: int| 0 <= i < regions.len() && (#[trigger] regions[i]).0.z == redges.n
    &&& exists|i: int| 0 <= i < regions.len() && (#[trigger] regions[i]).0.x == redges.e
    &&& exists|i: int| 0 <= i < regions.len() && (#[trigger] regions[i]).0.z == redges.s
    &&& exists|i: int| 0 <= i < regions.len() && (#[trigger] regions[i]).0.x == redges.w
}

/// The world coordinate of the northern edge of a region's box of chunks.
pub open spec fn spec_chunk_n(entry: (Pair<isize>, Region)) -> int {
    entry.0.z * CHUNKS_IN_REGION + entry.1.cedges.n
}

/// The world coordinate of the eastern edge of a region's box of chunks.
pub open spec fn spec_chunk_e(entry: (Pair<isize>, Region)) -> int {
    entry.0.x * CHUNKS_IN_REGION + entry.1.cedges.e
}

/// The world coordinate of the southern edge of a region's box of chunks.
pub open spec fn spec_chunk_s(entry: (Pair<isize>, Region)) -> int {
    entry.0.z * CHUNKS_IN_REGION + entry.1.cedges.s
}

/// The world coordinate of the western edge of a region's box of chunks.
pub open spec fn spec_chunk_w(entry: (Pair<isize>, Region)) -> int {
    entry.0.x * CHUNKS_IN_REGION + entry.1.cedges.w
}

/// Whether `cedges` bounds the chunks of a world: on each side, the
/// outermost edge of the boxes of the regions along that side of `redges`.
pub open spec fn spec_is_chunk_edges(
    cedges: Edges<isize>,
    redges: Edges<isize>,
    regions: Seq<(Pair<isize>, Region)>,
) -> bool {
    &&& forall|i: int|
        0 <= i < regions.len() && (#[trigger] regions[i]).0.z == redges.n ==> cedges.n
            <= spec_chunk_n(regions[i])
    &&& exists|i: int|
        0 <= i < regions.len() && (#[trigger] regions[i]).0.z == redges.n && cedges.n
            == spec_chunk_n(regions[i])
    &&& forall|i: int|
        0 <= i < regions.len() && (#[trigger] regions[i]).0.x == redges.e ==> cedges.e
            >= spec_chunk_e(regions[i])
    &&& exists|i: int|
        0 <= i < regions.len() && (#[trigger] regions[i]).0.x == redges.e && cedges.e
            == spec_chunk_e(regions[i])
    &&& forall|i: int|
        0 <= i < regions.len() && (#[trigger] regions[i]).0.z == redges.s ==> cedges.s
            >= spec_chunk_s(regions[i])
    &&& exists|i: int|
        0 <= i < regions.len() && (#[trigger] regions[i]).0.z == redges.s && cedges.s
            == spec_chunk_s(regions[i])
    &&& forall|i: int|
        0 <= i < regions.len() && (#[trigger] regions[i]).0.x == redges.w ==> cedges.w
            <= spec_chunk_w(regions[i])
    &&& exists|i: int|
        0 <= i < regions.len() && (#[trigger] regions[i]).0.x == redges.w && cedges.w
            == spec_chunk_w(regions[i])
}

/// The blocks of the chunks inside `cedges`, cut down to the block limits
/// where there are any.
pub open spec fn spec_block_edges(cedges: Edges<isize>, blimits: Option<Edges<isize>>) -> Edges<int> {
    let n = cedges.n * BLOCKS_IN_CHUNK;
    let e = cedges.e * BLOCKS_IN_CHUNK + MAX_BLOCK_IN_CHUNK;
    let s = cedges.s * BLOCKS_IN_CHUNK + MAX_BLOCK_IN_CHUNK;
    let w = cedges.w * BLOCKS_IN_CHUNK;
    match blimits {
        Some(b) => Edges {
            n: if n >= b.n {
                n
            } else {
                b.n as int
            },
            e: if e <= b.e {
                e
            } else {
                b.e as int
            },
            s: if s <= b.s {
                s
            } else {
                b.s as int
            },
            w: if w >= b.w {
                w
            } else {
                b.w as int
            },
        },
        None => Edges { n, e, s, w },
    }
}

/// Whether the chunks inside `cedges` can be drawn inside the block limits
/// and the layers `ylimits`: the limits leave a block of each border chunk,
/// and the layers lie in the world.
pub open spec fn spec_edges_drawable(
    cedges: Edges<isize>,
    blimits: Option<Edges<isize>>,
    ylimits: Range<usize>,
) -> bool {
    &&& spec_divide(spec_block_edges(cedges, blimits).n, BLOCKS_IN_CHUNK as int) == cedges.n
    &&& spec_divide(spec_block_edges(cedges, blimits).e, BLOCKS_IN_CHUNK as int) == cedges.e
    &&& spec_divide(spec_block_edges(cedges, blimits).s, BLOCKS_IN_CHUNK as int) == cedges.s
    &&& spec_divide(spec_block_edges(cedges, blimits).w, BLOCKS_IN_CHUNK as int) == cedges.w
    &&& ylimits.start <= ylimits.end <= BLOCKS_IN_CHUNK_Y
}

impl World {
    /// Whether the bounds of the world fit together, so that it can be
    /// drawn: the bounds in blocks lie in the border chunks, the sizes are
    /// those of the bounds, and the layers lie in the world.
    pub open spec fn spec_drawable(&self) -> bool {
        &&& self.bedges.w <= self.bedges.e
        &&& self.bedges.n <= self.bedges.s
        &&& self.bsize.x == self.bedges.e - self.bedges.w + 1
        &&& self.bsize.z == self.bedges.s - self.bedges.n + 1
        &&& self.csize.x == self.cedges.e - self.cedges.w + 1
        &&& self.csize.z == self.cedges.s - self.cedges.n + 1
        &&& spec_divide(self.bedges.n as int, BLOCKS_IN_CHUNK as int) == self.cedges.n
        &&& spec_divide(self.bedges.e as int, BLOCKS_IN_CHUNK as int) == self.cedges.e
        &&& spec_divide(self.bedges.s as int, BLOCKS_IN_CHUNK as int) == self.cedges.s
        &&& spec_divide(self.bedges.w as int, BLOCKS_IN_CHUNK as int) == self.cedges.w
        &&& -MAX_REGION_COORD * 32 <= self.cedges.w <= self.cedges.e <= MAX_REGION_COORD * 32 + 31
        &&& -MAX_REGION_COORD * 32 <= self.cedges.n <= self.cedges.s <= MAX_REGION_COORD * 32 + 31
        &&& self.ylimits.start <= self.ylimits.end <= BLOCKS_IN_CHUNK_Y
    }

    /// Whether the world has a region of the coordinates `r`.
    pub open spec fn spec_has_region(&self, r: Pair<isize>) -> bool {
        spec_listed(self.regions@, r)
    }

    /// Whether the world has a region of the coordinates `r`.
    pub fn has_region(&self, r: &Pair<isize>) -> (b: bool)
        ensures
            b == self.spec_has_region(*r),
    {
        let mut i: usize = 0;
        while i < self.regions.len()
            invariant
                i <= self.regions.len(),
                forall|j: int| 0 <= j < i ==> (#[trigger] self.regions[j]).0 != *r,
            decreases self.regions.len() - i,
        {
            if self.regions[i].0.x == r.x && self.regions[i].0.z == r.z {
                return true;
            }
            i = i + 1;
        }
        false
    }

    /// Whether the bounds of the world fit together, so that it can be
    /// drawn.
    pub fn drawable(&self) -> (r: bool)
        ensures
            r == self.spec_drawable(),
    {
        if !(-MAX_REGION_COORD * 32 <= self.cedges.w && self.cedges.w <= self.cedges.e
            && self.cedges.e <= MAX_REGION_COORD * 32 + 31 && -MAX_REGION_COORD * 32
            <= self.cedges.n && self.cedges.n <= self.cedges.s && self.cedges.s <= MAX_REGION_COORD
            * 32 + 31) {
            return false;
        }
        if !(self.bedges.w <= self.bedges.e && self.bedges.n <= self.bedges.s) {
            return false;
        }
        if !(block_to_chunk(self.bedges.n) == self.cedges.n && block_to_chunk(self.bedges.e)
            == self.cedges.e && block_to_chunk(self.bedges.s) == self.cedges.s && block_to_chunk(
            self.bedges.w,
        ) == self.cedges.w) {
            return false;
        }
        let bx: isize = self.bedges.e - self.bedges.w + 1;
        let bz: isize = self.bedges.s - self.bedges.n + 1;
        let cx: isize = self.cedges.e - self.cedges.w + 1;
        let cz: isize = self.cedges.s - self.cedges.n + 1;
        self.bsize.x == bx as usize && self.bsize.z == bz as usize && self.csize.x == cx as usize
            && self.csize.z == cz as usize && self.ylimits.start <= self.ylimits.end
            && self.ylimits.end <= BLOCKS_IN_CHUNK_Y
    }
}

/// Whether `world` is the world of `regions`: its bounds in regions, chunks
/// and blocks and its sizes are those of the regions, cut down to the block
/// limits.
pub open spec fn spec_is_world(
    world: World,
    regions: Seq<(Pair<isize>, Region)>,
    blimits: Option<Edges<isize>>,
    ylimits: Range<usize>,
) -> bool {
    &&& world.regions@ == regions
    &&& world.ylimits == ylimits
    &&& spec_is_region_edges(world.redges, regions)
    &&& spec_is_chunk_edges(world.cedges, world.redges, regions)
    &&& world.bedges.n == spec_block_edges(world.cedges, blimits).n
    &&& world.bedges.e == spec_block_edges(world.cedges, blimits).e
    &&& world.bedges.s == spec_block_edges(world.cedges, blimits).s
    &&& world.bedges.w == spec_block_edges(world.cedges, blimits).w
    &&& world.bedges.w <= world.bedges.e
    &&& world.bedges.n <= world.bedges.s
    &&& world.rsize.x == world.redges.e - world.redges.w + 1
    &&& world.rsize.z == world.redges.s - world.redges.n + 1
    &&& world.csize.x == world.cedges.e - world.cedges.w + 1
    &&& world.csize.z == world.cedges.s - world.cedges.n + 1
    &&& world.bsize.x == world.bedges.e - world.bedges.w + 1
    &&& world.bsize.z == world.bedges.s - world.bedges.n + 1
}

/// The bounds of the coordinates of `regions`.
fn region_edges(regions: &Vec<(Pair<isize>, Region)>) -> (redges: Edges<isize>)
    requires
        regions.len() > 0,
    ensures
        spec_is_region_edges(redges, regions@),
{
    let mut redges: Edges<isize> = Edges {
        n: regions[0].0.z,
        e: regions[0].0.x,
        s: regions[0].0.z,
        w: regions[0].0.x,
    };
    let mut k: usize = 1;
    while k < regions.len()
        invariant
            1 <= k <= regions.len(),
            forall|i: int|
                0 <= i < k ==> redges.w <= (#[trigger] regions[i]).0.x <= redges.e && redges.n
                    <= regions[i].0.z <= redges.s,
            exists|i: int| 0 <= i < k && (#[trigger] regions[i]).0.z == redges.n,
            exists|i: int| 0 <= i < k && (#[trigger] regions[i]).0.x == redges.e,
            exists|i: int| 0 <= i < k && (#[trigger] regions[i]).0.z == redges.s,
            exists|i: int| 0 <= i < k && (#[trigger] regions[i]).0.x == redges.w,
        decreases regions.len() - k,
    {
        let r: Pair<isize> = regions[k].0;
        if r.z < redges.n {
            redges.n = r.z;
        }
        if r.x > redges.e {
            redges.e = r.x;
        }
        if r.z > redges.s {
            redges.s = r.z;
        }
        if r.x < redges.w {
            redges.w = r.x;
        }
        k = k + 1;
    }
    redges
}

/// Whether the regions lie near enough to the origin, and their boxes inside
/// of a region's grid.
fn regions_in_range(regions: &Vec<(Pair<isize>, Region)>) -> (b: bool)
    ensures
        b == spec_regions_in_range(regions@),
{
    let mut k: usize = 0;
    while k < regions.len()
        invariant
            k <= regions.len(),
            spec_regions_in_range(regions@.subrange(0, k as int)),
        decreases regions.len() - k,
    {
        let r: Pair<isize> = regions[k].0;
        let c: Edges<usize> = regions[k].1.cedges;
        if r.x < -MAX_REGION_COORD || r.x > MAX_REGION_COORD || r.z < -MAX_REGION_COORD || r.z
            > MAX_REGION_COORD || c.n >= CHUNKS_IN_REGION || c.e >= CHUNKS_IN_REGION || c.s
            >= CHUNKS_IN_REGION || c.w >= CHUNKS_IN_REGION {
            return false;
        }
        assert forall|i: int| 0 <= i < k + 1 implies {
            &&& -MAX_REGION_COORD <= (#[trigger] regions@.subrange(0, k + 1)[i]).0.x
                <= MAX_REGION_COORD
            &&& -MAX_REGION_COORD <= regions@.subrange(0, k + 1)[i].0.z <= MAX_REGION_COORD
            &&& regions@.subrange(0, k + 1)[i].1.cedges.n < CHUNKS_IN_REGION
            &&& regions@.subrange(0, k + 1)[i].1.cedges.e < CHUNKS_IN_REGION
            &&& regions@.subrange(0, k + 1)[i].1.cedges.s < CHUNKS_IN_REGION
            &&& regions@.subrange(0, k + 1)[i].1.cedges.w < CHUNKS_IN_REGION
        } by {
            if i < k {
                assert(regions@.subrange(0, k as int)[i] == regions@[i]);
            }
        }
        k = k + 1;
    }
    assert(regions@.subrange(0, regions.len() as int) =~= regions@);
    true
}

/// The bounds of the chunks of `regions`, from the regions along the sides
/// of `redges`.
fn chunk_edges(regions: &Vec<(Pair<isize>, Region)>, redges: &Edges<isize>) -> (cedges: Edges<isize>)
    requires
        spec_regions_in_range(regions@),
        spec_is_region_edges(*redges, regions@),
    ensures
        spec_is_chunk_edges(cedges, *redges, regions@),
        -MAX_REGION_COORD * 32 <= cedges.n <= MAX_REGION_COORD * 32 + 31,
        -MAX_REGION_COORD * 32 <= cedges.e <= MAX_REGION_COORD * 32 + 31,
        -MAX_REGION_COORD * 32 <= cedges.s <= MAX_REGION_COORD * 32 + 31,
        -MAX_REGION_COORD * 32 <= cedges.w <= MAX_REGION_COORD * 32 + 31,
{
    let mut n: Option<isize> = None;
    let mut e: Option<isize> = None;
    let mut s: Option<isize> = None;
    let mut w: Option<isize> = None;
    let mut k: usize = 0;
    while k < regions.len()
        invariant
            k <= regions.len(),
            spec_regions_in_range(regions@),
            match n {
                None => forall|i: int| 0 <= i < k ==> (#[trigger] regions[i]).0.z != redges.n,
                Some(v) => (forall|i: int|
                    0 <= i < k && (#[trigger] regions[i]).0.z == redges.n ==> v <= spec_chunk_n(
                        regions[i],
                    )) && (exists|i: int|
                    0 <= i < k && (#[trigger] regions[i]).0.z == redges.n && v == spec_chunk_n(
                        regions[i],
                    )),
            },
            match e {
                None => forall|i: int| 0 <= i < k ==> (#[trigger] regions[i]).0.x != redges.e,
                Some(v) => (forall|i: int|
                    0 <= i < k && (#[trigger] regions[i]).0.x == redges.e ==> v >= spec_chunk_e(
                        regions[i],
                    )) && (exists|i: int|
                    0 <= i < k && (#[trigger] regions[i]).0.x == redges.e && v == spec_chunk_e(
                        regions[i],
                    )),
            },
            match s {
                None => forall|i: int| 0 <= i < k ==> (#[trigger] regions[i]).0.z != redges.s,
                Some(v) => (forall|i: int|
                    0 <= i < k && (#[trigger] regions[i]).0.z == redges.s ==> v >= spec_chunk_s(
                        regions[i],
                    )) && (exists|i: int|
                    0 <= i < k && (#[trigger] regions[i]).0.z == redges.s && v == spec_chunk_s(
                        regions[i],
                    )),
            },
            match w {
                None => forall|i: int| 0 <= i < k ==> (#[trigger] regions[i]).0.x != redges.w,
                Some(v) => (forall|i: int|
                    0 <= i < k && (#[trigger] regions[i]).0.x == redges.w ==> v <= spec_chunk_w(
                        regions[i],
                    )) && (exists|i: int|
                    0 <= i < k && (#[trigger] regions[i]).0.x == redges.w && v == spec_chunk_w(
                        regions[i],
                    )),
            },
        decreases regions.len() - k,
    {
        let r: Pair<isize> = regions[k].0;
        let c: Edges<usize> = regions[k].1.cedges;
        assert(-MAX_REGION_COORD <= regions@[k as int].0.x <= MAX_REGION_COORD);
        let base_x: isize = r.x * 32;
        let base_z: isize = r.z * 32;
        if r.z == redges.n {
            let v: isize = base_z + c.n as isize;
            n = match n {
                Some(old_v) => if old_v <= v {
                    Some(old_v)
                } else {
                    Some(v)
                },
                None => Some(v),
            };
        }
        if r.x == redges.e {
            let v: isize = base_x + c.e as isize;
            e = match e {
                Some(old_v) => if old_v >= v {
                    Some(old_v)
                } else {
                    Some(v)
                },
                None => Some(v),
            };
        }
        if r.z == redges.s {
            let v: isize = base_z + c.s as isize;
            s = match s {
                Some(old_v) => if old_v >= v {
                    Some(old_v)
                } else {
                    Some(v)
                },
                None => Some(v),
            };
        }
        if r.x == redges.w {
            let v: isize = base_x + c.w as isize;
            w = match w {
                Some(old_v) => if old_v <= v {
                    Some(old_v)
                } else {
                    Some(v)
                },
                None => Some(v),
            };
        }
        k = k + 1;
    }
    Edges { n: n.unwrap(), e: e.unwrap(), s: s.unwrap(), w: w.unwrap() }
}

/// Whether `res` is what the regions `regions` make of a world: a world
/// with the bounds of the regions where it can be drawn; no world where
/// there are no regions or the block limits leave nothing of them; and a bad
/// length where a region lies too far out, the limits leave out a whole
/// border chunk, or the layers do not lie in the world.
pub open spec fn spec_world_outcome(
    res: Result<Option<World>, NbtError>,
    regions: Seq<(Pair<isize>, Region)>,
    blimits: Option<Edges<isize>>,
    ylimits: Range<usize>,
) -> bool {
    match res {
        Ok(Some(world)) => spec_regions_in_range(regions) && spec_is_world(
            world,
            regions,
            blimits,
            ylimits,
        ) && world.spec_drawable(),
        Ok(None) => regions.len() == 0 || (spec_regions_in_range(regions) && spec_nothing_left(
            regions,
            blimits,
        )),
        Err(e) => e == NbtError::BadLength && regions.len() != 0 && (!spec_regions_in_range(regions)
            || spec_not_drawable(regions, blimits, ylimits)),
    }
}

/// Whether the block limits leave nothing of the regions' chunks.
pub open spec fn spec_nothing_left(
    regions: Seq<(Pair<isize>, Region)>,
    blimits: Option<Edges<isize>>,
) -> bool {
    &&& exists|redges: Edges<isize>, cedges: Edges<isize>|
        spec_is_region_edges(redges, regions) && #[trigger] spec_is_chunk_edges(
            cedges,
            redges,
            regions,
        )
    &&& forall|redges: Edges<isize>, cedges: Edges<isize>|
        spec_is_region_edges(redges, regions) && #[trigger] spec_is_chunk_edges(
            cedges,
            redges,
            regions,
        ) ==> spec_block_edges(cedges, blimits).w > spec_block_edges(cedges, blimits).e
            || spec_block_edges(cedges, blimits).n > spec_block_edges(cedges, blimits).s
}

/// Whether the block limits leave something of the regions' chunks that
/// cannot be drawn: the limits leave out a whole border chunk, or the layers
/// do not lie in the world.
pub open spec fn spec_not_drawable(
    regions: Seq<(Pair<isize>, Region)>,
    blimits: Option<Edges<isize>>,
    ylimits: Range<usize>,
) -> bool {
    &&& exists|redges: Edges<isize>, cedges: Edges<isize>|
        spec_is_region_edges(redges, regions) && #[trigger] spec_is_chunk_edges(
            cedges,
            redges,
            regions,
        )
    &&& forall|redges: Edges<isize>, cedges: Edges<isize>|
        spec_is_region_edges(redges, regions) && #[trigger] spec_is_chunk_edges(
            cedges,
            redges,
            regions,
        ) ==> spec_block_edges(cedges, blimits).w <= spec_block_edges(cedges, blimits).e
            && spec_block_edges(cedges, blimits).n <= spec_block_edges(cedges, blimits).s
            && !spec_edges_drawable(cedges, blimits, ylimits)
}

/// Works out the bounds of a world from its regions: the bounds in regions,
/// from them the bounds in chunks, from them the bounds in blocks, cut down
/// to the block limits, and the sizes of all three. No world where there are
/// no regions, or where the limits leave nothing of them.
pub fn world_from_regions(
    regions: Vec<(Pair<isize>, Region)>,
    blimits: &Option<Edges<isize>>,
    ylimits: Range<usize>,
) -> (res: Result<Option<World>, NbtError>)
    ensures
        spec_world_outcome(res, regions@, *blimits, ylimits),
{
    if regions.len() == 0 {
        return Ok(None);
    }
    if !regions_in_range(&regions) {
        return Err(NbtError::BadLength);
    }
    let redges: Edges<isize> = region_edges(&regions);
    let cedges: Edges<isize> = chunk_edges(&regions, &redges);
    let cbedges: Edges<isize> = Edges {
        n: cedges.n * 16,
        e: cedges.e * 16 + 15,
        s: cedges.s * 16 + 15,
        w: cedges.w * 16,
    };
    let bedges: Edges<isize> = match blimits {
        Some(b) => Edges {
            n: if cbedges.n >= b.n {
                cbedges.n
            } else {
                b.n
            },
            e: if cbedges.e <= b.e {
                cbedges.e
            } else {
                b.e
            },
            s: if cbedges.s <= b.s {
                cbedges.s
            } else {
                b.s
            },
            w: if cbedges.w >= b.w {
                cbedges.w
            } else {
                b.w
            },
        },
        None => cbedges,
    };
    if bedges.w > bedges.e || bedges.n > bedges.s {
        proof {
            assert forall|redges2: Edges<isize>, cedges2: Edges<isize>|
                spec_is_region_edges(redges2, regions@) && #[trigger] spec_is_chunk_edges(
                    cedges2,
                    redges2,
                    regions@,
                ) implies spec_block_edges(cedges2, *blimits).w > spec_block_edges(
                cedges2,
                *blimits,
            ).e || spec_block_edges(cedges2, *blimits).n > spec_block_edges(
                cedges2,
                *blimits,
            ).s by {
                lemma_edges_unique(redges, cedges, redges2, cedges2, regions@);
            }
        }
        return Ok(None);
    }
    if !(block_to_chunk(bedges.n) == cedges.n && block_to_chunk(bedges.e) == cedges.e
        && block_to_chunk(bedges.s) == cedges.s && block_to_chunk(bedges.w) == cedges.w
        && ylimits.start <= ylimits.end && ylimits.end <= BLOCKS_IN_CHUNK_Y) {
        proof {
            assert forall|redges2: Edges<isize>, cedges2: Edges<isize>|
                spec_is_region_edges(redges2, regions@) && #[trigger] spec_is_chunk_edges(
                    cedges2,
                    redges2,
                    regions@,
                ) implies spec_block_edges(cedges2, *blimits).w <= spec_block_edges(
                cedges2,
                *blimits,
            ).e && spec_block_edges(cedges2, *blimits).n <= spec_block_edges(
                cedges2,
                *blimits,
            ).s && !spec_edges_drawable(cedges2, *blimits, ylimits) by {
                lemma_edges_unique(redges, cedges, redges2, cedges2, regions@);
            }
        }
        return Err(NbtError::BadLength);
    }
    assert(redges.ordered());
    assert(cedges.ordered());
    assert(bedges.ordered());
    let rsize: Pair<usize> = redges.size();
    let csize: Pair<usize> = cedges.size();
    let bsize: Pair<usize> = bedges.size();
    Ok(Some(World { regions, redges, cedges, bedges, rsize, csize, bsize, ylimits }))
}

/// The regions of a world have one set of bounds.
pub proof fn lemma_edges_unique(
    redges: Edges<isize>,
    cedges: Edges<isize>,
    redges2: Edges<isize>,
    cedges2: Edges<isize>,
    regions: Seq<(Pair<isize>, Region)>,
)
    requires
        spec_is_region_edges(redges, regions),
        spec_is_chunk_edges(cedges, redges, regions),
        spec_is_region_edges(redges2, regions),
        spec_is_chunk_edges(cedges2, redges2, regions),
    ensures
        redges == redges2,
        cedges == cedges2,
{
}

/// Works out the world of a region directory from its files, each a name
/// and its bytes. No world where no file holds a chunk inside the limits;
/// a bad length only where a region lies too far out or the layers do not
/// lie in the world.
pub fn get_world(
    files: &Vec<(String, Vec<u8>)>,
    blimits: &Option<Edges<isize>>,
    ylimits: Range<usize>,
) -> (res: Result<Option<World>, NbtError>)
    ensures
        match spec_world_regions(files@, *blimits, files.len() as int) {
            Ok(regions) => spec_world_outcome(res, regions, *blimits, ylimits) && (res is Err
                ==> !spec_regions_in_range(regions) || !(ylimits.start <= ylimits.end
                <= BLOCKS_IN_CHUNK_Y)),
            Err(e) => res matches Err(err) && err == e,
        },
{
    let regions: Vec<(Pair<isize>, Region)> = read_world_regions(files, blimits)?;
    let ghost listed = regions@;
    let res = world_from_regions(regions, blimits, ylimits);
    proof {
        lemma_world_regions_within(files@, *blimits, files.len() as int);
        if res is Err && spec_regions_in_range(listed) && ylimits.start <= ylimits.end
            <= BLOCKS_IN_CHUNK_Y {
            let (redges, cedges) = choose|redges: Edges<isize>, cedges: Edges<isize>|
                spec_is_region_edges(redges, listed) && #[trigger] spec_is_chunk_edges(
                    cedges,
                    redges,
                    listed,
                );
            lemma_scanned_world_drawable(listed, *blimits, ylimits, redges, cedges);
            assert(false);
        }
    }
    res
}

/// Whether a region lies inside the block limits and its box of chunks
/// inside the cells that the limits reach.
pub open spec fn spec_entry_within(entry: (Pair<isize>, Region), blimits: Option<Edges<isize>>) -> bool {
    &&& spec_region_in_limits(entry.0, blimits)
    &&& spec_region_scan_limits(entry.0, blimits).w <= entry.1.cedges.w
    &&& entry.1.cedges.e <= spec_region_scan_limits(entry.0, blimits).e
    &&& spec_region_scan_limits(entry.0, blimits).n <= entry.1.cedges.n
    &&& entry.1.cedges.s <= spec_region_scan_limits(entry.0, blimits).s
}

/// What a file adds to a world's regions lies inside the block limits.
pub proof fn lemma_file_entry_within(name: Seq<char>, file: Seq<u8>, blimits: Option<Edges<isize>>)
    ensures
        spec_file_entry(name, file, blimits) matches Ok(Some(entry)) ==> spec_entry_within(
            entry,
            blimits,
        ),
{
    if let Ok(Some(entry)) = spec_file_entry(name, file, blimits) {
        let limits = spec_region_scan_limits(entry.0, blimits);
        let cedges = entry.1.cedges;
        assert(spec_is_box(cedges, file, limits));
    }
}

/// The regions that the files of a region directory give lie inside the
/// block limits.
pub proof fn lemma_world_regions_within(
    files: Seq<(String, Vec<u8>)>,
    blimits: Option<Edges<isize>>,
    count: int,
)
    ensures
        spec_world_regions(files, blimits, count) matches Ok(regions) ==> forall|i: int|
            0 <= i < regions.len() ==> spec_entry_within(#[trigger] regions[i], blimits),
    decreases count,
{
    if count > 0 {
        lemma_world_regions_within(files, blimits, count - 1);
        lemma_file_entry_within(files[count - 1].0@, files[count - 1].1@, blimits);
        if let Ok(regions) = spec_world_regions(files, blimits, count - 1) {
            if let Ok(Some(entry)) = spec_file_entry(
                files[count - 1].0@,
                files[count - 1].1@,
                blimits,
            ) {
                lemma_region_index_in_range(regions, entry.0, 0);
            }
        }
    }
}

/// The place of a region that a search finds lies in the list.
pub proof fn lemma_region_index_in_range(
    regions: Seq<(Pair<isize>, Region)>,
    r: Pair<isize>,
    from: int,
)
    requires
        0 <= from,
    ensures
        spec_region_index(regions, r, from) matches Some(i) ==> from <= i < regions.len(),
    decreases regions.len() - from,
{
    if from < regions.len() && regions[from].0 != r {
        lemma_region_index_in_range(regions, r, from + 1);
    }
}

/// The bounds in chunks of regions that lie inside the block limits leave,
/// cut down to those limits, a block of each border chunk: the block limits
/// never leave out a whole border chunk of a world that was scanned inside
/// them.
pub proof fn lemma_scanned_world_drawable(
    regions: Seq<(Pair<isize>, Region)>,
    blimits: Option<Edges<isize>>,
    ylimits: Range<usize>,
    redges: Edges<isize>,
    cedges: Edges<isize>,
)
    requires
        spec_regions_in_range(regions),
        forall|i: int| 0 <= i < regions.len() ==> spec_entry_within(#[trigger] regions[i], blimits),
        spec_is_region_edges(redges, regions),
        spec_is_chunk_edges(cedges, redges, regions),
        ylimits.start <= ylimits.end <= BLOCKS_IN_CHUNK_Y,
    ensures
        spec_edges_drawable(cedges, blimits, ylimits),
{
    match blimits {
        None => {},
        Some(b) => {
            let i_n = choose|i: int|
                0 <= i < regions.len() && (#[trigger] regions[i]).0.z == redges.n && cedges.n
                    == spec_chunk_n(regions[i]);
            let i_e = choose|i: int|
                0 <= i < regions.len() && (#[trigger] regions[i]).0.x == redges.e && cedges.e
                    == spec_chunk_e(regions[i]);
            let i_s = choose|i: int|
                0 <= i < regions.len() && (#[trigger] regions[i]).0.z == redges.s && cedges.s
                    == spec_chunk_s(regions[i]);
            let i_w = choose|i: int|
                0 <= i < regions.len() && (#[trigger] regions[i]).0.x == redges.w && cedges.w
                    == spec_chunk_w(regions[i]);
            assert(spec_entry_within(regions[i_n], blimits));
            assert(spec_entry_within(regions[i_e], blimits));
            assert(spec_entry_within(regions[i_s], blimits));
            assert(spec_entry_within(regions[i_w], blimits));
            let bn = b.n as int;
            let be = b.e as int;
            let bs = b.s as int;
            let bw = b.w as int;
            assert((bn / 16) / 32 == bn / 512 && (be / 16) / 32 == be / 512 && (bs / 16) / 32 == bs
                / 512 && (bw / 16) / 32 == bw / 512);
            assert(cedges.w >= bw / 16);
            assert(cedges.n >= bn / 16);
            assert(cedges.e <= be / 16);
            assert(cedges.s <= bs / 16);
        },
    }
}

/// Whether `regions` lists a region of the coordinates `r`.
pub open spec fn spec_listed(regions: Seq<(Pair<isize>, Region)>, r: Pair<isize>) -> bool {
    exists|i: int| 0 <= i < regions.len() && (#[trigger] regions[i]).0 == r
}

/// The coordinates of the regions in the row `z` between the columns `from`
/// and `e`, from the east back to the west.
pub open spec fn spec_row_order(
    regions: Seq<(Pair<isize>, Region)>,
    z: int,
    from: int,
    e: int,
) -> Seq<Pair<isize>>
    decreases e - from + 1,
{
    if from > e {
        Seq::empty()
    } else {
        let rest = spec_row_order(regions, z, from + 1, e);
        let r = Pair { x: from as isize, z: z as isize };
        if spec_listed(regions, r) {
            rest.push(r)
        } else {
            rest
        }
    }
}

/// The coordinates of the regions inside the bounds `redges` from the row
/// `from` on, from the south back to the north, and in each row from the east
/// back to the west.
pub open spec fn spec_rows_order(
    redges: Edges<isize>,
    regions: Seq<(Pair<isize>, Region)>,
    from: int,
) -> Seq<Pair<isize>>
    decreases redges.s - from + 1,
{
    if from > redges.s {
        Seq::empty()
    } else {
        spec_rows_order(redges, regions, from + 1) + spec_row_order(
            regions,
            from,
            redges.w as int,
            redges.e as int,
        )
    }
}

/// The order in which the regions of a world are drawn: those inside the
/// bounds `redges`, from the south-eastern back to the north-western, row by
/// row.
pub open spec fn spec_region_order(
    redges: Edges<isize>,
    regions: Seq<(Pair<isize>, Region)>,
) -> Seq<Pair<isize>> {
    spec_rows_order(redges, regions, redges.n as int)
}

/// Whether `a` is drawn before `b`: it lies further south, or in the same
/// row further east.
pub open spec fn spec_drawn_before(a: Pair<isize>, b: Pair<isize>) -> bool {
    a.z > b.z || (a.z == b.z && a.x > b.x)
}

/// Whether `order` lists, each once and each before those north or west of
/// it, the coordinates of the regions of `regions` in the rows from `from` to
/// `s` and the columns from `w` to `e`.
pub open spec fn spec_is_order(
    order: Seq<Pair<isize>>,
    regions: Seq<(Pair<isize>, Region)>,
    from: int,
    s: int,
    w: int,
    e: int,
) -> bool {
    &&& forall|i: int, j: int|
        0 <= i < j < order.len() ==> spec_drawn_before(#[trigger] order[i], #[trigger] order[j])
    &&& forall|i: int|
        0 <= i < order.len() ==> from <= (#[trigger] order[i]).z <= s && w <= order[i].x <= e
            && spec_listed(regions, order[i])
    &&& forall|r: Pair<isize>|
        from <= r.z <= s && w <= r.x <= e && #[trigger] spec_listed(regions, r) ==> order.contains(
            r,
        )
}

/// A row of the drawing order lists the regions of that row, each once,
/// from the east back to the west.
pub proof fn lemma_row_order(regions: Seq<(Pair<isize>, Region)>, z: int, from: int, e: int)
    requires
        isize::MIN <= z <= isize::MAX,
        isize::MIN <= from,
        e <= isize::MAX,
    ensures
        spec_is_order(spec_row_order(regions, z, from, e), regions, z, z, from, e),
    decreases e - from + 1,
{
    let row = spec_row_order(regions, z, from, e);
    if from <= e {
        lemma_row_order(regions, z, from + 1, e);
        let rest = spec_row_order(regions, z, from + 1, e);
        let r = Pair { x: from as isize, z: z as isize };
        assert forall|q: Pair<isize>|
            z <= q.z <= z && from <= q.x <= e && #[trigger] spec_listed(
                regions,
                q,
            ) implies row.contains(q) by {
            if q.x == from {
                assert(q == r);
                assert(row[row.len() - 1] == r);
            } else {
                assert(rest.contains(q));
                let i = choose|i: int| 0 <= i < rest.len() && rest[i] == q;
                assert(row[i] == q);
            }
        }
    }
}

/// The drawing order lists the regions inside the bounds, each once, and
/// each before those north or west of it.
pub proof fn lemma_rows_order(redges: Edges<isize>, regions: Seq<(Pair<isize>, Region)>, from: int)
    requires
        isize::MIN <= from,
    ensures
        spec_is_order(
            spec_rows_order(redges, regions, from),
            regions,
            from,
            redges.s as int,
            redges.w as int,
            redges.e as int,
        ),
    decreases redges.s - from + 1,
{
    let order = spec_rows_order(redges, regions, from);
    let w = redges.w as int;
    let e = redges.e as int;
    if from <= redges.s {
        lemma_rows_order(redges, regions, from + 1);
        lemma_row_order(regions, from, w, e);
        let rest = spec_rows_order(redges, regions, from + 1);
        let row = spec_row_order(regions, from, w, e);
        assert forall|i: int| 0 <= i < order.len() implies from <= (#[trigger] order[i]).z
            <= redges.s && w <= order[i].x <= e && spec_listed(regions, order[i]) by {
            if i < rest.len() {
                assert(order[i] == rest[i]);
            } else {
                assert(order[i] == row[i - rest.len()]);
            }
        }
        assert forall|i: int, j: int| 0 <= i < j < order.len() implies spec_drawn_before(
            #[trigger] order[i],
            #[trigger] order[j],
        ) by {
            if j < rest.len() {
                assert(order[i] == rest[i] && order[j] == rest[j]);
            } else if i < rest.len() {
                assert(order[i] == rest[i] && order[j] == row[j - rest.len()]);
            } else {
                assert(order[i] == row[i - rest.len()] && order[j] == row[j - rest.len()]);
            }
        }
        assert forall|q: Pair<isize>|
            from <= q.z <= redges.s && w <= q.x <= e && #[trigger] spec_listed(
                regions,
                q,
            ) implies order.contains(q) by {
            if q.z == from {
                assert(row.contains(q));
                let i = choose|i: int| 0 <= i < row.len() && row[i] == q;
                assert(order[rest.len() + i] == q);
            } else {
                assert(rest.contains(q));
                let i = choose|i: int| 0 <= i < rest.len() && rest[i] == q;
                assert(order[i] == q);
            }
        }
    }
}

/// The coordinates of the regions of a world in the order in which they are
/// drawn: from the south-eastern back to the north-western, row by row, so
/// that what lies in front is drawn over what lies behind. Each region
/// inside the world's bounds comes once.
pub fn region_order(world: &World) -> (order: Vec<Pair<isize>>)
    ensures
        order@ == spec_region_order(world.redges, world.regions@),
        spec_is_order(
            order@,
            world.regions@,
            world.redges.n as int,
            world.redges.s as int,
            world.redges.w as int,
            world.redges.e as int,
        ),
{
    let redges: Edges<isize> = world.redges;
    let mut order: Vec<Pair<isize>> = Vec::new();
    let mut rz: i128 = redges.s as i128;
    while rz >= redges.n as i128
        invariant
            redges == world.redges,
            rz <= redges.s,
            rz == redges.s || redges.n - 1 <= rz,
            order@ == spec_rows_order(redges, world.regions@, rz + 1),
        decreases rz - redges.n + 1,
    {
        let ghost before = order@;
        let mut rx: i128 = redges.e as i128;
        while rx >= redges.w as i128
            invariant
                redges == world.redges,
                redges.n <= rz <= redges.s,
                rx <= redges.e,
                rx == redges.e || redges.w - 1 <= rx,
                order@ == before + spec_row_order(
                    world.regions@,
                    rz as int,
                    rx + 1,
                    redges.e as int,
                ),
            decreases rx - redges.w + 1,
        {
            let ghost row = spec_row_order(world.regions@, rz as int, rx + 1, redges.e as int);
            let r: Pair<isize> = Pair { x: rx as isize, z: rz as isize };
            if world.has_region(&r) {
                order.push(r);
                assert(order@ =~= before + row.push(r));
            }
            rx = rx - 1;
        }
        rz = rz - 1;
    }
    proof {
        lemma_rows_order(redges, world.regions@, redges.n as int);
    }
    order
}

} // verus!
