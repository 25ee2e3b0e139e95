use std::ops::Range;
use vstd::prelude::*;
use vstd::view::View as _;

use crate::sizes::{BLOCKS_IN_CHUNK_Y, MAX_BLOCK_IN_CHUNK_Y};
use crate::types::Edges;

verus! {

/// From where the world is seen.
#[derive(Clone, Copy, Debug, PartialEq, Eq)]
pub enum View {
    Isometric,
    Orthographic,
}

/// In which light the world is seen.
#[derive(Clone, Copy, Debug, PartialEq, Eq)]
pub enum Lighting {
    Day,
    Night,
    Nether,
    End,
}

/// What is drawn, from where and into which file.
pub struct Options {
    pub inpath: String,
    pub outpath: String,
    pub view: View,
    pub lighting: Lighting,
    pub blimits: Option<Edges<isize>>,
    pub ylimits: Range<usize>,
}

impl View {
    /// The name of the view.
    pub fn name(&self) -> (r: String)
        ensures
            r@ == (match self {
                View::Isometric => "Isometric"@,
                View::Orthographic => "Orthographic"@,
            }),
    {
        match self {
            View::Isometric => "Isometric".to_owned(),
            View::Orthographic => "Orthographic".to_owned(),
        }
    }
}

impl Lighting {
    /// The name of the lighting.
    pub fn name(&self) -> (r: String)
        ensures
            r@ == (match self {
                Lighting::Day => "Day"@,
                Lighting::Night => "Night"@,
                Lighting::Nether => "Nether"@,
                Lighting::End => "End"@,
            }),
    {
        match self {
            Lighting::Day => "Day".to_owned(),
            Lighting::Night => "Night".to_owned(),
            Lighting::Nether => "Nether".to_owned(),
            Lighting::End => "End".to_owned(),
        }
    }
}

/// The lighting of a world: that of the dimension that the directory's name
/// stands for, `DIM-1` the Nether and `DIM1` the End, and else night or day
/// as asked for.
pub open spec fn spec_lighting(stem: Option<Seq<char>>, night: bool) -> Lighting {
    if stem == Some("DIM-1"@) {
        Lighting::Nether
    } else if stem == Some("DIM1"@) {
        Lighting::End
    } else if night {
        Lighting::Night
    } else {
        Lighting::Day
    }
}

/// The smaller of two numbers.
pub open spec fn spec_min(a: int, b: int) -> int {
    if a <= b {
        a
    } else {
        b
    }
}

/// The larger of two numbers.
pub open spec fn spec_max(a: int, b: int) -> int {
    if a >= b {
        a
    } else {
        b
    }
}

/// The block limits that two corners `(x1, z1)` and `(x2, z2)` span.
pub open spec fn spec_blimits(corners: (isize, isize, isize, isize)) -> Edges<isize> {
    Edges {
        n: spec_min(corners.1 as int, corners.3 as int) as isize,
        e: spec_max(corners.0 as int, corners.2 as int) as isize,
        s: spec_max(corners.1 as int, corners.3 as int) as isize,
        w: spec_min(corners.0 as int, corners.2 as int) as isize,
    }
}

/// The layers between two heights, both included and neither above the top
/// of the world; all layers where no heights are given.
pub open spec fn spec_ylimits(heights: Option<(usize, usize)>) -> Range<usize> {
    match heights {
        Some((a, b)) => {
            let y1 = spec_min(a as int, MAX_BLOCK_IN_CHUNK_Y as int);
            let y2 = spec_min(b as int, MAX_BLOCK_IN_CHUNK_Y as int);
            (spec_min(y1, y2) as usize)..((spec_max(y1, y2) + 1) as usize)
        },
        None => 0..BLOCKS_IN_CHUNK_Y,
    }
}

fn same_text(a: &str, b: &str) -> (r: bool)
    ensures
        r == (a@ == b@),
{
    a.to_owned() == b.to_owned()
}

/// Puts the options together from what the command line gave: the two
/// paths, the name of the input directory without its extension, whether the
/// isometric view and night were asked for, two corners of the block limits
/// and two heights.
pub fn get_options(
    inpath: String,
    outpath: String,
    stem: Option<&str>,
    isometric: bool,
    night: bool,
    corners: Option<(isize, isize, isize, isize)>,
    heights: Option<(usize, usize)>,
) -> (options: Options)
    ensures
        options.inpath == inpath,
        options.outpath == outpath,
        options.view == (if isometric {
            View::Isometric
        } else {
            View::Orthographic
        }),
        options.lighting == spec_lighting(
            match stem {
                Some(s) => Some(s@),
                None => None,
            },
            night,
        ),
        options.blimits == (match corners {
            Some(c) => Some(spec_blimits(c)),
            None => None,
        }),
        options.ylimits == spec_ylimits(heights),
        options.ylimits.start < options.ylimits.end <= BLOCKS_IN_CHUNK_Y,
{
    let nether: bool = match stem {
        Some(s) => same_text(s, "DIM-1"),
        None => false,
    };
    let end: bool = match stem {
        Some(s) => same_text(s, "DIM1"),
        None => false,
    };
    let lighting: Lighting = if nether {
        Lighting::Nether
    } else if end {
        Lighting::End
    } else if night {
        Lighting::Night
    } else {
        Lighting::Day
    };
    let blimits: Option<Edges<isize>> = match corners {
        Some((x1, z1, x2, z2)) => Some(
            Edges {
                n: if z1 <= z2 {
                    z1
                } else {
                    z2
                },
                e: if x1 >= x2 {
                    x1
                } else {
                    x2
                },
                s: if z1 >= z2 {
                    z1
                } else {
                    z2
                },
                w: if x1 <= x2 {
                    x1
                } else {
                    x2
                },
            },
        ),
        None => None,
    };
    let ylimits: Range<usize> = match heights {
        Some((a, b)) => {
            let y1: usize = if a <= MAX_BLOCK_IN_CHUNK_Y {
                a
            } else {
                MAX_BLOCK_IN_CHUNK_Y
            };
            let y2: usize = if b <= MAX_BLOCK_IN_CHUNK_Y {
                b
            } else {
                MAX_BLOCK_IN_CHUNK_Y
            };
            if y1 <= y2 {
                y1..(y2 + 1)
            } else {
                y2..(y1 + 1)
            }
        },
        None => 0..BLOCKS_IN_CHUNK_Y,
    };
    Options {
        inpath,
        outpath,
        view: if isometric {
            View::Isometric
        } else {
            View::Orthographic
        },
        lighting,
        blimits,
        ylimits,
    }
}

} // verus!
