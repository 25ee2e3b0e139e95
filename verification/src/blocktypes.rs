use vstd::prelude::*;

use crate::color::RGBA;
use crate::sizes::{BIOME_ARRAY_SIZE, ISO_BLOCK_HEIGHT, ISO_BLOCK_WIDTH, LIGHT_LEVELS};

verus! {

/// How many colours a block type has for one biome and one pair of light
/// levels: one for each digit of a shape.
pub const COLOR_VARIANTS: usize = 7;

/// How many colours a block type has in all.
pub const COLORS_IN_BLOCK_TYPE: usize = 304640;

/// One kind of block: its name, the state that tells it from the other
/// kinds of that name, and how it is drawn. `colors` holds one colour for
/// each biome, skylight, blocklight and variant, in that order of indices;
/// `shape[x][y]` is the variant that paints the pixel at `(x, y)` of the
/// block's isometric footprint, 0 leaving it blank.
pub struct BlockType {
    pub name: String,
    pub colors: Vec<RGBA>,
    pub state: Vec<(String, String)>,
    pub shape: [[usize; ISO_BLOCK_HEIGHT]; ISO_BLOCK_WIDTH],
    pub solid: bool,
    pub empty: bool,
    pub waterlogged: bool,
}

/// Two block types are the same where their names are.
impl PartialEq for BlockType {
    fn eq(&self, other: &BlockType) -> (r: bool) {
        self.name == other.name
    }
}

impl vstd::std_specs::cmp::PartialEqSpecImpl for BlockType {
    open spec fn obeys_eq_spec() -> bool {
        true
    }

    open spec fn eq_spec(&self, other: &BlockType) -> bool {
        self.name@ == other.name@
    }
}

/// The place in `colors` of the colour for a biome, two light levels and a
/// variant.
pub open spec fn spec_color_index(biome: int, slight: int, blight: int, variant: int) -> int {
    ((biome * 16 + slight) * 16 + blight) * 7 + variant
}

/// The place in `colors` of the colour for a biome, two light levels and a
/// variant.
pub fn color_index(biome: usize, slight: usize, blight: usize, variant: usize) -> (i: usize)
    requires
        biome < BIOME_ARRAY_SIZE,
        slight < LIGHT_LEVELS,
        blight < LIGHT_LEVELS,
        variant < COLOR_VARIANTS,
    ensures
        i == spec_color_index(biome as int, slight as int, blight as int, variant as int),
        i < COLORS_IN_BLOCK_TYPE,
{
    ((biome * 16 + slight) * 16 + blight) * 7 + variant
}

/// The value that `props` gives to `key`: that of the last property of that
/// name.
pub open spec fn spec_prop_get(props: Seq<(Seq<char>, Seq<char>)>, key: Seq<char>) -> Option<
    Seq<char>,
>
    decreases props.len(),
{
    if props.len() == 0 {
        None
    } else if props.last().0 == key {
        Some(props.last().1)
    } else {
        spec_prop_get(props.drop_last(), key)
    }
}

/// The names and values of `props` as the matching rules see them.
pub open spec fn prop_views(props: Seq<(String, String)>) -> Seq<(Seq<char>, Seq<char>)> {
    Seq::new(props.len(), |i: int| (props[i].0@, props[i].1@))
}

impl BlockType {
    /// Whether the table of colours is complete and the shape holds
    /// variants only.
    pub open spec fn wf(&self) -> bool {
        &&& self.colors.len() == COLORS_IN_BLOCK_TYPE
        &&& forall|x: int, y: int|
            0 <= x < ISO_BLOCK_WIDTH && 0 <= y < ISO_BLOCK_HEIGHT ==> (#[trigger] self.shape[x][y])
                < COLOR_VARIANTS
    }

    /// The colour for a biome, two light levels and a variant.
    pub open spec fn spec_color(&self, biome: int, slight: int, blight: int, variant: int) -> RGBA {
        self.colors[spec_color_index(biome, slight, blight, variant)]
    }

    /// Whether a palette entry of the name `name` and the properties `props`
    /// stands for this block type: the name is the same and every state of
    /// the type is among the properties, with the same value.
    pub open spec fn spec_matches(&self, name: Seq<char>, props: Seq<(Seq<char>, Seq<char>)>) -> bool {
        &&& self.name@ == name
        &&& forall|k: int|
            0 <= k < self.state.len() ==> spec_prop_get(props, (#[trigger] self.state[k]).0@)
                == Some(self.state[k].1@)
    }

    /// Whether the table of colours is complete and the shape holds
    /// variants only.
    pub fn is_wf(&self) -> (r: bool)
        ensures
            r == self.wf(),
    {
        if self.colors.len() != COLORS_IN_BLOCK_TYPE {
            return false;
        }
        let mut k: usize = 0;
        while k < 16
            invariant
                k <= 16,
                forall|x: int, y: int|
                    0 <= x < 4 && 0 <= y < 4 && x * 4 + y < k ==> (#[trigger] self.shape[x][y])
                        < COLOR_VARIANTS,
            decreases 16 - k,
        {
            let x: usize = k / 4;
            let y: usize = k % 4;
            if self.shape[x][y] >= COLOR_VARIANTS {
                return false;
            }
            k = k + 1;
        }
        true
    }

    /// The colour for a biome, two light levels and a variant.
    pub fn color(&self, biome: usize, slight: usize, blight: usize, variant: usize) -> (r: &RGBA)
        requires
            self.colors.len() == COLORS_IN_BLOCK_TYPE,
            biome < BIOME_ARRAY_SIZE,
            slight < LIGHT_LEVELS,
            blight < LIGHT_LEVELS,
            variant < COLOR_VARIANTS,
        ensures
            *r == self.spec_color(biome as int, slight as int, blight as int, variant as int),
    {
        &self.colors[color_index(biome, slight, blight, variant)]
    }

    /// Whether a palette entry of the name `name` and the properties `props`
    /// stands for this block type.
    pub fn matches(&self, name: &String, props: &Vec<(String, String)>) -> (r: bool)
        ensures
            r == self.spec_matches(name@, prop_views(props@)),
    {
        if !(self.name == *name) {
            return false;
        }
        let mut k: usize = 0;
        while k < self.state.len()
            invariant
                k <= self.state.len(),
                self.name@ == name@,
                forall|j: int|
                    0 <= j < k ==> spec_prop_get(prop_views(props@), (#[trigger] self.state[j]).0@)
                        == Some(self.state[j].1@),
            decreases self.state.len() - k,
        {
            match prop_get(props, &self.state[k].0) {
                None => {
                    return false;
                },
                Some(v) => {
                    if !(*v == self.state[k].1) {
                        return false;
                    }
                },
            }
            k = k + 1;
        }
        true
    }
}

/// The value that `props` gives to `key`.
fn prop_get<'a>(props: &'a Vec<(String, String)>, key: &String) -> (r: Option<&'a String>)
    ensures
        match r {
            Some(v) => spec_prop_get(prop_views(props@), key@) == Some(v@),
            None => spec_prop_get(prop_views(props@), key@) is None,
        },
{
    let mut i: usize = props.len();
    assert(prop_views(props@).subrange(0, i as int) =~= prop_views(props@));
    while i > 0
        invariant
            i <= props.len(),
            spec_prop_get(prop_views(props@), key@) == spec_prop_get(
                prop_views(props@).subrange(0, i as int),
                key@,
            ),
        decreases i,
    {
        let ghost views = prop_views(props@).subrange(0, i as int);
        assert(views.last() == (props[i - 1].0@, props[i - 1].1@));
        assert(views.drop_last() =~= prop_views(props@).subrange(0, i - 1));
        if props[i - 1].0 == *key {
            return Some(&props[i - 1].1);
        }
        i = i - 1;
    }
    assert(prop_views(props@).subrange(0, 0).len() == 0);
    None
}

/// The first block type of `blocktypes`, from the index `from` on, that a
/// palette entry of the name `name` and the properties `props` stands for.
pub open spec fn spec_find_block_type(
    blocktypes: Seq<BlockType>,
    name: Seq<char>,
    props: Seq<(Seq<char>, Seq<char>)>,
    from: int,
) -> Option<int>
    decreases blocktypes.len() - from,
{
    if from < 0 || from >= blocktypes.len() {
        None
    } else if blocktypes[from].spec_matches(name, props) {
        Some(from)
    } else {
        spec_find_block_type(blocktypes, name, props, from + 1)
    }
}

/// The place that an exec search result stands for.
pub open spec fn spec_place(r: Option<usize>) -> Option<int> {
    match r {
        Some(i) => Some(i as int),
        None => None,
    }
}

/// Finds the first block type that a palette entry of the name `name` and
/// the properties `props` stands for.
pub fn find_block_type(blocktypes: &[BlockType], name: &String, props: &Vec<(String, String)>) -> (r:
    Option<usize>)
    ensures
        spec_place(r) == spec_find_block_type(blocktypes@, name@, prop_views(props@), 0),
        match r {
            Some(i) => i < blocktypes@.len() && blocktypes@[i as int].spec_matches(
                name@,
                prop_views(props@),
            ) && forall|j: int|
                0 <= j < i ==> !(#[trigger] blocktypes@[j]).spec_matches(name@, prop_views(props@)),
            None => forall|j: int|
                0 <= j < blocktypes@.len() ==> !(#[trigger] blocktypes@[j]).spec_matches(
                    name@,
                    prop_views(props@),
                ),
        },
{
    let mut i: usize = 0;
    while i < blocktypes.len()
        invariant
            i <= blocktypes@.len(),
            forall|j: int|
                0 <= j < i ==> !(#[trigger] blocktypes@[j]).spec_matches(name@, prop_views(props@)),
            spec_find_block_type(blocktypes@, name@, prop_views(props@), 0) == spec_find_block_type(
                blocktypes@,
                name@,
                prop_views(props@),
                i as int,
            ),
        decreases blocktypes@.len() - i,
    {
        if blocktypes[i].matches(name, props) {
            return Some(i);
        }
        i = i + 1;
    }
    None
}

/// The name of the block type of water.
pub open spec fn spec_water_name() -> Seq<char> {
    "minecraft:water"@
}

/// Finds the first block type of the name of water.
pub fn find_water(blocktypes: &[BlockType]) -> (r: Option<usize>)
    ensures
        match r {
            Some(i) => i < blocktypes@.len() && blocktypes@[i as int].name@ == spec_water_name()
                && forall|j: int| 0 <= j < i ==> (#[trigger] blocktypes@[j]).name@ != spec_water_name(),
            None => forall|j: int|
                0 <= j < blocktypes@.len() ==> (#[trigger] blocktypes@[j]).name@ != spec_water_name(),
        },
{
    let water: String = "minecraft:water".to_owned();
    let mut i: usize = 0;
    while i < blocktypes.len()
        invariant
            i <= blocktypes@.len(),
            water@ == spec_water_name(),
            forall|j: int| 0 <= j < i ==> (#[trigger] blocktypes@[j]).name@ != spec_water_name(),
        decreases blocktypes@.len() - i,
    {
        if blocktypes[i].name == water {
            return Some(i);
        }
        i = i + 1;
    }
    None
}

/// Whether every block type has its table of colours and a shape of
/// variants.
pub open spec fn spec_types_wf(blocktypes: Seq<BlockType>) -> bool {
    forall|i: int| 0 <= i < blocktypes.len() ==> (#[trigger] blocktypes[i]).wf()
}

/// Whether every block type has its table of colours and a shape of
/// variants.
pub fn types_wf(blocktypes: &[BlockType]) -> (r: bool)
    ensures
        r == spec_types_wf(blocktypes@),
{
    let mut i: usize = 0;
    while i < blocktypes.len()
        invariant
            i <= blocktypes@.len(),
            forall|j: int| 0 <= j < i ==> (#[trigger] blocktypes@[j]).wf(),
        decreases blocktypes@.len() - i,
    {
        if !blocktypes[i].is_wf() {
            return false;
        }
        i = i + 1;
    }
    true
}

} // verus!
