use rmapbash::nbt::NbtError;
use rmapbash::options::{get_options, Lighting, View};
use rmapbash::types::{Edges, Pair};
use rmapbash::region::{coords_from_groups, get_coords_from_path, parse_coord, region_file_name};
use rmapbash::world::{
    add_region, read_world_region, region_in_limits, region_order, world_from_regions, Region,
};

fn world_region(x: isize, z: isize, n: usize, e: usize, s: usize, w: usize) -> (Pair<isize>, Region) {
    (Pair { x, z }, Region { cedges: Edges { n, e, s, w } })
}

#[test]
fn coordinates_come_from_the_file_name() {
    assert_eq!(get_coords_from_path("r.0.0.mca"), Some(Pair { x: 0, z: 0 }));
    assert_eq!(get_coords_from_path("r.-3.12.mca"), Some(Pair { x: -3, z: 12 }));
    assert_eq!(get_coords_from_path("/saves/world/region/r.5.-7.mca"), Some(Pair { x: 5, z: -7 }));
    assert_eq!(get_coords_from_path("r.1.2.mcr"), None);
    assert_eq!(get_coords_from_path("r.1.2.mca.bak"), None);
    assert_eq!(get_coords_from_path("level.dat"), None);
    assert_eq!(get_coords_from_path("r.1.mca"), None);
}

#[test]
fn names_that_spell_no_number_give_no_coordinates() {
    assert_eq!(get_coords_from_path("r.-.1.mca"), None);
    assert_eq!(get_coords_from_path("r.1-2.3.mca"), None);
    assert_eq!(get_coords_from_path("r.--1.3.mca"), None);
    assert_eq!(get_coords_from_path("r.99999999999999999999999999.3.mca"), None);
}

#[test]
fn coordinates_are_read_as_decimal_numbers() {
    assert_eq!(parse_coord("0"), Some(0));
    assert_eq!(parse_coord("-0"), Some(0));
    assert_eq!(parse_coord("007"), Some(7));
    assert_eq!(parse_coord("-12345"), Some(-12345));
    assert_eq!(parse_coord(""), None);
    assert_eq!(parse_coord("-"), None);
    assert_eq!(parse_coord("+5"), None);
    assert_eq!(parse_coord("5 "), None);
    assert_eq!(parse_coord("٣"), None);
    assert_eq!(parse_coord(&isize::MAX.to_string()), Some(isize::MAX));
    assert_eq!(parse_coord(&isize::MIN.to_string()), Some(isize::MIN));
    assert_eq!(parse_coord("9223372036854775808"), None);
    assert_eq!(parse_coord("-9223372036854775809"), None);
}

#[test]
fn groups_of_a_match_give_the_coordinates() {
    let groups = vec![Some("r.1.-2.mca".to_string()), Some("1".to_string()), Some("-2".to_string())];
    assert_eq!(coords_from_groups(&groups), Some(Pair { x: 1, z: -2 }));
    let groups = vec![Some("r.1.-2.mca".to_string()), Some("1".to_string())];
    assert_eq!(coords_from_groups(&groups), None);
    let groups = vec![Some("x".to_string()), None, Some("-2".to_string())];
    assert_eq!(coords_from_groups(&groups), None);
}

#[test]
fn regions_inside_the_block_limits() {
    let limits = Some(Edges { n: -513, e: 511, s: 0, w: -1 });
    assert!(region_in_limits(&Pair { x: 0, z: 0 }, &limits));
    assert!(region_in_limits(&Pair { x: -1, z: -2 }, &limits));
    assert!(!region_in_limits(&Pair { x: 1, z: 0 }, &limits));
    assert!(!region_in_limits(&Pair { x: 0, z: 1 }, &limits));
    assert!(!region_in_limits(&Pair { x: -2, z: 0 }, &limits));
    assert!(region_in_limits(&Pair { x: 100, z: -100 }, &None));
}

#[test]
fn file_of_another_name_adds_no_region() {
    assert_eq!(read_world_region("level.dat", &[1, 2, 3], &None).map(|r| r.is_none()), Ok(true));
}

#[test]
fn region_file_that_is_cut_short_fails_the_world() {
    assert!(matches!(read_world_region("r.0.0.mca", &[0; 10], &None), Err(NbtError::UnexpectedEof)));
}

#[test]
fn world_without_regions_has_no_data() {
    assert!(matches!(world_from_regions(vec![], &None, 0..256), Ok(None)));
}

#[test]
fn world_of_one_region() {
    let world = world_from_regions(vec![world_region(0, 0, 2, 7, 9, 4)], &None, 0..256).unwrap().unwrap();
    assert_eq!((world.redges.n, world.redges.e, world.redges.s, world.redges.w), (0, 0, 0, 0));
    assert_eq!((world.cedges.n, world.cedges.e, world.cedges.s, world.cedges.w), (2, 7, 9, 4));
    assert_eq!((world.bedges.n, world.bedges.e, world.bedges.s, world.bedges.w), (32, 127, 159, 64));
    assert_eq!(world.rsize, Pair { x: 1, z: 1 });
    assert_eq!(world.csize, Pair { x: 4, z: 8 });
    assert_eq!(world.bsize, Pair { x: 64, z: 128 });
    assert!(world.drawable());
}

#[test]
fn world_bounds_come_from_the_border_regions() {
    let regions = vec![
        world_region(-1, -1, 30, 31, 31, 29),
        world_region(0, -1, 5, 3, 31, 0),
        world_region(-1, 0, 0, 31, 2, 31),
        world_region(0, 0, 0, 1, 1, 0),
    ];
    let world = world_from_regions(regions, &None, 0..256).unwrap().unwrap();
    assert_eq!((world.redges.n, world.redges.e, world.redges.s, world.redges.w), (-1, 0, 0, -1));
    // North: the smaller of -32 + 30 and -32 + 5; west: the smaller of -32 + 29 and -32 + 31.
    assert_eq!((world.cedges.n, world.cedges.e, world.cedges.s, world.cedges.w), (-27, 3, 2, -3));
    assert_eq!(
        (world.bedges.n, world.bedges.e, world.bedges.s, world.bedges.w),
        (-432, 63, 47, -48)
    );
    assert_eq!(world.csize, Pair { x: 7, z: 30 });
    assert_eq!(world.bsize, Pair { x: 112, z: 480 });
}

#[test]
fn block_limits_cut_the_world_down() {
    let limits = Some(Edges { n: 35, e: 100, s: 1000, w: 70 });
    let world = world_from_regions(vec![world_region(0, 0, 2, 6, 9, 4)], &limits, 10..20).unwrap().unwrap();
    assert_eq!((world.bedges.n, world.bedges.e, world.bedges.s, world.bedges.w), (35, 100, 159, 70));
    assert_eq!(world.bsize, Pair { x: 31, z: 125 });
    assert_eq!(world.ylimits, 10..20);
}

#[test]
fn block_limits_beside_the_world_leave_no_data() {
    let limits = Some(Edges { n: 0, e: 10, s: 10, w: 0 });
    assert!(matches!(
        world_from_regions(vec![world_region(0, 0, 2, 7, 9, 4)], &limits, 0..256),
        Ok(None)
    ));
}

#[test]
fn block_limits_that_leave_out_a_border_chunk_are_refused() {
    let limits = Some(Edges { n: 0, e: 1000, s: 1000, w: 90 });
    assert!(matches!(
        world_from_regions(vec![world_region(0, 0, 2, 7, 9, 4)], &limits, 0..256),
        Err(NbtError::BadLength)
    ));
}

#[test]
fn regions_too_far_out_are_refused() {
    assert!(matches!(
        world_from_regions(vec![world_region(0x20_0000, 0, 0, 0, 0, 0)], &None, 0..256),
        Err(NbtError::BadLength)
    ));
    assert!(matches!(
        world_from_regions(vec![world_region(0, 0, 0, 32, 0, 0)], &None, 0..256),
        Err(NbtError::BadLength)
    ));
}

#[test]
fn layers_outside_the_world_are_refused() {
    assert!(matches!(
        world_from_regions(vec![world_region(0, 0, 0, 0, 0, 0)], &None, 0..257),
        Err(NbtError::BadLength)
    ));
}

#[test]
fn options_from_the_command_line() {
    let options = get_options(
        "saves/world".to_string(),
        "out/world.png".to_string(),
        Some("world"),
        true,
        true,
        Some((10, -20, -30, 40)),
        Some((300, 64)),
    );
    assert_eq!(options.inpath, "saves/world");
    assert_eq!(options.outpath, "out/world.png");
    assert_eq!(options.view, View::Isometric);
    assert_eq!(options.lighting, Lighting::Night);
    let limits = options.blimits.unwrap();
    assert_eq!((limits.n, limits.e, limits.s, limits.w), (-20, 10, 40, -30));
    assert_eq!(options.ylimits, 64..256);
}

#[test]
fn options_by_default() {
    let options =
        get_options("w".to_string(), "world.png".to_string(), None, false, false, None, None);
    assert_eq!(options.view, View::Orthographic);
    assert_eq!(options.lighting, Lighting::Day);
    assert!(options.blimits.is_none());
    assert_eq!(options.ylimits, 0..256);
}

#[test]
fn lighting_follows_the_dimension() {
    let nether =
        get_options("DIM-1".to_string(), "o.png".to_string(), Some("DIM-1"), false, true, None, None);
    assert_eq!(nether.lighting, Lighting::Nether);
    let end =
        get_options("DIM1".to_string(), "o.png".to_string(), Some("DIM1"), false, false, None, None);
    assert_eq!(end.lighting, Lighting::End);
    let day =
        get_options("DIM2".to_string(), "o.png".to_string(), Some("DIM2"), false, false, None, None);
    assert_eq!(day.lighting, Lighting::Day);
}

#[test]
fn heights_are_kept_inside_the_world() {
    let options =
        get_options("w".to_string(), "o.png".to_string(), None, false, false, None, Some((5, 5)));
    assert_eq!(options.ylimits, 5..6);
    let options =
        get_options("w".to_string(), "o.png".to_string(), None, false, false, None, Some((999, 998)));
    assert_eq!(options.ylimits, 255..256);
}

#[test]
fn names_of_views_and_lightings() {
    assert_eq!(View::Isometric.name(), "Isometric");
    assert_eq!(View::Orthographic.name(), "Orthographic");
    assert_eq!(Lighting::Day.name(), "Day");
    assert_eq!(Lighting::Night.name(), "Night");
    assert_eq!(Lighting::Nether.name(), "Nether");
    assert_eq!(Lighting::End.name(), "End");
}

#[test]
fn edges_know_their_size_and_what_they_hold() {
    let edges: Edges<isize> = Edges { n: -5, e: 10, s: 5, w: -10 };
    assert_eq!(edges.size(), Pair { x: 21, z: 11 });
    assert!(edges.contains(&Pair { x: -10, z: 5 }));
    assert!(edges.contains(&Pair { x: 10, z: -5 }));
    assert!(!edges.contains(&Pair { x: 11, z: 0 }));
    assert!(!edges.contains(&Pair { x: 0, z: -6 }));
    let grid = Edges::<usize>::full(32);
    assert_eq!((grid.n, grid.e, grid.s, grid.w), (0, 31, 31, 0));
    assert_eq!(grid.size(), Pair { x: 32, z: 32 });
    assert!(grid.contains(&Pair { x: 31, z: 0 }));
    assert!(!grid.contains(&Pair { x: 32, z: 0 }));
}

#[test]
fn region_of_known_coordinates_takes_the_place_of_the_old() {
    let mut regions = vec![world_region(0, 0, 1, 1, 1, 1), world_region(0, 1, 2, 2, 2, 2)];
    add_region(&mut regions, world_region(0, 0, 3, 4, 5, 6));
    assert_eq!(regions.len(), 2);
    assert_eq!(regions[0].0, Pair { x: 0, z: 0 });
    assert_eq!(regions[0].1.cedges.w, 6);
    add_region(&mut regions, world_region(1, 0, 7, 7, 7, 7));
    assert_eq!(regions.len(), 3);
    assert_eq!(regions[2].0, Pair { x: 1, z: 0 });
    let world = world_from_regions(regions, &None, 0..256).unwrap().unwrap();
    assert!(world.has_region(&Pair { x: 0, z: 1 }));
    assert!(world.has_region(&Pair { x: 1, z: 0 }));
    assert!(!world.has_region(&Pair { x: 1, z: 1 }));
}

#[test]
fn file_name_spells_the_coordinates() {
    assert_eq!(region_file_name(&Pair { x: 0, z: 0 }), "r.0.0.mca");
    assert_eq!(region_file_name(&Pair { x: -3, z: 12 }), "r.-3.12.mca");
    assert_eq!(region_file_name(&Pair { x: 1000, z: -1 }), "r.1000.-1.mca");
    for r in [Pair { x: 7, z: -9 }, Pair { x: -2097151, z: 2097151 }, Pair { x: 0, z: -10 }] {
        assert_eq!(get_coords_from_path(&region_file_name(&r)), Some(r));
    }
}

#[test]
fn regions_are_drawn_from_the_south_east_back() {
    let regions = vec![
        world_region(0, 0, 0, 31, 31, 0),
        world_region(1, 1, 0, 31, 31, 0),
        world_region(-1, 1, 0, 31, 31, 0),
        world_region(1, -1, 0, 31, 31, 0),
        world_region(0, 1, 0, 31, 31, 0),
    ];
    let world = world_from_regions(regions, &None, 0..256).unwrap().unwrap();
    assert_eq!(
        region_order(&world),
        vec![
            Pair { x: 1, z: 1 },
            Pair { x: 0, z: 1 },
            Pair { x: -1, z: 1 },
            Pair { x: 0, z: 0 },
            Pair { x: 1, z: -1 },
        ]
    );
}

#[test]
fn one_region_is_drawn_alone() {
    let world = world_from_regions(vec![world_region(-4, 9, 1, 2, 3, 0)], &None, 0..256)
        .unwrap()
        .unwrap();
    assert_eq!(region_order(&world), vec![Pair { x: -4, z: 9 }]);
}
