use vek::Vec3;
use voxel_world::map::{expand_tiles, Area, AreaError, Tile};
use voxel_world::shader::ShaderType;

#[test]
fn characters_map_to_tiles() {
    assert_eq!(Tile::from_char('#'), Tile::Wall);
    assert_eq!(Tile::from_char('<'), Tile::StairUp);
    assert_eq!(Tile::from_char('.'), Tile::Floor);
    assert_eq!(Tile::from_char('x'), Tile::Floor);
    assert_eq!(Tile::from_char('>'), Tile::Floor);
}

#[test]
fn only_walls_are_walls() {
    assert!(Tile::Wall.is_wall());
    assert!(!Tile::Floor.is_wall());
    assert!(!Tile::StairUp.is_wall());
}

#[test]
fn parse_level_strips_layout_characters() {
    let tiles = Area::parse_level("\n    #.< \n    .#.\n");
    assert_eq!(
        tiles,
        vec![Tile::Wall, Tile::Floor, Tile::StairUp, Tile::Floor, Tile::Wall, Tile::Floor]
    );
    assert!(Area::parse_level("").is_empty());
    assert!(Area::parse_level(" \n \n").is_empty());
}

#[test]
fn parse_builds_a_map() {
    let area = Area::parse(&["#.\n.#\n..", "<<\n..\n##"], 2, 3).unwrap();
    assert_eq!((area.width(), area.height(), area.depth()), (2, 2, 3));
    assert_eq!(area.tile_at(0, 0, 0), Tile::Wall);
    assert_eq!(area.tile_at(1, 0, 0), Tile::Floor);
    assert_eq!(area.tile_at(1, 0, 1), Tile::Wall);
    assert_eq!(area.tile_at(0, 0, 2), Tile::Floor);
    assert_eq!(area.tile_at(1, 1, 0), Tile::StairUp);
    assert_eq!(area.tile_at(0, 1, 2), Tile::Wall);
}

#[test]
fn parse_refuses_a_level_of_the_wrong_length() {
    let r = Area::parse(&["#.\n.#", "#.\n."], 2, 2);
    assert_eq!(r.err(), Some(AreaError::LevelLength(1)));
    let r = Area::parse(&["#", "#.\n.#"], 2, 2);
    assert_eq!(r.err(), Some(AreaError::LevelLength(0)));
}

#[test]
fn new_accepts_consistent_dimensions() {
    let tiles = vec![vec![Tile::Floor; 6], vec![Tile::Wall; 6]];
    let area = Area::new(tiles, 3, 2, 2).unwrap();
    assert_eq!((area.width(), area.height(), area.depth()), (3, 2, 2));
    assert_eq!(area.tile_at(2, 1, 1), Tile::Wall);
    assert_eq!(area.tile_at(2, 0, 1), Tile::Floor);
}

#[test]
fn new_accepts_an_empty_map() {
    let area = Area::new(Vec::new(), 0, 0, 0).unwrap();
    assert_eq!((area.width(), area.height(), area.depth()), (0, 0, 0));
    let area = Area::new(Vec::new(), 7, 0, 9).unwrap();
    assert_eq!(area.height(), 0);
    let area = Area::new(vec![Vec::new(), Vec::new()], 0, 2, 5).unwrap();
    assert_eq!(area.height(), 2);
}

#[test]
fn new_refuses_a_wrong_level_count() {
    let tiles = vec![vec![Tile::Floor; 4]];
    assert_eq!(Area::new(tiles, 2, 2, 2).err(), Some(AreaError::LevelCount));
    let tiles = vec![vec![Tile::Floor; 4]];
    assert_eq!(Area::new(tiles, 2, 0, 2).err(), Some(AreaError::LevelCount));
}

#[test]
fn new_refuses_a_wrong_level_length() {
    let tiles = vec![vec![Tile::Floor; 4], vec![Tile::Floor; 4], vec![Tile::Floor; 5]];
    assert_eq!(Area::new(tiles, 2, 3, 2).err(), Some(AreaError::LevelLength(2)));
    let tiles = vec![vec![Tile::Floor; 3], vec![Tile::Floor; 5]];
    assert_eq!(Area::new(tiles, 2, 2, 2).err(), Some(AreaError::LevelLength(0)));
}

#[test]
fn new_refuses_dimensions_beyond_the_address_space() {
    let tiles = vec![vec![Tile::Floor; 4]];
    assert_eq!(Area::new(tiles, usize::MAX, 1, 2).err(), Some(AreaError::TooLarge));
    let tiles = vec![vec![Tile::Floor; 4], vec![Tile::Floor; 4]];
    assert_eq!(Area::new(tiles, usize::MAX, 2, 1).err(), Some(AreaError::TooLarge));
}

#[test]
fn debug_map_has_a_solid_ground_level() {
    let area = Area::debug();
    assert_eq!((area.width(), area.height(), area.depth()), (20, 2, 10));
    for z in 0..10 {
        for x in 0..20 {
            assert_eq!(area.tile_at(x, 0, z), Tile::Wall);
        }
    }
}

#[test]
fn debug_map_has_its_walls_upstairs() {
    let area = Area::debug();
    let rows = [
        "........#...#.......",
        "........#...........",
        "........#...........",
        "........#...........",
        "........####.#######",
        ".............#......",
        ".............#......",
        "..#..........#......",
        ".............#......",
        "....................",
    ];
    let mut walls = 0;
    for (z, row) in rows.iter().enumerate() {
        for (x, ch) in row.chars().enumerate() {
            let expected = if ch == '#' { Tile::Wall } else { Tile::Floor };
            assert_eq!(area.tile_at(x, 1, z), expected, "at {} {}", x, z);
            if expected.is_wall() {
                walls += 1;
            }
        }
    }
    assert_eq!(walls, 21);
}

#[test]
fn second_debug_map_has_walls_along_two_edges() {
    let area = Area::debug2();
    assert_eq!((area.width(), area.height(), area.depth()), (250, 15, 400));
    assert_eq!(area.tile_at(0, 0, 0), Tile::Wall);
    assert_eq!(area.tile_at(4, 14, 399), Tile::Wall);
    assert_eq!(area.tile_at(249, 7, 4), Tile::Wall);
    assert_eq!(area.tile_at(5, 0, 5), Tile::Floor);
    assert_eq!(area.tile_at(249, 14, 399), Tile::Floor);
    let mut walls = 0;
    for z in 0..400 {
        for x in 0..250 {
            if area.tile_at(x, 3, z).is_wall() {
                walls += 1;
            }
        }
    }
    assert_eq!(walls, 5 * 250 + 5 * 400 - 25);
}

#[test]
fn expand_tiles_turns_each_tile_into_a_block() {
    let area = Area::parse(&["#.\n.<", "..\n#."], 2, 2).unwrap();
    let big = expand_tiles(area, 3);
    assert_eq!((big.width(), big.height(), big.depth()), (6, 6, 6));
    let small = Area::parse(&["#.\n.<", "..\n#."], 2, 2).unwrap();
    for y in 0..6 {
        for z in 0..6 {
            for x in 0..6 {
                assert_eq!(big.tile_at(x, y, z), small.tile_at(x / 3, y / 3, z / 3));
            }
        }
    }
    assert_eq!(big.tile_at(2, 2, 2), Tile::Wall);
    assert_eq!(big.tile_at(3, 2, 2), Tile::Floor);
    assert_eq!(big.tile_at(5, 0, 5), Tile::StairUp);
    assert_eq!(big.tile_at(0, 3, 3), Tile::Wall);
}

#[test]
fn expand_tiles_by_one_changes_nothing() {
    let area = Area::debug();
    let same = expand_tiles(area, 1);
    let area = Area::debug();
    assert_eq!((same.width(), same.height(), same.depth()), (20, 2, 10));
    for y in 0..2 {
        for z in 0..10 {
            for x in 0..20 {
                assert_eq!(same.tile_at(x, y, z), area.tile_at(x, y, z));
            }
        }
    }
}

#[test]
fn expand_tiles_by_zero_gives_an_empty_map() {
    let empty = expand_tiles(Area::debug(), 0);
    assert_eq!((empty.width(), empty.height(), empty.depth()), (0, 0, 0));
}

#[test]
fn blocks_at_reports_blocking_tiles_only() {
    let area = Area::parse(&["#.\n.<"], 2, 2).unwrap();
    assert_eq!(area.blocks_at(Vec3::new(0, 0, 0)), Some(Tile::Wall));
    assert_eq!(area.blocks_at(Vec3::new(1, 0, 1)), Some(Tile::StairUp));
    assert_eq!(area.blocks_at(Vec3::new(1, 0, 0)), None);
    assert_eq!(area.blocks_at(Vec3::new(0, 0, 1)), None);
}

#[test]
fn blocks_at_treats_the_outside_as_open() {
    let area = Area::debug();
    assert_eq!(area.blocks_at(Vec3::new(-1, 0, 0)), None);
    assert_eq!(area.blocks_at(Vec3::new(0, -1, 0)), None);
    assert_eq!(area.blocks_at(Vec3::new(0, 0, -1)), None);
    assert_eq!(area.blocks_at(Vec3::new(20, 0, 0)), None);
    assert_eq!(area.blocks_at(Vec3::new(0, 2, 0)), None);
    assert_eq!(area.blocks_at(Vec3::new(0, 0, 10)), None);
    assert_eq!(area.blocks_at(Vec3::new(i32::MAX, i32::MAX, i32::MAX)), None);
    assert_eq!(area.blocks_at(Vec3::new(i32::MIN, 0, 0)), None);
    assert_eq!(area.blocks_at(Vec3::new(19, 0, 9)), Some(Tile::Wall));
    assert_eq!(area.blocks_at(Vec3::new(19, 1, 9)), None);
    assert_eq!(area.blocks_at(Vec3::new(8, 1, 0)), Some(Tile::Wall));
}

#[test]
fn shader_stages_have_their_opengl_numbers() {
    assert_eq!(ShaderType::Frag.to_gl(), 0x8B30);
    assert_eq!(ShaderType::Vert.to_gl(), 0x8B31);
    assert_eq!(ShaderType::Frag.to_gl(), 35632);
    assert_eq!(ShaderType::Vert.to_gl(), 35633);
}
