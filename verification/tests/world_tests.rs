use vek::Vec3;
use voxel_world::area::World;
use voxel_world::chunk::Chunk;
use voxel_world::map::{Area, Tile};

fn chunk_ground(chunk: &Chunk) -> Vec<(i64, i64, i64)> {
    let size = chunk.size() as i64;
    let mut found = Vec::new();
    for y in 0..size {
        for z in 0..size {
            for x in 0..size {
                if !chunk.is_pos_free(Vec3::new(x, y, z)) {
                    found.push((x, y, z));
                }
            }
        }
    }
    found
}

fn ground_total(world: &World) -> usize {
    world
        .positions()
        .into_iter()
        .map(|pos| chunk_ground(world.chunk(pos).unwrap()).len())
        .sum()
}

fn wall_total(area: &Area) -> usize {
    let mut n = 0;
    for y in 0..area.height() {
        for z in 0..area.depth() {
            for x in 0..area.width() {
                if area.tile_at(x, y, z).is_wall() {
                    n += 1;
                }
            }
        }
    }
    n
}

fn sorted_positions(world: &World) -> Vec<(usize, usize, usize)> {
    let mut all: Vec<_> = world.positions().into_iter().map(|p| (p.x, p.y, p.z)).collect();
    all.sort();
    all
}

fn single_wall(x: usize, y: usize, z: usize, w: usize, h: usize, d: usize) -> Area {
    let mut tiles = vec![vec![Tile::Floor; w * d]; h];
    tiles[y][z * w + x] = Tile::Wall;
    Area::new(tiles, w, h, d).unwrap()
}

#[test]
fn one_tile_at_small_scale_is_a_cube_in_one_chunk() {
    let area = Area::new(vec![vec![Tile::Wall]], 1, 1, 1).unwrap();
    let world = World::with_scale(&area, 2, 4).unwrap();
    assert_eq!(world.len(), 1);
    assert_eq!(sorted_positions(&world), vec![(0, 0, 0)]);
    let chunk = world.chunk(Vec3::new(0, 0, 0)).unwrap();
    assert_eq!(chunk.size(), 4);
    let mut ground = chunk_ground(chunk);
    ground.sort();
    let mut cube = Vec::new();
    for x in 0..2 {
        for y in 0..2 {
            for z in 0..2 {
                cube.push((x, y, z));
            }
        }
    }
    assert_eq!(ground, cube);
    assert!(chunk.is_meshed());
    let mesh = chunk.get_mesh();
    assert_eq!(mesh.0.len() / 3, 144);
    assert_eq!(mesh.1.len() / 3, 144);
    // 24 faces, each once: four per side of the cube
    let mut faces: Vec<Vec<usize>> = mesh.0.chunks(18).map(|q| q.to_vec()).collect();
    assert_eq!(faces.len(), 24);
    faces.sort();
    faces.dedup();
    assert_eq!(faces.len(), 24);
    for side in [(0i8, 1i8, 0i8), (0, -1, 0), (-1, 0, 0), (1, 0, 0), (0, 0, 1), (0, 0, -1)] {
        let n = mesh.1.chunks(18).filter(|q| (q[0], q[1], q[2]) == side).count();
        assert_eq!(n, 4);
    }
    assert!(mesh.0.iter().all(|c| *c <= 2));
}

#[test]
fn tile_at_the_origin_fills_the_corner_of_the_first_chunk() {
    let area = single_wall(0, 0, 0, 3, 2, 3);
    let world = World::from_area(area);
    assert_eq!(world.chunk_size(), 64);
    assert_eq!(world.expansion(), 10);
    assert_eq!(sorted_positions(&world), vec![(0, 0, 0)]);
    let chunk = world.chunk(Vec3::new(0, 0, 0)).unwrap();
    let ground = chunk_ground(chunk);
    assert_eq!(ground.len(), 1000);
    for (x, y, z) in ground {
        assert!(x < 10 && y < 10 && z < 10);
    }
    for gx in 0..12 {
        for gy in 0..12 {
            for gz in 0..12 {
                let inside = gx < 10 && gy < 10 && gz < 10;
                assert_eq!(world.is_ground(Vec3::new(gx, gy, gz)), inside);
                assert_eq!(!chunk.is_pos_free(Vec3::new(gx, gy, gz)), inside);
            }
        }
    }
}

#[test]
fn block_across_a_chunk_border_lands_in_both_chunks() {
    // tile 6 covers voxels 60..70 along x: 60..64 in chunk 0, 64..70 in chunk 1
    let area = single_wall(6, 0, 0, 7, 1, 1);
    let world = World::from_area(area);
    assert_eq!(sorted_positions(&world), vec![(0, 0, 0), (1, 0, 0)]);
    let first = chunk_ground(world.chunk(Vec3::new(0, 0, 0)).unwrap());
    let second = chunk_ground(world.chunk(Vec3::new(1, 0, 0)).unwrap());
    assert_eq!(first.len(), 4 * 100);
    assert_eq!(second.len(), 6 * 100);
    for (x, y, z) in first {
        assert!((60..64).contains(&x) && y < 10 && z < 10);
    }
    for (x, y, z) in second {
        assert!(x < 6 && y < 10 && z < 10);
    }
    assert!(!world.is_ground(Vec3::new(59, 0, 0)));
    assert!(world.is_ground(Vec3::new(60, 9, 9)));
    assert!(world.is_ground(Vec3::new(63, 0, 0)));
    assert!(world.is_ground(Vec3::new(64, 0, 0)));
    assert!(world.is_ground(Vec3::new(69, 5, 5)));
    assert!(!world.is_ground(Vec3::new(70, 0, 0)));
    assert!(!world.is_ground(Vec3::new(64, 10, 0)));
}

#[test]
fn block_across_a_chunk_corner_lands_in_eight_chunks() {
    // at 3 voxels per tile, tile (1, 1, 1) covers 3..6 on every axis;
    // chunks of edge 4 split that into 3..4 and 4..6
    let area = single_wall(1, 1, 1, 2, 2, 2);
    let world = World::with_scale(&area, 3, 4).unwrap();
    let mut expected = Vec::new();
    for x in 0..2 {
        for y in 0..2 {
            for z in 0..2 {
                expected.push((x, y, z));
            }
        }
    }
    assert_eq!(sorted_positions(&world), expected);
    assert_eq!(ground_total(&world), 27);
    for (cx, cy, cz) in expected {
        let chunk = world.chunk(Vec3::new(cx, cy, cz)).unwrap();
        let ground = chunk_ground(chunk);
        let along = |c: usize| if c == 0 { 3..4 } else { 0..2 };
        let mut cells = Vec::new();
        for y in along(cy) {
            for z in along(cz) {
                for x in along(cx) {
                    cells.push((x as i64, y as i64, z as i64));
                }
            }
        }
        assert_eq!(ground, cells);
    }
    for gx in 0..8 {
        for gy in 0..8 {
            for gz in 0..8 {
                let inside = (3..6).contains(&gx) && (3..6).contains(&gy) && (3..6).contains(&gz);
                assert_eq!(world.is_ground(Vec3::new(gx, gy, gz)), inside);
            }
        }
    }
}

#[test]
fn border_faces_are_drawn_in_both_chunks() {
    // two voxels side by side in different chunks: each chunk draws its
    // own border face
    let area = single_wall(1, 0, 0, 3, 1, 1);
    let world = World::with_scale(&area, 2, 3).unwrap();
    // voxels 2..4 along x: voxel 2 in chunk 0, voxel 3 in chunk 1
    assert_eq!(sorted_positions(&world), vec![(0, 0, 0), (1, 0, 0)]);
    let left = world.chunk(Vec3::new(0, 0, 0)).unwrap();
    let right = world.chunk(Vec3::new(1, 0, 0)).unwrap();
    // 1 x 2 x 2 voxels each: 4 + 4 + 2 + 2 + 2 + 2 faces
    assert_eq!(left.get_mesh().0.len(), 16 * 18);
    assert_eq!(right.get_mesh().0.len(), 16 * 18);
}

#[test]
fn volume_is_conserved_for_the_debug_map() {
    let area = Area::debug();
    let walls = wall_total(&area);
    assert_eq!(walls, 221);
    let world = World::from_area(area);
    assert_eq!(ground_total(&world), walls * 1000);
}

#[test]
fn volume_is_conserved_at_odd_scales() {
    let area = Area::parse(&["#.#\n.#.\n<.#", "...\n###\n..."], 3, 3).unwrap();
    let walls = wall_total(&area);
    assert_eq!(walls, 7);
    for (e, cs) in [(1, 1), (1, 5), (3, 2), (5, 3), (7, 7), (4, 64)] {
        let world = World::with_scale(&area, e, cs).unwrap();
        assert_eq!(ground_total(&world), walls * e * e * e, "at {} {}", e, cs);
        assert_eq!(world.expansion(), e);
        assert_eq!(world.chunk_size(), cs);
    }
}

#[test]
fn no_chunk_is_all_air() {
    let world = World::from_area(Area::debug());
    assert_eq!(world.len(), 8);
    assert_eq!(world.positions().len(), 8);
    for pos in world.positions() {
        let chunk = world.chunk(pos).unwrap();
        assert!(!chunk_ground(chunk).is_empty());
    }
    // a map with a lone wall far from the origin leaves the other chunks out
    let area = single_wall(19, 0, 9, 20, 1, 10);
    let world = World::from_area(area);
    assert_eq!(sorted_positions(&world), vec![(2, 0, 1), (3, 0, 1)]);
    let grid = world.grid();
    assert_eq!((grid.x, grid.y, grid.z), (4, 1, 2));
    assert!(world.chunk(Vec3::new(0, 0, 0)).is_none());
}

#[test]
fn every_chunk_is_meshed() {
    let world = World::from_area(Area::debug());
    for pos in world.positions() {
        let chunk = world.chunk(pos).unwrap();
        assert!(chunk.is_meshed());
        let mesh = chunk.get_mesh();
        assert_eq!(mesh.0.len(), mesh.1.len());
        assert_eq!(mesh.0.len() % 18, 0);
        assert!(!mesh.0.is_empty());
    }
}

#[test]
fn building_twice_gives_the_same_world() {
    let a = World::from_area(Area::debug());
    let b = World::from_area(Area::debug());
    assert_eq!(sorted_positions(&a), sorted_positions(&b));
    for (x, y, z) in sorted_positions(&a) {
        let ca = a.chunk(Vec3::new(x, y, z)).unwrap();
        let cb = b.chunk(Vec3::new(x, y, z)).unwrap();
        assert_eq!(chunk_ground(ca), chunk_ground(cb));
        assert_eq!(ca.get_mesh().0, cb.get_mesh().0);
        assert_eq!(ca.get_mesh().1, cb.get_mesh().1);
    }
}

#[test]
fn ground_is_where_the_walls_are() {
    let area = Area::parse(&["#.\n.#", ".#\n.."], 2, 2).unwrap();
    let world = World::with_scale(&area, 3, 4).unwrap();
    let area = Area::parse(&["#.\n.#", ".#\n.."], 2, 2).unwrap();
    for gy in 0..6 {
        for gz in 0..6 {
            for gx in 0..6 {
                let wall = area.tile_at(gx / 3, gy / 3, gz / 3).is_wall();
                let pos = Vec3::new(gx as i64, gy as i64, gz as i64);
                assert_eq!(world.is_ground(pos), wall, "at {} {} {}", gx, gy, gz);
            }
        }
    }
}

#[test]
fn outside_the_world_there_is_air() {
    let world = World::from_area(Area::debug());
    assert!(world.is_ground(Vec3::new(0, 0, 0)));
    assert!(world.is_ground(Vec3::new(199, 9, 99)));
    assert!(!world.is_ground(Vec3::new(-1, 0, 0)));
    assert!(!world.is_ground(Vec3::new(0, -1, 0)));
    assert!(!world.is_ground(Vec3::new(0, 0, -1)));
    assert!(!world.is_ground(Vec3::new(200, 0, 0)));
    assert!(!world.is_ground(Vec3::new(0, 20, 0)));
    assert!(!world.is_ground(Vec3::new(0, 0, 100)));
    assert!(!world.is_ground(Vec3::new(0, 64, 0)));
    assert!(!world.is_ground(Vec3::new(i64::MAX, i64::MAX, i64::MAX)));
    assert!(!world.is_ground(Vec3::new(i64::MIN, 0, 0)));
    assert!(world.chunk(Vec3::new(4, 0, 0)).is_none());
    assert!(world.chunk(Vec3::new(0, 1, 0)).is_none());
    assert!(world.chunk(Vec3::new(usize::MAX, usize::MAX, usize::MAX)).is_none());
}

#[test]
fn map_without_walls_gives_an_empty_world() {
    let area = Area::parse(&["..\n..", "..\n.<"], 2, 2).unwrap();
    let world = World::from_area(area);
    assert_eq!(world.len(), 0);
    assert!(world.positions().is_empty());
    assert!(!world.is_ground(Vec3::new(0, 0, 0)));
}

#[test]
fn empty_map_gives_an_empty_world() {
    let world = World::from_area(Area::new(Vec::new(), 0, 0, 0).unwrap());
    assert_eq!(world.len(), 0);
    let grid = world.grid();
    assert_eq!((grid.x, grid.y, grid.z), (0, 0, 0));
    let world = World::from_area(Area::new(vec![Vec::new()], 0, 1, 4).unwrap());
    assert_eq!(world.len(), 0);
}

#[test]
fn scales_that_do_not_fit_are_refused() {
    let area = Area::debug();
    assert!(World::with_scale(&area, 0, 4).is_none());
    assert!(World::with_scale(&area, 2, 0).is_none());
    assert!(World::with_scale(&area, 2, usize::MAX).is_none());
    assert!(World::with_scale(&area, 2, 1 << 22).is_none());
    assert!(World::with_scale(&area, usize::MAX, 1).is_none());
    assert!(World::with_scale(&area, 1, 1).is_some());
}

#[test]
fn chunks_begin_at_multiples_of_the_chunk_size() {
    let world = World::from_area(Area::debug());
    let o = world.origin(Vec3::new(3, 0, 1));
    assert_eq!((o.x, o.y, o.z), (192, 0, 64));
    for pos in world.positions() {
        let o = world.origin(pos);
        let chunk = world.chunk(pos).unwrap();
        for (x, y, z) in chunk_ground(chunk) {
            let g = Vec3::new(o.x as i64 + x, o.y as i64 + y, o.z as i64 + z);
            assert!(world.is_ground(g));
        }
    }
}

#[test]
fn build_adds_one_block() {
    let area = Area::parse(&["..\n.."], 2, 2).unwrap();
    let empty = World::with_scale(&area, 2, 8).unwrap();
    assert_eq!(empty.len(), 0);
    let area = single_wall(1, 0, 1, 2, 1, 2);
    let world = World::with_scale(&area, 2, 8).unwrap();
    assert_eq!(ground_total(&world), 8);
    for g in [(2, 0, 2), (3, 1, 3), (2, 1, 3)] {
        assert!(world.is_ground(Vec3::new(g.0, g.1, g.2)));
    }
    for g in [(1, 0, 2), (2, 2, 2), (4, 0, 2), (2, 0, 1)] {
        assert!(!world.is_ground(Vec3::new(g.0, g.1, g.2)));
    }
}
