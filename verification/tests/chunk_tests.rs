use vek::Vec3;
use voxel_world::chunk::{gen_quad, Chunk, QuadSide, VertNormal, Voxel, CHUNK_SIZE};

fn vertices(mesh: &VertNormal) -> Vec<(usize, usize, usize)> {
    mesh.0.chunks(3).map(|v| (v[0], v[1], v[2])).collect()
}

fn normals(mesh: &VertNormal) -> Vec<(i8, i8, i8)> {
    mesh.1.chunks(3).map(|n| (n[0], n[1], n[2])).collect()
}

fn ground_count(chunk: &Chunk) -> usize {
    let size = chunk.size() as i64;
    let mut n = 0;
    for y in 0..size {
        for z in 0..size {
            for x in 0..size {
                if !chunk.is_pos_free(Vec3::new(x, y, z)) {
                    n += 1;
                }
            }
        }
    }
    n
}

#[test]
fn quad_top_has_the_tabulated_vertices() {
    let quad = gen_quad(QuadSide::Top, 3, 5, 7);
    assert_eq!(
        vertices(&quad),
        vec![(3, 6, 7), (4, 6, 7), (4, 6, 8), (4, 6, 8), (3, 6, 8), (3, 6, 7)]
    );
    assert_eq!(normals(&quad), vec![(0, 1, 0); 6]);
}

#[test]
fn quad_bottom_has_the_tabulated_vertices() {
    let quad = gen_quad(QuadSide::Bottom, 3, 5, 7);
    assert_eq!(
        vertices(&quad),
        vec![(3, 5, 7), (4, 5, 8), (4, 5, 7), (4, 5, 8), (3, 5, 7), (3, 5, 8)]
    );
    assert_eq!(normals(&quad), vec![(0, -1, 0); 6]);
}

#[test]
fn quad_left_has_the_tabulated_vertices() {
    let quad = gen_quad(QuadSide::Left, 3, 5, 7);
    assert_eq!(
        vertices(&quad),
        vec![(3, 6, 8), (3, 5, 7), (3, 6, 7), (3, 5, 7), (3, 6, 8), (3, 5, 8)]
    );
    assert_eq!(normals(&quad), vec![(-1, 0, 0); 6]);
}

#[test]
fn quad_right_has_the_tabulated_vertices() {
    let quad = gen_quad(QuadSide::Right, 3, 5, 7);
    assert_eq!(
        vertices(&quad),
        vec![(4, 6, 8), (4, 6, 7), (4, 5, 7), (4, 5, 7), (4, 5, 8), (4, 6, 8)]
    );
    assert_eq!(normals(&quad), vec![(1, 0, 0); 6]);
}

#[test]
fn quad_front_has_the_tabulated_vertices() {
    let quad = gen_quad(QuadSide::Front, 3, 5, 7);
    assert_eq!(
        vertices(&quad),
        vec![(3, 5, 8), (4, 6, 8), (4, 5, 8), (4, 6, 8), (3, 5, 8), (3, 6, 8)]
    );
    assert_eq!(normals(&quad), vec![(0, 0, 1); 6]);
}

#[test]
fn quad_back_has_the_tabulated_vertices() {
    let quad = gen_quad(QuadSide::Back, 3, 5, 7);
    assert_eq!(
        vertices(&quad),
        vec![(3, 5, 7), (4, 5, 7), (4, 6, 7), (4, 6, 7), (3, 6, 7), (3, 5, 7)]
    );
    assert_eq!(normals(&quad), vec![(0, 0, -1); 6]);
}

#[test]
fn quad_at_the_origin() {
    let quad = gen_quad(QuadSide::Right, 0, 0, 0);
    assert_eq!(
        vertices(&quad),
        vec![(1, 1, 1), (1, 1, 0), (1, 0, 0), (1, 0, 0), (1, 0, 1), (1, 1, 1)]
    );
}

#[test]
fn every_triangle_winds_clockwise_seen_from_outside() {
    let sides = [
        (QuadSide::Top, (0, 1, 0)),
        (QuadSide::Bottom, (0, -1, 0)),
        (QuadSide::Left, (-1, 0, 0)),
        (QuadSide::Right, (1, 0, 0)),
        (QuadSide::Front, (0, 0, 1)),
        (QuadSide::Back, (0, 0, -1)),
    ];
    for (side, normal) in sides {
        let quad = gen_quad(side, 2, 2, 2);
        let v: Vec<(i64, i64, i64)> =
            vertices(&quad).iter().map(|p| (p.0 as i64, p.1 as i64, p.2 as i64)).collect();
        for t in 0..2 {
            let (a, b, c) = (v[3 * t], v[3 * t + 1], v[3 * t + 2]);
            let e1 = (b.0 - a.0, b.1 - a.1, b.2 - a.2);
            let e2 = (c.0 - a.0, c.1 - a.1, c.2 - a.2);
            let cross = (
                e1.1 * e2.2 - e1.2 * e2.1,
                e1.2 * e2.0 - e1.0 * e2.2,
                e1.0 * e2.1 - e1.1 * e2.0,
            );
            assert_eq!(cross, (-normal.0, -normal.1, -normal.2));
        }
    }
}

#[test]
fn vert_normal_append_concatenates() {
    let mut a = VertNormal::new(vec![1, 2, 3], vec![0, 1, 0]);
    let b = VertNormal::new(vec![4, 5, 6, 7, 8, 9], vec![1, 0, 0, 0, 0, -1]);
    a.append(b);
    assert_eq!(a.0, vec![1, 2, 3, 4, 5, 6, 7, 8, 9]);
    assert_eq!(a.1, vec![0, 1, 0, 1, 0, 0, 0, 0, -1]);
}

#[test]
fn empty_chunk_is_all_air_and_unmeshed() {
    let chunk = Chunk::empty();
    assert_eq!(chunk.size(), CHUNK_SIZE);
    assert_eq!(chunk.size(), 64);
    assert!(!chunk.is_meshed());
    assert_eq!(ground_count(&chunk), 0);
}

#[test]
fn empty_chunk_generates_an_empty_mesh() {
    let mut chunk = Chunk::with_size(5).unwrap();
    chunk.generate();
    assert!(chunk.is_meshed());
    assert!(chunk.get_mesh().0.is_empty());
    assert!(chunk.get_mesh().1.is_empty());
}

#[test]
fn with_size_refuses_impossible_sizes() {
    assert!(Chunk::with_size(0).is_none());
    assert!(Chunk::with_size(usize::MAX).is_none());
    assert!(Chunk::with_size(1 << 22).is_none());
    let chunk = Chunk::with_size(1).unwrap();
    assert_eq!(chunk.size(), 1);
}

#[test]
fn set_ground_sets_exactly_one_voxel() {
    let mut chunk = Chunk::with_size(4).unwrap();
    chunk.set_ground(Vec3::new(1, 2, 3));
    assert_eq!(ground_count(&chunk), 1);
    assert!(!chunk.is_pos_free(Vec3::new(1, 2, 3)));
    assert!(chunk.is_pos_free(Vec3::new(3, 2, 1)));
    assert!(chunk.is_pos_free(Vec3::new(2, 1, 3)));
    assert!(chunk.is_pos_free(Vec3::new(1, 3, 2)));
    assert!(!chunk.is_meshed());
}

#[test]
fn set_ground_twice_is_the_same_as_once() {
    let mut chunk = Chunk::with_size(4).unwrap();
    chunk.set_ground(Vec3::new(0, 0, 0));
    chunk.set_ground(Vec3::new(0, 0, 0));
    assert_eq!(ground_count(&chunk), 1);
}

#[test]
fn positions_outside_the_chunk_are_free() {
    let mut chunk = Chunk::with_size(2).unwrap();
    for y in 0..2 {
        for z in 0..2 {
            for x in 0..2 {
                chunk.set_ground(Vec3::new(x, y, z));
            }
        }
    }
    assert!(!chunk.is_pos_free(Vec3::new(1, 1, 1)));
    assert!(chunk.is_pos_free(Vec3::new(-1, 0, 0)));
    assert!(chunk.is_pos_free(Vec3::new(0, -1, 0)));
    assert!(chunk.is_pos_free(Vec3::new(0, 0, -1)));
    assert!(chunk.is_pos_free(Vec3::new(2, 0, 0)));
    assert!(chunk.is_pos_free(Vec3::new(0, 2, 0)));
    assert!(chunk.is_pos_free(Vec3::new(0, 0, 2)));
    assert!(chunk.is_pos_free(Vec3::new(i64::MAX, 0, 0)));
    assert!(chunk.is_pos_free(Vec3::new(0, i64::MIN, 0)));
}

#[test]
fn isolated_voxel_emits_six_quads_with_distinct_normals() {
    let mut chunk = Chunk::with_size(5).unwrap();
    chunk.set_ground(Vec3::new(2, 2, 2));
    chunk.generate();
    let mesh = chunk.get_mesh();
    assert_eq!(mesh.0.len(), 36 * 3);
    assert_eq!(mesh.1.len(), 36 * 3);
    let per_quad: Vec<(i8, i8, i8)> = normals(mesh).chunks(6).map(|q| {
        assert!(q.iter().all(|n| *n == q[0]));
        q[0]
    }).collect();
    assert_eq!(
        per_quad,
        vec![(0, 1, 0), (0, -1, 0), (-1, 0, 0), (1, 0, 0), (0, 0, 1), (0, 0, -1)]
    );
    for v in vertices(mesh) {
        assert!(2 <= v.0 && v.0 <= 3 && 2 <= v.1 && v.1 <= 3 && 2 <= v.2 && v.2 <= 3);
    }
}

#[test]
fn isolated_voxel_in_a_corner_still_emits_six_quads() {
    let mut chunk = Chunk::with_size(3).unwrap();
    chunk.set_ground(Vec3::new(0, 0, 0));
    chunk.generate();
    assert_eq!(chunk.get_mesh().0.len(), 36 * 3);
    let mut chunk = Chunk::with_size(3).unwrap();
    chunk.set_ground(Vec3::new(2, 2, 2));
    chunk.generate();
    assert_eq!(chunk.get_mesh().0.len(), 36 * 3);
    let mut chunk = Chunk::with_size(1).unwrap();
    chunk.set_ground(Vec3::new(0, 0, 0));
    chunk.generate();
    assert_eq!(chunk.get_mesh().0.len(), 36 * 3);
}

#[test]
fn gen_voxel_of_an_isolated_voxel_is_the_six_quads_in_order() {
    let mut chunk = Chunk::with_size(4).unwrap();
    chunk.set_ground(Vec3::new(1, 1, 1));
    let mesh = chunk.gen_voxel(&Vec3::new(1, 1, 1));
    let mut expected = VertNormal::new(Vec::new(), Vec::new());
    for side in [
        QuadSide::Top,
        QuadSide::Bottom,
        QuadSide::Left,
        QuadSide::Right,
        QuadSide::Front,
        QuadSide::Back,
    ] {
        expected.append(gen_quad(side, 1, 1, 1));
    }
    assert_eq!(mesh.0, expected.0);
    assert_eq!(mesh.1, expected.1);
}

#[test]
fn interior_voxel_contributes_no_vertices() {
    let mut chunk = Chunk::with_size(5).unwrap();
    for y in 1..4 {
        for z in 1..4 {
            for x in 1..4 {
                chunk.set_ground(Vec3::new(x, y, z));
            }
        }
    }
    let centre = chunk.gen_voxel(&Vec3::new(2, 2, 2));
    assert!(centre.0.is_empty());
    assert!(centre.1.is_empty());
    chunk.generate();
    // a 3x3x3 cube shows 9 faces on each of its 6 sides
    assert_eq!(chunk.get_mesh().0.len(), 54 * 6 * 3);
}

#[test]
fn shared_faces_of_neighbours_are_culled() {
    let mut chunk = Chunk::with_size(4).unwrap();
    chunk.set_ground(Vec3::new(1, 1, 1));
    chunk.set_ground(Vec3::new(2, 1, 1));
    let left = chunk.gen_voxel(&Vec3::new(1, 1, 1));
    let right = chunk.gen_voxel(&Vec3::new(2, 1, 1));
    assert_eq!(left.0.len(), 5 * 18);
    assert_eq!(right.0.len(), 5 * 18);
    assert!(!normals(&left).contains(&(1, 0, 0)));
    assert!(!normals(&right).contains(&(-1, 0, 0)));
    chunk.generate();
    assert_eq!(chunk.get_mesh().0.len(), 10 * 18);
}

#[test]
fn mesh_lists_voxels_in_linear_order() {
    let mut chunk = Chunk::with_size(3).unwrap();
    // far apart, so that every voxel shows all six faces
    chunk.set_ground(Vec3::new(2, 0, 0));
    chunk.set_ground(Vec3::new(0, 0, 2));
    chunk.set_ground(Vec3::new(0, 2, 0));
    chunk.generate();
    let mut expected = VertNormal::new(Vec::new(), Vec::new());
    // x varies fastest, then z, then y
    for pos in [Vec3::new(2, 0, 0), Vec3::new(0, 0, 2), Vec3::new(0, 2, 0)] {
        expected.append(chunk.gen_voxel(&pos));
    }
    assert_eq!(chunk.get_mesh().0, expected.0);
    assert_eq!(chunk.get_mesh().1, expected.1);
    assert_eq!(chunk.get_mesh().0.len(), 3 * 36 * 3);
}

#[test]
fn full_chunk_shows_only_its_border() {
    let mut chunk = Chunk::with_size(3).unwrap();
    for y in 0..3 {
        for z in 0..3 {
            for x in 0..3 {
                chunk.set_ground(Vec3::new(x, y, z));
            }
        }
    }
    chunk.generate();
    let mesh = chunk.get_mesh();
    assert_eq!(mesh.0.len(), 6 * 9 * 18);
    assert_eq!(mesh.0.len(), mesh.1.len());
    assert_eq!(mesh.0.len() % 9, 0);
    assert!(mesh.0.iter().all(|c| *c <= 3));
}

#[test]
fn generate_twice_gives_the_same_mesh() {
    let mut chunk = Chunk::with_size(4).unwrap();
    chunk.set_ground(Vec3::new(1, 2, 3));
    chunk.set_ground(Vec3::new(1, 2, 2));
    chunk.generate();
    let first = (chunk.get_mesh().0.clone(), chunk.get_mesh().1.clone());
    chunk.generate();
    assert_eq!(chunk.get_mesh().0, first.0);
    assert_eq!(chunk.get_mesh().1, first.1);
}

#[test]
fn rolls_map_to_voxels() {
    assert_eq!(Voxel::from_roll(0), Voxel::Air);
    assert_eq!(Voxel::from_roll(98), Voxel::Air);
    assert_eq!(Voxel::from_roll(99), Voxel::Ground);
    assert_eq!(Voxel::from_roll(100), Voxel::Ground);
}

#[test]
fn noise_chunk_is_about_one_percent_ground() {
    let chunk = Chunk::new();
    assert_eq!(chunk.size(), CHUNK_SIZE);
    assert!(!chunk.is_meshed());
    let ground = ground_count(&chunk);
    let total = CHUNK_SIZE * CHUNK_SIZE * CHUNK_SIZE;
    // the expected share is 1%; both bounds are dozens of deviations away
    assert!(ground > total / 200, "{} of {}", ground, total);
    assert!(ground < total / 50, "{} of {}", ground, total);
}

#[test]
fn noise_chunks_differ() {
    let a = Chunk::new();
    let b = Chunk::new();
    let mut differ = false;
    for y in 0..8 {
        for z in 0..64 {
            for x in 0..64 {
                let p = Vec3::new(x, y, z);
                if a.is_pos_free(p) != b.is_pos_free(p) {
                    differ = true;
                }
            }
        }
    }
    assert!(differ);
}

#[test]
fn mesh_is_the_quads_of_the_exposed_faces_in_order() {
    let mut chunk = Chunk::new();
    let size = chunk.size();
    let sides = [
        (QuadSide::Top, (0, 1, 0)),
        (QuadSide::Bottom, (0, -1, 0)),
        (QuadSide::Left, (-1, 0, 0)),
        (QuadSide::Right, (1, 0, 0)),
        (QuadSide::Front, (0, 0, 1)),
        (QuadSide::Back, (0, 0, -1)),
    ];
    let mut expected = VertNormal::new(Vec::new(), Vec::new());
    let mut faces = 0;
    for y in 0..size {
        for z in 0..size {
            for x in 0..size {
                let (sx, sy, sz) = (x as i64, y as i64, z as i64);
                if chunk.is_pos_free(Vec3::new(sx, sy, sz)) {
                    continue;
                }
                for (side, (dx, dy, dz)) in sides {
                    if chunk.is_pos_free(Vec3::new(sx + dx, sy + dy, sz + dz)) {
                        expected.append(gen_quad(side, x, y, z));
                        faces += 1;
                    }
                }
            }
        }
    }
    chunk.generate();
    let mesh = chunk.get_mesh();
    assert_eq!(mesh.0.len(), 18 * faces);
    assert_eq!(mesh.0, expected.0);
    assert_eq!(mesh.1, expected.1);
    let mut blocks: Vec<(Vec<usize>, Vec<i8>)> = mesh
        .0
        .chunks(18)
        .zip(mesh.1.chunks(18))
        .map(|(v, n)| (v.to_vec(), n.to_vec()))
        .collect();
    blocks.sort();
    blocks.dedup();
    assert_eq!(blocks.len(), faces);
}
