//! The chunked world: a sparse map from chunk coordinates to voxel chunks,
//! built by expanding the wall tiles of a tile map into blocks of ground.

use crate::chunk::{lemma_edge_bound, lemma_index, Chunk, ChunkView, Voxel, CHUNK_SIZE};
use crate::map::{Area, AreaView, Tile};
use crate::space::{
    block, blocks, chunks_along, floor_div, floor_mod, lemma_block_tile, lemma_blocks_len,
    lemma_chunks_cover, lemma_div_mod_unique, lemma_linear, lemma_linear_inverse, scale_fits,
    swept, Point,
};
use std::collections::hash_map::Entry;
use std::collections::HashMap;
use vek::Vec3;
use vstd::arithmetic::div_mod::{lemma_fundamental_div_mod_converse, lemma_mod_bound};
use vstd::prelude::*;
use vstd::std_specs::hash::*;
use vstd::std_specs::iter::IteratorSpec;

verus! {

broadcast use vstd::std_specs::hash::group_hash_axioms;

/// Voxels per tile edge of a world built with [`World::from_area`].
pub const EXPANSION: usize = 10;

/// Mathematical content of a world: its scale, the number of chunks it can
/// hold along each axis, and its chunks by chunk coordinate.
pub struct WorldView {
    pub chunk_size: nat,
    pub expansion: nat,
    pub grid: Point,
    pub chunks: Map<Point, ChunkView>,
}

impl WorldView {
    /// Coordinate of the chunk that owns voxel `g`: the floor of `g` over
    /// the chunk size, on every axis.
    pub open spec fn chunk_of(self, g: Point) -> Point {
        let cs = self.chunk_size as int;
        (g.0 / cs, g.1 / cs, g.2 / cs)
    }

    /// Position of voxel `g` inside its chunk: the non-negative remainder
    /// of `g` by the chunk size, on every axis.
    pub open spec fn local_of(self, g: Point) -> Point {
        let cs = self.chunk_size as int;
        (g.0 % cs, g.1 % cs, g.2 % cs)
    }

    /// Whether voxel `g` is ground. A chunk that is absent counts as air
    /// throughout.
    pub open spec fn is_ground(self, g: Point) -> bool {
        let c = self.chunk_of(g);
        let l = self.local_of(g);
        self.chunks.contains_key(c) && self.chunks[c].grid.is_ground(l.0, l.1, l.2)
    }

    /// All ground voxels of all chunks, by their world coordinates.
    pub open spec fn ground_set(self) -> Set<Point> {
        Set::new(|g: Point| self.is_ground(g))
    }

    pub open spec fn in_grid(self, c: Point) -> bool {
        0 <= c.0 < self.grid.0 && 0 <= c.1 < self.grid.1 && 0 <= c.2 < self.grid.2
    }

    /// Every chunk lies in the grid, is well formed, has the world's chunk
    /// size, and holds ground somewhere: no chunk is all air.
    pub open spec fn wf(self) -> bool {
        &&& self.chunk_size >= 1
        &&& self.expansion >= 1
        &&& forall|c: Point| #[trigger]
            self.chunks.contains_key(c) ==> {
                &&& self.in_grid(c)
                &&& self.chunks[c].wf()
                &&& self.chunks[c].grid.size == self.chunk_size
                &&& self.chunks[c].grid.has_ground()
            }
    }

    /// Every chunk has its mesh.
    pub open spec fn meshed(self) -> bool {
        forall|c: Point| #[trigger] self.chunks.contains_key(c) ==> self.chunks[c].mesh is Some
    }

    /// No chunk has a mesh yet.
    spec fn unmeshed(self) -> bool {
        forall|c: Point| #[trigger] self.chunks.contains_key(c) ==> self.chunks[c].mesh is None
    }

    /// Whether voxel `g` can be stored: its chunk lies in the grid.
    spec fn holds(self, g: Point) -> bool {
        g.0 >= 0 && g.1 >= 0 && g.2 >= 0 && self.in_grid(self.chunk_of(g))
    }

    /// Whether every voxel of tile `t` can be stored.
    spec fn covers(self, t: Point) -> bool {
        forall|g: Point| #[trigger] block(t, self.expansion as int).contains(g) ==> self.holds(g)
    }

    /// The chunks of `self` and `other` hold the same voxels.
    spec fn same_voxels(self, other: WorldView) -> bool {
        &&& self.chunks.dom() == other.chunks.dom()
        &&& forall|c: Point| #[trigger]
            self.chunks.contains_key(c) ==> self.chunks[c].grid == other.chunks[c].grid
    }

    /// The world is the rasterisation of `area`: a voxel is ground exactly
    /// where the tile it belongs to is a wall.
    pub open spec fn models(self, area: AreaView) -> bool {
        self.ground_set() == blocks(area.wall_set(), self.expansion as int)
    }

    /// The world is what building from `area` gives at `expansion` voxels
    /// per tile edge and chunks of edge `chunk_size`: well formed, hence
    /// sparse; of that scale; with the grid that covers the map; with
    /// ground exactly in the blocks of the wall tiles; and with every chunk
    /// meshed.
    pub open spec fn is_world_of(self, area: AreaView, expansion: nat, chunk_size: nat) -> bool {
        &&& self.wf()
        &&& self.chunk_size == chunk_size
        &&& self.expansion == expansion
        &&& self.grid == grid_for(area, expansion as int, chunk_size as int)
        &&& self.models(area)
        &&& self.meshed()
    }
}

impl WorldView {
    /// The voxel at local position `l` of the chunk at `c` is the voxel at
    /// world position `c * chunk_size + l`.
    pub proof fn lemma_cell(self, c: Point, l: Point)
        requires
            self.chunk_size >= 1,
            0 <= l.0 < self.chunk_size,
            0 <= l.1 < self.chunk_size,
            0 <= l.2 < self.chunk_size,
        ensures
            ({
                let cs = self.chunk_size as int;
                let g = (c.0 * cs + l.0, c.1 * cs + l.1, c.2 * cs + l.2);
                self.chunk_of(g) == c && self.local_of(g) == l
            }),
    {
        let cs = self.chunk_size as int;
        lemma_fundamental_div_mod_converse(c.0 * cs + l.0, cs, c.0, l.0);
        lemma_fundamental_div_mod_converse(c.1 * cs + l.1, cs, c.1, l.1);
        lemma_fundamental_div_mod_converse(c.2 * cs + l.2, cs, c.2, l.2);
    }

    /// Building is deterministic: two worlds built from one map at one
    /// scale are equal, chunk for chunk, voxel for voxel, and vertex for
    /// vertex of every mesh.
    pub proof fn lemma_deterministic(
        self,
        other: WorldView,
        area: AreaView,
        expansion: nat,
        chunk_size: nat,
    )
        requires
            self.is_world_of(area, expansion, chunk_size),
            other.is_world_of(area, expansion, chunk_size),
        ensures
            self == other,
    {
        self.lemma_contained(other);
        other.lemma_contained(self);
        assert forall|c: Point| self.chunks.contains_key(c) implies #[trigger] self.chunks[c]
            == other.chunks[c] by {
            assert(self.chunks[c].grid.voxels =~= other.chunks[c].grid.voxels);
        }
        assert(self.chunks =~= other.chunks);
    }

    /// Where two worlds have the same ground, each chunk of the first is
    /// a chunk of the second, with the same voxels.
    proof fn lemma_contained(self, other: WorldView)
        requires
            self.wf(),
            other.wf(),
            self.ground_set() == other.ground_set(),
            self.chunk_size == other.chunk_size,
        ensures
            forall|c: Point| #[trigger]
                self.chunks.contains_key(c) ==> other.chunks.contains_key(c),
            forall|c: Point, i: int|
                self.chunks.contains_key(c) && 0 <= i < self.chunks[c].grid.voxels.len()
                    ==> #[trigger] self.chunks[c].grid.voxels[i]
                    == #[trigger] other.chunks[c].grid.voxels[i],
    {
        let cs = self.chunk_size as int;
        assert forall|c: Point| #[trigger] self.chunks.contains_key(c) implies
            other.chunks.contains_key(c) by {
            let grid = self.chunks[c].grid;
            let (x, y, z) = choose|x: int, y: int, z: int| grid.is_ground(x, y, z);
            self.lemma_cell(c, (x, y, z));
            let g = (c.0 * cs + x, c.1 * cs + y, c.2 * cs + z);
            assert(self.ground_set().contains(g));
            assert(other.ground_set().contains(g));
        }
        assert forall|c: Point, i: int|
            self.chunks.contains_key(c) && 0 <= i < self.chunks[c].grid.voxels.len() implies
            #[trigger] self.chunks[c].grid.voxels[i]
            == #[trigger] other.chunks[c].grid.voxels[i] by {
            lemma_linear_inverse(cs, cs, cs, i);
            let l = (i % cs, i / cs / cs, i / cs % cs);
            self.lemma_cell(c, l);
            let g = (c.0 * cs + l.0, c.1 * cs + l.1, c.2 * cs + l.2);
            assert(self.ground_set().contains(g) == self.is_ground(g));
            assert(other.ground_set().contains(g) == other.is_ground(g));
            assert(self.chunks[c].grid.index(l.0, l.1, l.2) == i);
            assert(other.chunks[c].grid.index(l.0, l.1, l.2) == i);
        }
    }

    /// Volume is conserved: a world that is the rasterisation of a map
    /// holds `expansion³` ground voxels for each wall tile of the map.
    pub proof fn lemma_volume(self, area: AreaView)
        requires
            self.expansion >= 1,
            self.models(area),
        ensures
            area.wall_set().finite(),
            self.ground_set().finite(),
            self.ground_set().len() == area.wall_set().len() * (self.expansion * self.expansion
                * self.expansion),
    {
        area.lemma_wall_set_finite();
        lemma_blocks_len(area.wall_set(), self.expansion as int);
    }

    /// The world is sparse: the voxels of a chunk that exists are never
    /// all air.
    pub proof fn lemma_sparse(self, c: Point)
        requires
            self.wf(),
            self.chunks.contains_key(c),
        ensures
            exists|i: int|
                0 <= i < self.chunks[c].grid.voxels.len()
                    && #[trigger] self.chunks[c].grid.voxels[i] == Voxel::Ground,
    {
        let grid = self.chunks[c].grid;
        let (x, y, z) = choose|x: int, y: int, z: int| grid.is_ground(x, y, z);
        lemma_index(grid.size as int, x, y, z);
        assert(grid.voxels[grid.index(x, y, z)] == Voxel::Ground);
    }

    /// Every voxel of a wall tile's block is ground: the chunk that owns
    /// it exists and holds ground at the voxel's position in that chunk,
    /// however many chunks the block reaches into. The voxels of every
    /// other tile's block are air.
    pub proof fn lemma_wall_block(self, area: AreaView, t: Point, g: Point)
        requires
            self.expansion >= 1,
            self.models(area),
            block(t, self.expansion as int).contains(g),
        ensures
            area.wall_set().contains(t) <==> self.is_ground(g),
    {
        lemma_block_tile(g, t, self.expansion as int);
        assert(self.ground_set().contains(g) == blocks(
            area.wall_set(),
            self.expansion as int,
        ).contains(g));
    }

    /// Where a tile is no wider than a chunk, the block of the tile at the
    /// origin lies in the chunk at the origin, every voxel at the position
    /// that is its world position.
    pub proof fn lemma_origin_block(self, g: Point)
        requires
            1 <= self.expansion <= self.chunk_size,
            block((0, 0, 0), self.expansion as int).contains(g),
        ensures
            self.chunk_of(g) == (0int, 0int, 0int),
            self.local_of(g) == g,
    {
        let cs = self.chunk_size as int;
        lemma_fundamental_div_mod_converse(g.0, cs, 0, g.0);
        lemma_fundamental_div_mod_converse(g.1, cs, 0, g.1);
        lemma_fundamental_div_mod_converse(g.2, cs, 0, g.2);
    }
}

/// The dimensions of a map as a point.
pub open spec fn dims_of(area: AreaView) -> Point {
    (area.width as int, area.height as int, area.depth as int)
}

/// The grid of chunks that covers `area` at `e` voxels per tile edge.
pub open spec fn grid_for(area: AreaView, e: int, cs: int) -> Point {
    (
        chunks_along(area.width as int, e, cs),
        chunks_along(area.height as int, e, cs),
        chunks_along(area.depth as int, e, cs),
    )
}

/// Number of chunks of edge `cs` that cover `count` tiles of `e` voxels
/// each, where that number can be held.
fn chunks_needed(count: usize, e: usize, cs: usize) -> (r: Option<usize>)
    requires
        cs >= 1,
    ensures
        match r {
            Some(n) => n == chunks_along(count as int, e as int, cs as int),
            None => chunks_along(count as int, e as int, cs as int) > usize::MAX,
        },
{
    assert(count * e + (cs - 1) <= u128::MAX) by (nonlinear_arith)
        requires
            count <= 0xffff_ffff_ffff_ffff,
            e <= 0xffff_ffff_ffff_ffff,
            1 <= cs <= 0xffff_ffff_ffff_ffff,
            u128::MAX == 0xffff_ffff_ffff_ffff_ffff_ffff_ffff_ffff,
    ;
    let total: u128 = count as u128 * e as u128 + (cs as u128 - 1);
    let n = total / cs as u128;
    if n > usize::MAX as u128 {
        None
    } else {
        Some(n as usize)
    }
}

/// A sparse set of chunks addressed by chunk coordinate. Chunks exist only
/// where there is ground.
pub struct World {
    chunks: HashMap<usize, Chunk>,
    chunk_size: usize,
    expansion: usize,
    nx: usize,
    ny: usize,
    nz: usize,
}

impl View for World {
    type V = WorldView;

    closed spec fn view(&self) -> WorldView {
        WorldView {
            chunk_size: self.chunk_size as nat,
            expansion: self.expansion as nat,
            grid: (self.nx as int, self.ny as int, self.nz as int),
            chunks: Map::new(
                |c: Point|
                    0 <= c.0 < self.nx && 0 <= c.1 < self.ny && 0 <= c.2 < self.nz
                        && self.chunks@.contains_key(self.key_of(c) as usize),
                |c: Point| self.chunks@[self.key_of(c) as usize]@,
            ),
        }
    }
}

impl World {
    /// The key under which the chunk at `c` is stored: chunks are numbered
    /// like voxels, `x` fastest, then `z`, then `y`.
    closed spec fn key_of(&self, c: Point) -> int {
        (c.1 * self.nz + c.2) * self.nx + c.0
    }

    /// Number of keys of the grid.
    closed spec fn key_count(&self) -> int {
        self.ny as int * self.nz as int * self.nx as int
    }

    /// The chunk coordinate that key `k` stands for.
    closed spec fn coord_of(&self, k: int) -> Point {
        (k % (self.nx as int), k / (self.nx as int) / (self.nz as int), k / (self.nx as int) % (
        self.nz as int))
    }

    /// The stored chunks are those of a well-formed world, the chunk size
    /// admits a chunk, and every grid position has a key.
    pub closed spec fn wf(&self) -> bool {
        &&& self@.wf()
        &&& self.chunk_size * self.chunk_size * self.chunk_size <= usize::MAX
        &&& self.key_count() <= usize::MAX
        &&& forall|k: usize| #[trigger]
            self.chunks@.contains_key(k) ==> k < self.key_count()
    }

    /// A well-formed world has a well-formed view.
    pub proof fn lemma_wf(&self)
        requires
            self.wf(),
        ensures
            self@.wf(),
    {
    }

    /// Keys and grid positions correspond one to one.
    proof fn lemma_key(&self, c: Point)
        requires
            self@.in_grid(c),
        ensures
            0 <= self.key_of(c) < self.key_count(),
            self.coord_of(self.key_of(c)) == c,
    {
        lemma_linear(self.nx as int, self.nz as int, self.ny as int, c.0, c.2, c.1);
    }

    /// Edge length of the chunks, in voxels.
    pub fn chunk_size(&self) -> (n: usize)
        ensures
            n == self@.chunk_size,
    {
        self.chunk_size
    }

    /// Voxels per tile edge.
    pub fn expansion(&self) -> (n: usize)
        ensures
            n == self@.expansion,
    {
        self.expansion
    }

    /// Number of chunks that the world can hold along each axis.
    pub fn grid(&self) -> (n: Vec3<usize>)
        ensures
            (n.x as int, n.y as int, n.z as int) == self@.grid,
    {
        Vec3 { x: self.nx, y: self.ny, z: self.nz }
    }

    /// Number of chunks that exist.
    pub fn len(&self) -> (n: usize)
        requires
            self.wf(),
        ensures
            n == self@.chunks.dom().len(),
    {
        proof {
            self.lemma_dom();
        }
        self.chunks.len()
    }

    /// The chunk coordinates in use are the stored keys, decoded.
    proof fn lemma_dom(&self)
        requires
            self.wf(),
        ensures
            self@.chunks.dom().finite(),
            self@.chunks.dom().len() == self.chunks@.dom().len(),
    {
        let keys = self.chunks@.dom();
        let coords = self@.chunks.dom();
        let decode = |k: usize| self.coord_of(k as int);
        assert forall|c: Point| coords.contains(c) implies keys.map(decode).contains(c) by {
            self.lemma_key(c);
            let k = self.key_of(c) as usize;
            assert(keys.contains(k) && decode(k) == c);
        }
        assert forall|c: Point| keys.map(decode).contains(c) implies coords.contains(c) by {
            let k = choose|k: usize| keys.contains(k) && decode(k) == c;
            self.lemma_coord(k as int);
        }
        assert(coords =~= keys.map(decode));
        assert forall|k1: usize, k2: usize|
            keys.contains(k1) && keys.contains(k2) && #[trigger] decode(k1) == #[trigger] decode(
                k2,
            ) implies k1 == k2 by {
            self.lemma_coord(k1 as int);
            self.lemma_coord(k2 as int);
        }
        assert(vstd::relations::injective_on(decode, keys));
        vstd::set_lib::lemma_map_size(keys, coords, decode);
    }

    /// Every key below the key count stands for a grid position.
    proof fn lemma_coord(&self, k: int)
        requires
            0 <= k < self.key_count(),
        ensures
            self@.in_grid(self.coord_of(k)),
            self.key_of(self.coord_of(k)) == k,
    {
        lemma_linear_inverse(self.nx as int, self.nz as int, self.ny as int, k);
    }

    /// Turns voxel `(gx, gy, gz)` into ground. The chunk that owns it is
    /// created, all air, where it does not exist yet.
    fn set_voxel(&mut self, gx: u128, gy: u128, gz: u128)
        requires
            old(self).wf(),
            old(self)@.unmeshed(),
            old(self)@.holds((gx as int, gy as int, gz as int)),
        ensures
            final(self).wf(),
            final(self)@.unmeshed(),
            final(self)@.chunk_size == old(self)@.chunk_size,
            final(self)@.expansion == old(self)@.expansion,
            final(self)@.grid == old(self)@.grid,
            final(self)@.ground_set() == old(self)@.ground_set().insert(
                (gx as int, gy as int, gz as int),
            ),
    {
        let ghost before = self@;
        let ghost g: Point = (gx as int, gy as int, gz as int);
        let ghost c = before.chunk_of(g);
        let ghost l = before.local_of(g);
        let size = self.chunk_size;
        let cs = size as u128;
        proof {
            self.lemma_key(c);
            lemma_mod_bound(g.0, cs as int);
            lemma_mod_bound(g.1, cs as int);
            lemma_mod_bound(g.2, cs as int);
            lemma_linear(self.nx as int, self.nz as int, self.ny as int, c.0, c.2, c.1);
            assert(self.ny * self.nz <= self.ny * self.nz * self.nx) by (nonlinear_arith)
                requires
                    self.nx >= 1,
            ;
        }
        let cx = (gx / cs) as usize;
        let cy = (gy / cs) as usize;
        let cz = (gz / cs) as usize;
        let pos = Vec3 { x: (gx % cs) as usize, y: (gy % cs) as usize, z: (gz % cs) as usize };
        let key = (cy * self.nz + cz) * self.nx + cx;
        assert(key == self.key_of(c));
        match self.chunks.entry(key) {
            Entry::Occupied(mut entry) => {
                assert(before.chunks.contains_key(c));
                entry.get_mut().set_ground(pos);
            },
            Entry::Vacant(entry) => {
                let mut chunk = Chunk::with_size(size).unwrap();
                chunk.set_ground(pos);
                entry.insert(chunk);
            },
        }
        proof {
            let after = self@;
            let stored = self.chunks@[key]@;
            assert(self.chunks@.dom() =~= old(self).chunks@.dom().insert(key));
            assert forall|k: usize| self.chunks@.contains_key(k) && k != key implies self.chunks@[k]
                == old(self).chunks@[k] by {}
            assert forall|c2: Point| #[trigger] after.chunks.contains_key(c2) implies {
                &&& after.in_grid(c2)
                &&& after.chunks[c2].wf()
                &&& after.chunks[c2].grid.size == after.chunk_size
                &&& after.chunks[c2].grid.has_ground()
                &&& after.chunks[c2].mesh is None
                &&& c2 != c ==> before.chunks.contains_key(c2) && after.chunks[c2]
                    == before.chunks[c2]
            } by {
                self.lemma_key(c2);
                if c2 == c {
                    lemma_index(cs as int, l.0, l.1, l.2);
                    assert(stored.grid.is_ground(l.0, l.1, l.2));
                } else {
                    assert(self.key_of(c2) != key);
                    assert(before.chunks.contains_key(c2));
                }
            }
            assert(after.chunks.contains_key(c));
            assert forall|c2: Point| #[trigger]
                before.chunks.contains_key(c2) implies after.chunks.contains_key(c2) by {
                self.lemma_key(c2);
            }
            assert forall|g2: Point|
                after.is_ground(g2) <==> before.is_ground(g2) || g2 == g by {
                let c2 = before.chunk_of(g2);
                let l2 = before.local_of(g2);
                lemma_mod_bound(g2.0, cs as int);
                lemma_mod_bound(g2.1, cs as int);
                lemma_mod_bound(g2.2, cs as int);
                if c2 == c {
                    lemma_index(cs as int, l.0, l.1, l.2);
                    lemma_index(cs as int, l2.0, l2.1, l2.2);
                    if l2 == l {
                        lemma_div_mod_unique(g2.0, g.0, cs as int);
                        lemma_div_mod_unique(g2.1, g.1, cs as int);
                        lemma_div_mod_unique(g2.2, g.2, cs as int);
                    }
                }
            }
            assert(after.ground_set() =~= before.ground_set().insert(g));
        }
    }
    /// Rasterises tile `(x, y, z)`: every voxel of its block becomes
    /// ground, whichever chunks the block reaches into.
    fn build(&mut self, x: usize, y: usize, z: usize)
        requires
            old(self).wf(),
            old(self)@.unmeshed(),
            old(self)@.covers((x as int, y as int, z as int)),
        ensures
            final(self).wf(),
            final(self)@.unmeshed(),
            final(self)@.chunk_size == old(self)@.chunk_size,
            final(self)@.expansion == old(self)@.expansion,
            final(self)@.grid == old(self)@.grid,
            final(self)@.ground_set() == old(self)@.ground_set() + block(
                (x as int, y as int, z as int),
                old(self)@.expansion as int,
            ),
    {
        let ghost before = self@;
        let ghost start = self@.ground_set();
        let ghost tile: Point = (x as int, y as int, z as int);
        let ghost all = block(tile, self.expansion as int);
        let e = self.expansion as u128;
        assert(x * e + e <= u128::MAX && y * e + e <= u128::MAX && z * e + e <= u128::MAX)
            by (nonlinear_arith)
            requires
                x <= 0xffff_ffff_ffff_ffff,
                y <= 0xffff_ffff_ffff_ffff,
                z <= 0xffff_ffff_ffff_ffff,
                e <= 0xffff_ffff_ffff_ffff,
                u128::MAX == 0xffff_ffff_ffff_ffff_ffff_ffff_ffff_ffff,
        ;
        let x0 = x as u128 * e;
        let y0 = y as u128 * e;
        let z0 = z as u128 * e;
        let mut gy = y0;
        assert(swept(all, (x0 as int, y0 as int, z0 as int)) =~= Set::empty());
        assert(start + Set::empty() =~= start);
        while gy < y0 + e
            invariant
                self.wf(),
                self@.unmeshed(),
                self@.chunk_size == before.chunk_size,
                self@.expansion == before.expansion,
                self@.grid == before.grid,
                before.covers(tile),
                tile == (x as int, y as int, z as int),
                all == block(tile, before.expansion as int),
                e == before.expansion,
                x0 == x * e,
                y0 == y * e,
                z0 == z * e,
                x0 + e <= u128::MAX,
                y0 + e <= u128::MAX,
                z0 + e <= u128::MAX,
                y0 <= gy <= y0 + e,
                self@.ground_set() == start + swept(all, (x0 as int, gy as int, z0 as int)),
            decreases y0 + e - gy,
        {
            let mut gz = z0;
            while gz < z0 + e
                invariant
                    self.wf(),
                    self@.unmeshed(),
                    self@.chunk_size == before.chunk_size,
                    self@.expansion == before.expansion,
                    self@.grid == before.grid,
                    before.covers(tile),
                    tile == (x as int, y as int, z as int),
                    all == block(tile, before.expansion as int),
                    e == before.expansion,
                    x0 == x * e,
                    y0 == y * e,
                    z0 == z * e,
                    x0 + e <= u128::MAX,
                    z0 + e <= u128::MAX,
                    y0 <= gy < y0 + e,
                    z0 <= gz <= z0 + e,
                    self@.ground_set() == start + swept(all, (x0 as int, gy as int, gz as int)),
                decreases z0 + e - gz,
            {
                let mut gx = x0;
                while gx < x0 + e
                    invariant
                        self.wf(),
                        self@.unmeshed(),
                        self@.chunk_size == before.chunk_size,
                        self@.expansion == before.expansion,
                        self@.grid == before.grid,
                        before.covers(tile),
                        tile == (x as int, y as int, z as int),
                        all == block(tile, before.expansion as int),
                        e == before.expansion,
                        x0 == x * e,
                        y0 == y * e,
                        z0 == z * e,
                        x0 + e <= u128::MAX,
                        y0 <= gy < y0 + e,
                        z0 <= gz < z0 + e,
                        x0 <= gx <= x0 + e,
                        self@.ground_set() == start + swept(
                            all,
                            (gx as int, gy as int, gz as int),
                        ),
                    decreases x0 + e - gx,
                {
                    let ghost g: Point = (gx as int, gy as int, gz as int);
                    assert(all.contains(g));
                    self.set_voxel(gx, gy, gz);
                    assert(swept(all, (gx + 1, gy as int, gz as int)) =~= swept(all, g).insert(g));
                    assert(start + swept(all, g).insert(g) =~= (start + swept(all, g)).insert(g));
                    gx += 1;
                }
                assert(swept(all, (x0 + e, gy as int, gz as int)) =~= swept(
                    all,
                    (x0 as int, gy as int, gz + 1),
                ));
                gz += 1;
            }
            assert(swept(all, (x0 as int, gy as int, z0 + e)) =~= swept(
                all,
                (x0 as int, gy + 1, z0 as int),
            ));
            gy += 1;
        }
        assert(swept(all, (x0 as int, y0 + e, z0 as int)) =~= all);
    }
    /// Generates the mesh of every chunk.
    fn generate_all(&mut self)
        requires
            old(self).wf(),
        ensures
            final(self).wf(),
            final(self)@.meshed(),
            final(self)@.chunk_size == old(self)@.chunk_size,
            final(self)@.expansion == old(self)@.expansion,
            final(self)@.grid == old(self)@.grid,
            final(self)@.same_voxels(old(self)@),
    {
        let ghost before = self@;
        let ghost stored = self.chunks@;
        let mut keys: Vec<usize> = Vec::new();
        for k in it: self.chunks.keys()
            invariant
                it.seq() == spec_keys_iter(&self.chunks).remaining(),
                keys@ == it.seq().take(it.index() as int).unref(),
        {
            keys.push(*k);
        }
        proof {
            let all = spec_keys_iter(&self.chunks).remaining();
            assert(all.take(all.len() as int) =~= all);
            assert(keys@.to_set() =~= stored.dom());
            assert forall|k: usize| #[trigger] stored.contains_key(k) implies stored[k].wf() by {
                self.lemma_coord(k as int);
                assert(before.chunks.contains_key(self.coord_of(k as int)));
            }
        }
        let mut i: usize = 0;
        while i < keys.len()
            invariant
                i <= keys@.len(),
                keys@.to_set() == stored.dom(),
                self.chunk_size == old(self).chunk_size,
                self.expansion == old(self).expansion,
                self.nx == old(self).nx,
                self.ny == old(self).ny,
                self.nz == old(self).nz,
                self.chunks@.dom() == stored.dom(),
                forall|k: usize| #[trigger]
                    stored.contains_key(k) ==> self.chunks@[k].wf() && self.chunks@[k]@.grid
                        == stored[k]@.grid,
                forall|j: int| 0 <= j < i ==> (#[trigger] self.chunks@[keys@[j]])@.mesh is Some,
            decreases keys@.len() - i,
        {
            let key = keys[i];
            assert(keys@.to_set().contains(keys@[i as int]));
            match self.chunks.entry(key) {
                Entry::Occupied(mut entry) => {
                    entry.get_mut().generate();
                },
                Entry::Vacant(entry) => {},
            }
            assert(self.chunks@.dom() =~= stored.dom());
            i += 1;
        }
        proof {
            let after = self@;
            assert forall|k: usize| #[trigger] stored.contains_key(k) implies
                self.chunks@[k]@.mesh is Some by {
                assert(keys@.to_set().contains(k));
                let j = choose|j: int| 0 <= j < keys@.len() && keys@[j] == k;
                assert(self.chunks@[keys@[j]]@.mesh is Some);
            }
            assert(after.chunks.dom() =~= before.chunks.dom());
            assert forall|c: Point| #[trigger] after.chunks.contains_key(c) implies {
                &&& after.chunks[c].grid == before.chunks[c].grid
                &&& after.chunks[c].wf()
                &&& after.chunks[c].mesh is Some
            } by {
                old(self).lemma_key(c);
            }
        }
    }

    /// The world of `area` at the given scale, which must fit.
    fn raster(
        area: &Area,
        expansion: usize,
        chunk_size: usize,
        nx: usize,
        ny: usize,
        nz: usize,
    ) -> (w: World)
        requires
            area.wf(),
            scale_fits(dims_of(area@), expansion as int, chunk_size as int),
            (nx as int, ny as int, nz as int) == grid_for(
                area@,
                expansion as int,
                chunk_size as int,
            ),
        ensures
            w.wf(),
            w@.meshed(),
            w@.chunk_size == chunk_size,
            w@.expansion == expansion,
            w@.grid == grid_for(area@, expansion as int, chunk_size as int),
            w@.models(area@),
    {
        let mut world = World { chunks: HashMap::new(), chunk_size, expansion, nx, ny, nz };
        let ghost source = area@;
        let ghost walls = source.wall_set();
        let ghost e = expansion as int;
        let ghost cs = chunk_size as int;
        let width = area.width();
        let height = area.height();
        let depth = area.depth();
        proof {
            assert(world@.chunks.dom() =~= Set::empty());
            assert(world@.ground_set() =~= Set::empty());
            assert(swept(walls, (0, 0, 0)) =~= Set::empty());
            assert(blocks(Set::empty(), e) =~= Set::empty());
        }
        let mut y: usize = 0;
        while y < height
            invariant
                area.wf(),
                area@ == source,
                walls == source.wall_set(),
                width == source.width,
                height == source.height,
                depth == source.depth,
                e == expansion,
                cs == chunk_size,
                e >= 1,
                cs >= 1,
                world.wf(),
                world@.unmeshed(),
                world@.chunk_size == chunk_size,
                world@.expansion == expansion,
                world@.grid == grid_for(source, e, cs),
                y <= height,
                world@.ground_set() == blocks(swept(walls, (0, y as int, 0)), e),
            decreases height - y,
        {
            let mut z: usize = 0;
            while z < depth
                invariant
                    area.wf(),
                    area@ == source,
                    walls == source.wall_set(),
                    width == source.width,
                    height == source.height,
                    depth == source.depth,
                    e == expansion,
                    cs == chunk_size,
                    e >= 1,
                    cs >= 1,
                    world.wf(),
                    world@.unmeshed(),
                    world@.chunk_size == chunk_size,
                    world@.expansion == expansion,
                    world@.grid == grid_for(source, e, cs),
                    y < height,
                    z <= depth,
                    world@.ground_set() == blocks(swept(walls, (0, y as int, z as int)), e),
                decreases depth - z,
            {
                let mut x: usize = 0;
                while x < width
                    invariant
                        area.wf(),
                        area@ == source,
                        walls == source.wall_set(),
                        width == source.width,
                        height == source.height,
                        depth == source.depth,
                        e == expansion,
                        cs == chunk_size,
                        e >= 1,
                        cs >= 1,
                        world.wf(),
                        world@.unmeshed(),
                        world@.chunk_size == chunk_size,
                        world@.expansion == expansion,
                        world@.grid == grid_for(source, e, cs),
                        y < height,
                        z < depth,
                        x <= width,
                        world@.ground_set() == blocks(
                            swept(walls, (x as int, y as int, z as int)),
                            e,
                        ),
                    decreases width - x,
                {
                    let ghost t: Point = (x as int, y as int, z as int);
                    let ghost done = swept(walls, t);
                    let ghost next = swept(walls, (x + 1, y as int, z as int));
                    match area.tile_at(x, y, z) {
                        Tile::Wall => {
                            proof {
                                assert forall|g: Point| #[trigger]
                                    block(t, e).contains(g) implies world@.holds(g) by {
                                    assert(g.0 < (x + 1) * e <= width * e && g.1 < (y + 1) * e
                                        <= height * e && g.2 < (z + 1) * e <= depth * e)
                                        by (nonlinear_arith)
                                        requires
                                            e >= 1,
                                            x < width,
                                            y < height,
                                            z < depth,
                                            g.0 < x * e + e,
                                            g.1 < y * e + e,
                                            g.2 < z * e + e,
                                    ;
                                    assert(0 <= g.0 && 0 <= g.1 && 0 <= g.2) by (nonlinear_arith)
                                        requires
                                            e >= 1,
                                            x >= 0,
                                            y >= 0,
                                            z >= 0,
                                            g.0 >= x * e,
                                            g.1 >= y * e,
                                            g.2 >= z * e,
                                    ;
                                    lemma_chunks_cover(width as int, e, cs, g.0);
                                    lemma_chunks_cover(height as int, e, cs, g.1);
                                    lemma_chunks_cover(depth as int, e, cs, g.2);
                                }
                            }
                            world.build(x, y, z);
                            proof {
                                assert(next =~= done.insert(t));
                                assert forall|g: Point|
                                    blocks(next, e).contains(g) <==> blocks(done, e).contains(g)
                                        || block(t, e).contains(g) by {
                                    lemma_block_tile(g, t, e);
                                }
                                assert(blocks(next, e) =~= blocks(done, e) + block(t, e));
                            }
                        },
                        _ => {
                            assert(next =~= done);
                        },
                    }
                    x += 1;
                }
                assert(swept(walls, (width as int, y as int, z as int)) =~= swept(
                    walls,
                    (0, y as int, z + 1),
                ));
                z += 1;
            }
            assert(swept(walls, (0, y as int, depth as int)) =~= swept(walls, (0, y + 1, 0)));
            y += 1;
        }
        assert(swept(walls, (0, height as int, 0)) =~= walls);
        let ghost filled = world@;
        world.generate_all();
        proof {
            assert forall|g: Point| world@.is_ground(g) <==> filled.is_ground(g) by {}
            assert(world@.ground_set() =~= filled.ground_set());
        }
        world
    }

    /// The world of `area` with every wall tile expanded to a block of
    /// `expansion³` ground voxels, cut into chunks of edge `chunk_size`, each
    /// chunk with its mesh. `None` where the scale does not fit, see
    /// [`scale_fits`].
    pub fn with_scale(area: &Area, expansion: usize, chunk_size: usize) -> (r: Option<World>)
        requires
            area.wf(),
        ensures
            r is Some <==> scale_fits(dims_of(area@), expansion as int, chunk_size as int),
            r matches Some(w) ==> {
                &&& w.wf()
                &&& w@.is_world_of(area@, expansion as nat, chunk_size as nat)
                &&& w@.ground_set().finite()
                &&& w@.ground_set().len() == area@.wall_set().len() * (expansion * expansion
                    * expansion)
            },
    {
        if expansion == 0 || chunk_size == 0 {
            return None;
        }
        let square = match chunk_size.checked_mul(chunk_size) {
            Some(v) => v,
            None => {
                assert(chunk_size * chunk_size * chunk_size > usize::MAX) by (nonlinear_arith)
                    requires
                        chunk_size >= 1,
                        chunk_size * chunk_size > usize::MAX,
                ;
                return None;
            },
        };
        if square.checked_mul(chunk_size).is_none() {
            return None;
        }
        let nx = match chunks_needed(area.width(), expansion, chunk_size) {
            Some(n) => n,
            None => {
                return None;
            },
        };
        let ny = match chunks_needed(area.height(), expansion, chunk_size) {
            Some(n) => n,
            None => {
                return None;
            },
        };
        let nz = match chunks_needed(area.depth(), expansion, chunk_size) {
            Some(n) => n,
            None => {
                return None;
            },
        };
        if nx != 0 && ny != 0 && nz != 0 {
            let plane = match ny.checked_mul(nz) {
                Some(v) => v,
                None => {
                    assert(ny * nz * nx > usize::MAX) by (nonlinear_arith)
                        requires
                            nx >= 1,
                            ny * nz > usize::MAX,
                    ;
                    return None;
                },
            };
            if plane.checked_mul(nx).is_none() {
                return None;
            }
        } else {
            assert(ny * nz * nx == 0) by (nonlinear_arith)
                requires
                    nx == 0 || ny == 0 || nz == 0,
            ;
        }
        let w = World::raster(area, expansion, chunk_size, nx, ny, nz);
        proof {
            w@.lemma_volume(area@);
        }
        Some(w)
    }

    /// The world of `area` at the standard scale: every wall tile becomes a
    /// block of `EXPANSION³` ground voxels, the voxel space is cut into
    /// chunks of edge `CHUNK_SIZE`, and every chunk gets its mesh.
    pub fn from_area(area: Area) -> (w: World)
        requires
            area.wf(),
        ensures
            w.wf(),
            w@.is_world_of(area@, EXPANSION as nat, CHUNK_SIZE as nat),
            w@.ground_set().finite(),
            w@.ground_set().len() == area@.wall_set().len() * 1000,
    {
        let width = area.width();
        let height = area.height();
        let depth = area.depth();
        let nx = World::standard_chunks(width);
        let ny = World::standard_chunks(height);
        let nz = World::standard_chunks(depth);
        proof {
            assert(ny * nz * nx <= width * depth * height) by (nonlinear_arith)
                requires
                    0 <= nx <= width,
                    0 <= ny <= height,
                    0 <= nz <= depth,
            ;
        }
        let w = World::raster(&area, EXPANSION, CHUNK_SIZE, nx, ny, nz);
        proof {
            w@.lemma_volume(area@);
        }
        w
    }

    /// Number of chunks along an axis of `count` tiles at the standard
    /// scale; never more than `count`.
    fn standard_chunks(count: usize) -> (n: usize)
        ensures
            n == chunks_along(count as int, EXPANSION as int, CHUNK_SIZE as int),
            n <= count,
    {
        let whole = count / 32;
        let rest = count % 32;
        whole * 5 + (rest * 10 + 63) / 64
    }

    /// The chunk at chunk coordinate `pos`, if there is one. Where there is
    /// none, the space of that chunk is all air.
    pub fn chunk(&self, pos: Vec3<usize>) -> (r: Option<&Chunk>)
        requires
            self.wf(),
        ensures
            match r {
                Some(c) => {
                    &&& self@.chunks.contains_key((pos.x as int, pos.y as int, pos.z as int))
                    &&& c@ == self@.chunks[(pos.x as int, pos.y as int, pos.z as int)]
                },
                None => !self@.chunks.contains_key((pos.x as int, pos.y as int, pos.z as int)),
            },
    {
        if pos.x >= self.nx || pos.y >= self.ny || pos.z >= self.nz {
            return None;
        }
        let ghost c: Point = (pos.x as int, pos.y as int, pos.z as int);
        proof {
            self.lemma_key(c);
            lemma_linear(self.nx as int, self.nz as int, self.ny as int, c.0, c.2, c.1);
            assert(self.ny * self.nz <= self.ny * self.nz * self.nx) by (nonlinear_arith)
                requires
                    self.nx >= 1,
            ;
        }
        let key = (pos.y * self.nz + pos.z) * self.nx + pos.x;
        self.chunks.get(&key)
    }

    /// Whether the voxel at world coordinate `pos` is ground. Every
    /// position has an answer: outside the chunks that exist there is air.
    pub fn is_ground(&self, pos: Vec3<i64>) -> (b: bool)
        requires
            self.wf(),
        ensures
            b == self@.is_ground((pos.x as int, pos.y as int, pos.z as int)),
    {
        proof {
            lemma_edge_bound(self.chunk_size as int);
        }
        let cs = self.chunk_size as i64;
        let cx = floor_div(pos.x, cs);
        let cy = floor_div(pos.y, cs);
        let cz = floor_div(pos.z, cs);
        if cx < 0 || cy < 0 || cz < 0 || cx as u128 >= self.nx as u128 || cy as u128
            >= self.ny as u128 || cz as u128 >= self.nz as u128 {
            return false;
        }
        let local = Vec3 {
            x: floor_mod(pos.x, cs),
            y: floor_mod(pos.y, cs),
            z: floor_mod(pos.z, cs),
        };
        match self.chunk(Vec3 { x: cx as usize, y: cy as usize, z: cz as usize }) {
            Some(chunk) => !chunk.is_pos_free(local),
            None => false,
        }
    }

    /// Where the chunk at chunk coordinate `pos` begins, in voxels.
    pub fn origin(&self, pos: Vec3<usize>) -> (o: Vec3<u128>)
        ensures
            o.x == pos.x * self@.chunk_size,
            o.y == pos.y * self@.chunk_size,
            o.z == pos.z * self@.chunk_size,
    {
        let cs = self.chunk_size as u128;
        assert(pos.x * cs <= u128::MAX && pos.y * cs <= u128::MAX && pos.z * cs <= u128::MAX)
            by (nonlinear_arith)
            requires
                pos.x <= 0xffff_ffff_ffff_ffff,
                pos.y <= 0xffff_ffff_ffff_ffff,
                pos.z <= 0xffff_ffff_ffff_ffff,
                cs <= 0xffff_ffff_ffff_ffff,
                u128::MAX == 0xffff_ffff_ffff_ffff_ffff_ffff_ffff_ffff,
        ;
        Vec3 { x: pos.x as u128 * cs, y: pos.y as u128 * cs, z: pos.z as u128 * cs }
    }

    /// The coordinates of all chunks, each once, in no particular order.
    pub fn positions(&self) -> (r: Vec<Vec3<usize>>)
        requires
            self.wf(),
        ensures
            r@.len() == self@.chunks.dom().len(),
            forall|i: int|
                0 <= i < r@.len() ==> self@.chunks.contains_key(
                    #[trigger] coord(r@[i]),
                ),
            forall|c: Point|
                self@.chunks.contains_key(c) ==> exists|i: int|
                    0 <= i < r@.len() && #[trigger] coord(r@[i]) == c,
            forall|i: int, j: int|
                0 <= i < j < r@.len() ==> #[trigger] coord(r@[i]) != #[trigger] coord(r@[j]),
    {
        let mut r: Vec<Vec3<usize>> = Vec::new();
        let ghost all = spec_keys_iter(&self.chunks).remaining();
        proof {
            self.lemma_dom();
        }
        for k in it: self.chunks.keys()
            invariant
                self.wf(),
                it.seq() == all,
                all == spec_keys_iter(&self.chunks).remaining(),
                r@.len() == it.index(),
                forall|i: int|
                    0 <= i < r@.len() ==> #[trigger] coord(r@[i]) == self.coord_of(*all[i] as int),
        {
            assert(all.unref().to_set().contains(*k)) by {
                assert(all.unref()[it.index() as int] == *k);
            }
            proof {
                self.lemma_coord(*k as int);
            }
            let x = *k % self.nx;
            let row = *k / self.nx;
            r.push(Vec3 { x, y: row / self.nz, z: row % self.nz });
        }
        proof {
            let keys = all.unref();
            assert(keys.len() == self.chunks@.dom().len());
            assert forall|i: int| 0 <= i < r@.len() implies self@.chunks.contains_key(
                #[trigger] coord(r@[i]),
            ) by {
                assert(keys.to_set().contains(keys[i]));
                self.lemma_coord(keys[i] as int);
            }
            assert forall|c: Point| self@.chunks.contains_key(c) implies exists|i: int|
                0 <= i < r@.len() && #[trigger] coord(r@[i]) == c by {
                self.lemma_key(c);
                let k = self.key_of(c) as usize;
                assert(keys.to_set().contains(k));
                let i = choose|i: int| 0 <= i < keys.len() && keys[i] == k;
                assert(coord(r@[i]) == c);
            }
            assert forall|i: int, j: int| 0 <= i < j < r@.len() implies #[trigger] coord(r@[i])
                != #[trigger] coord(r@[j]) by {
                assert(keys.to_set().contains(keys[i]));
                assert(keys.to_set().contains(keys[j]));
                self.lemma_coord(keys[i] as int);
                self.lemma_coord(keys[j] as int);
                assert(keys[i] != keys[j]);
            }
        }
        r
    }
}

/// A chunk coordinate as a point.
pub open spec fn coord(pos: Vec3<usize>) -> Point {
    (pos.x as int, pos.y as int, pos.z as int)
}

} // verus!
