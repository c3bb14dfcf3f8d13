//! Voxel chunks and the extraction of their visible faces.

use crate::space::{lemma_linear, lemma_linear_inverse, Point};
use rand::Rng;
use vek::Vec3;
use vstd::prelude::*;

verus! {

/// Voxels per chunk edge.
pub const CHUNK_SIZE: usize = 64;

/// Voxel edges per world unit: a voxel is one tenth of a world unit wide.
pub const VOXELS_PER_UNIT: usize = 10;

/// Occupancy of one cell of a chunk.
#[derive(Clone, Copy, Debug, PartialEq, Eq, Structural)]
pub enum Voxel {
    Air,
    Ground,
}

impl Voxel {
    /// The voxel that a roll in `0..100` stands for: the top value is
    /// ground, every other value is air.
    pub fn from_roll(n: u32) -> (v: Voxel)
        ensures
            v == (if n < 99 {
                Voxel::Air
            } else {
                Voxel::Ground
            }),
    {
        if n < 99 {
            Voxel::Air
        } else {
            Voxel::Ground
        }
    }
}

/// Draws a number with `rand::Rng::gen_range` from the generator that
/// `rand::thread_rng` hands out. The range is half-open, `low` included and
/// `high` excluded, and must not be empty; which number of the range comes
/// back is left open. The generator is seeded by the system and gives up
/// only where the system has no randomness to offer.
#[verifier::external_body]
fn gen_range(low: u32, high: u32) -> (n: u32)
    requires
        low < high,
    ensures
        low <= n < high,
{
    rand::thread_rng().gen_range(low, high)
}

/// The six faces of a voxel.
#[derive(Clone, Copy, Debug, PartialEq, Eq, Structural)]
pub enum QuadSide {
    Top,
    Bottom,
    Left,
    Right,
    Front,
    Back,
}

/// Mathematical content of a vertex buffer pair: flat coordinate triples in
/// voxel units and, parallel to them, flat normal triples.
#[verifier::ext_equal]
pub struct MeshView {
    pub verts: Seq<int>,
    pub normals: Seq<int>,
}

impl MeshView {
    pub open spec fn empty() -> MeshView {
        MeshView { verts: Seq::empty(), normals: Seq::empty() }
    }

    /// The buffers of `self` followed by those of `other`.
    pub open spec fn concat(self, other: MeshView) -> MeshView {
        MeshView { verts: self.verts + other.verts, normals: self.normals + other.normals }
    }

    /// Number of vertices, where the buffers hold whole triples.
    pub open spec fn vertex_count(self) -> int {
        self.verts.len() as int / 3
    }
}

impl QuadSide {
    /// Unit step from a voxel to the neighbour that shares this face,
    /// which is also the outward normal of the face.
    pub open spec fn offset(self) -> Point {
        match self {
            QuadSide::Top => (0, 1, 0),
            QuadSide::Bottom => (0, -1, 0),
            QuadSide::Left => (-1, 0, 0),
            QuadSide::Right => (1, 0, 0),
            QuadSide::Front => (0, 0, 1),
            QuadSide::Back => (0, 0, -1),
        }
    }

    /// Place of the side in the order in which the faces of a voxel are
    /// emitted.
    pub open spec fn rank(self) -> int {
        match self {
            QuadSide::Top => 0,
            QuadSide::Bottom => 1,
            QuadSide::Left => 2,
            QuadSide::Right => 3,
            QuadSide::Front => 4,
            QuadSide::Back => 5,
        }
    }

    /// Corners of the face, relative to the voxel's origin, in emission
    /// order: two triangles that share the face's diagonal.
    pub open spec fn corners(self) -> Seq<Point> {
        match self {
            QuadSide::Top => seq![
                (0, 1, 0),
                (1, 1, 0),
                (1, 1, 1),
                (1, 1, 1),
                (0, 1, 1),
                (0, 1, 0),
            ],
            QuadSide::Bottom => seq![
                (0, 0, 0),
                (1, 0, 1),
                (1, 0, 0),
                (1, 0, 1),
                (0, 0, 0),
                (0, 0, 1),
            ],
            QuadSide::Left => seq![
                (0, 1, 1),
                (0, 0, 0),
                (0, 1, 0),
                (0, 0, 0),
                (0, 1, 1),
                (0, 0, 1),
            ],
            QuadSide::Right => seq![
                (1, 1, 1),
                (1, 1, 0),
                (1, 0, 0),
                (1, 0, 0),
                (1, 0, 1),
                (1, 1, 1),
            ],
            QuadSide::Front => seq![
                (0, 0, 1),
                (1, 1, 1),
                (1, 0, 1),
                (1, 1, 1),
                (0, 0, 1),
                (0, 1, 1),
            ],
            QuadSide::Back => seq![
                (0, 0, 0),
                (1, 0, 0),
                (1, 1, 0),
                (1, 1, 0),
                (0, 1, 0),
                (0, 0, 0),
            ],
        }
    }
}

/// Component `axis` (0, 1 or 2) of a triple.
pub open spec fn component(p: Point, axis: int) -> int {
    if axis == 0 {
        p.0
    } else if axis == 1 {
        p.1
    } else {
        p.2
    }
}

/// The quad on face `side` of the voxel at `(x, y, z)`: six vertices in voxel
/// units, each with the outward normal of the face.
pub open spec fn quad(side: QuadSide, x: int, y: int, z: int) -> MeshView {
    MeshView {
        verts: Seq::new(
            18,
            |i: int| component((x, y, z), i % 3) + component(side.corners()[i / 3], i % 3),
        ),
        normals: Seq::new(18, |i: int| component(side.offset(), i % 3)),
    }
}

/// One face of one voxel.
pub struct Face {
    pub side: QuadSide,
    pub x: int,
    pub y: int,
    pub z: int,
}

/// The quads of `faces`, one after the other.
pub open spec fn quads(faces: Seq<Face>) -> MeshView
    decreases faces.len(),
{
    if faces.len() == 0 {
        MeshView::empty()
    } else {
        let f = faces.last();
        quads(faces.drop_last()).concat(quad(f.side, f.x, f.y, f.z))
    }
}

/// A pair of flat buffers: vertex coordinates in voxel units and vertex
/// normals, three entries per vertex in each.
pub struct VertNormal(pub Vec<usize>, pub Vec<i8>);

impl View for VertNormal {
    type V = MeshView;

    open spec fn view(&self) -> MeshView {
        MeshView {
            verts: self.0@.map_values(|c: usize| c as int),
            normals: self.1@.map_values(|c: i8| c as int),
        }
    }
}

impl VertNormal {
    pub fn new(v: Vec<usize>, n: Vec<i8>) -> (vn: VertNormal)
        ensures
            vn.0 == v,
            vn.1 == n,
    {
        VertNormal(v, n)
    }

    /// Moves the contents of `vn` to the end of `self`.
    pub fn append(&mut self, vn: VertNormal)
        ensures
            final(self)@ == old(self)@.concat(vn@),
    {
        let ghost tail = vn@;
        let mut vn = vn;
        self.0.append(&mut vn.0);
        self.1.append(&mut vn.1);
        assert(self@.verts =~= old(self)@.concat(tail).verts);
        assert(self@.normals =~= old(self)@.concat(tail).normals);
    }
}

/// Emits the quad for one face of the voxel at `(x, y, z)`.
pub fn gen_quad(side: QuadSide, x: usize, y: usize, z: usize) -> (vn: VertNormal)
    requires
        x < usize::MAX,
        y < usize::MAX,
        z < usize::MAX,
    ensures
        vn@ == quad(side, x as int, y as int, z as int),
{
    let x1: usize = x + 1;
    let y1: usize = y + 1;
    let z1: usize = z + 1;
    let vn = match side {
        QuadSide::Top => VertNormal::new(
            vec![x, y1, z, x1, y1, z, x1, y1, z1, x1, y1, z1, x, y1, z1, x, y1, z],
            vec![0, 1, 0, 0, 1, 0, 0, 1, 0, 0, 1, 0, 0, 1, 0, 0, 1, 0],
        ),
        QuadSide::Bottom => VertNormal::new(
            vec![x, y, z, x1, y, z1, x1, y, z, x1, y, z1, x, y, z, x, y, z1],
            vec![0, -1, 0, 0, -1, 0, 0, -1, 0, 0, -1, 0, 0, -1, 0, 0, -1, 0],
        ),
        QuadSide::Left => VertNormal::new(
            vec![x, y1, z1, x, y, z, x, y1, z, x, y, z, x, y1, z1, x, y, z1],
            vec![-1, 0, 0, -1, 0, 0, -1, 0, 0, -1, 0, 0, -1, 0, 0, -1, 0, 0],
        ),
        QuadSide::Right => VertNormal::new(
            vec![x1, y1, z1, x1, y1, z, x1, y, z, x1, y, z, x1, y, z1, x1, y1, z1],
            vec![1, 0, 0, 1, 0, 0, 1, 0, 0, 1, 0, 0, 1, 0, 0, 1, 0, 0],
        ),
        QuadSide::Front => VertNormal::new(
            vec![x, y, z1, x1, y1, z1, x1, y, z1, x1, y1, z1, x, y, z1, x, y1, z1],
            vec![0, 0, 1, 0, 0, 1, 0, 0, 1, 0, 0, 1, 0, 0, 1, 0, 0, 1],
        ),
        QuadSide::Back => VertNormal::new(
            vec![x, y, z, x1, y, z, x1, y1, z, x1, y1, z, x, y1, z, x, y, z],
            vec![0, 0, -1, 0, 0, -1, 0, 0, -1, 0, 0, -1, 0, 0, -1, 0, 0, -1],
        ),
    };
    assert(vn@.verts =~= quad(side, x as int, y as int, z as int).verts);
    assert(vn@.normals =~= quad(side, x as int, y as int, z as int).normals);
    vn
}

/// A cube of voxels as a mathematical value: its edge length and its
/// voxels in linear order.
pub struct VoxelGrid {
    pub size: nat,
    pub voxels: Seq<Voxel>,
}

impl VoxelGrid {
    /// Number of voxels of a cube of this edge length.
    pub open spec fn volume(self) -> int {
        self.size as int * self.size as int * self.size as int
    }

    pub open spec fn in_bounds(self, x: int, y: int, z: int) -> bool {
        0 <= x < self.size && 0 <= y < self.size && 0 <= z < self.size
    }

    /// Place of voxel `(x, y, z)` in the linear order `x + z * size + y * size²`:
    /// `x` varies fastest, then `z`, then `y`.
    pub open spec fn index(self, x: int, y: int, z: int) -> int {
        (y * self.size + z) * self.size + x
    }

    /// Whether `(x, y, z)` lies in the cube and holds ground.
    pub open spec fn is_ground(self, x: int, y: int, z: int) -> bool {
        self.in_bounds(x, y, z) && self.voxels[self.index(x, y, z)] == Voxel::Ground
    }

    /// Whether any voxel of the cube is ground.
    pub open spec fn has_ground(self) -> bool {
        exists|x: int, y: int, z: int| self.is_ground(x, y, z)
    }

    /// Whether a face towards `(x, y, z)` is exposed: the position is
    /// outside the cube or holds air.
    pub open spec fn is_free(self, x: int, y: int, z: int) -> bool {
        !self.is_ground(x, y, z)
    }

    /// Whether face `side` of the voxel at `(x, y, z)` is exposed: the
    /// neighbour behind it is free.
    pub open spec fn exposed(self, side: QuadSide, x: int, y: int, z: int) -> bool {
        let o = side.offset();
        self.is_free(x + o.0, y + o.1, z + o.2)
    }

    /// What face `side` of the voxel at `(x, y, z)` adds to the mesh: its
    /// quad where the face is exposed, nothing otherwise.
    pub open spec fn face(self, side: QuadSide, x: int, y: int, z: int) -> MeshView {
        if self.exposed(side, x, y, z) {
            quad(side, x, y, z)
        } else {
            MeshView::empty()
        }
    }

    /// The exposed faces of the voxel at `(x, y, z)`, in the order top,
    /// bottom, left, right, front, back.
    pub open spec fn voxel_mesh(self, x: int, y: int, z: int) -> MeshView {
        MeshView::empty().concat(self.face(QuadSide::Top, x, y, z)).concat(
            self.face(QuadSide::Bottom, x, y, z),
        ).concat(self.face(QuadSide::Left, x, y, z)).concat(
            self.face(QuadSide::Right, x, y, z),
        ).concat(self.face(QuadSide::Front, x, y, z)).concat(self.face(QuadSide::Back, x, y, z))
    }

    /// The exposed faces of the ground voxels among the first `n` voxels
    /// of the linear order.
    pub open spec fn mesh_prefix(self, n: nat) -> MeshView
        decreases n,
    {
        if n == 0 {
            MeshView::empty()
        } else {
            let i = (n - 1) as int;
            let size = self.size as int;
            let before = self.mesh_prefix((n - 1) as nat);
            if self.voxels[i] == Voxel::Ground {
                before.concat(self.voxel_mesh(i % size, i / size / size, i / size % size))
            } else {
                before
            }
        }
    }

    /// The face-culled mesh of the whole cube: for every ground voxel, in
    /// linear order, one quad per exposed face.
    pub open spec fn mesh(self) -> MeshView {
        self.mesh_prefix(self.volume() as nat)
    }

    /// Whether the mesh shows face `f`: it is a face of a ground voxel, and
    /// the neighbour behind it is free.
    pub open spec fn shows(self, f: Face) -> bool {
        self.is_ground(f.x, f.y, f.z) && self.exposed(f.side, f.x, f.y, f.z)
    }

    /// Place of face `f` in the order of emission: voxels in linear order,
    /// the faces of one voxel in the order of their sides.
    pub open spec fn rank(self, f: Face) -> int {
        self.index(f.x, f.y, f.z) * 6 + f.side.rank()
    }

    /// `faces`, followed by face `side` of the voxel at `(x, y, z)` where
    /// that face is exposed.
    pub open spec fn with_face(
        self,
        faces: Seq<Face>,
        side: QuadSide,
        x: int,
        y: int,
        z: int,
    ) -> Seq<Face> {
        if self.exposed(side, x, y, z) {
            faces.push(Face { side, x, y, z })
        } else {
            faces
        }
    }

    /// `faces`, followed by the exposed faces of the voxel at `(x, y, z)`.
    pub open spec fn with_voxel(self, faces: Seq<Face>, x: int, y: int, z: int) -> Seq<Face> {
        let faces = self.with_face(faces, QuadSide::Top, x, y, z);
        let faces = self.with_face(faces, QuadSide::Bottom, x, y, z);
        let faces = self.with_face(faces, QuadSide::Left, x, y, z);
        let faces = self.with_face(faces, QuadSide::Right, x, y, z);
        let faces = self.with_face(faces, QuadSide::Front, x, y, z);
        self.with_face(faces, QuadSide::Back, x, y, z)
    }

    /// The exposed faces of the ground voxels among the first `n` voxels
    /// of the linear order.
    pub open spec fn faces_prefix(self, n: nat) -> Seq<Face>
        decreases n,
    {
        if n == 0 {
            Seq::empty()
        } else {
            let i = (n - 1) as int;
            let size = self.size as int;
            let before = self.faces_prefix((n - 1) as nat);
            if self.voxels[i] == Voxel::Ground {
                self.with_voxel(before, i % size, i / size / size, i / size % size)
            } else {
                before
            }
        }
    }

    /// The faces that the mesh shows, in the order of emission.
    pub open spec fn faces(self) -> Seq<Face> {
        self.faces_prefix(self.volume() as nat)
    }

    /// `faces` lists the shown faces of rank below `r`: all of them, no
    /// others, each once, in rising order of rank.
    spec fn lists(self, faces: Seq<Face>, r: int) -> bool {
        &&& faces.len() <= r
        &&& forall|k: int|
            0 <= k < faces.len() ==> self.shows(#[trigger] faces[k]) && self.rank(faces[k]) < r
        &&& forall|j: int, k: int|
            0 <= j < k < faces.len() ==> self.rank(#[trigger] faces[j]) < self.rank(
                #[trigger] faces[k],
            )
        &&& forall|f: Face|
            #[trigger] self.shows(f) && self.rank(f) < r ==> exists|k: int|
                0 <= k < faces.len() && #[trigger] faces[k] == f
    }

    /// A cube has at least one voxel and holds exactly `size³` of them.
    pub open spec fn wf(self) -> bool {
        &&& self.size >= 1
        &&& self.voxels.len() == self.volume()
    }
}

/// Mathematical content of a chunk: its voxels, and its mesh once generated.
pub struct ChunkView {
    pub grid: VoxelGrid,
    pub mesh: Option<MeshView>,
}

impl ChunkView {
    /// The voxels form a cube, and the mesh, once present, is the mesh of
    /// those voxels.
    pub open spec fn wf(self) -> bool {
        &&& self.grid.wf()
        &&& self.mesh matches Some(m) ==> m == self.grid.mesh()
    }
}

/// A cube of `size³` voxels with the mesh generated from them, if any.
pub struct Chunk {
    voxels: Vec<Voxel>,
    mesh: Option<VertNormal>,
    size: usize,
}

impl View for Chunk {
    type V = ChunkView;

    closed spec fn view(&self) -> ChunkView {
        ChunkView {
            grid: VoxelGrid { size: self.size as nat, voxels: self.voxels@ },
            mesh: match self.mesh {
                Some(m) => Some(m@),
                None => None,
            },
        }
    }
}

/// In a cube of edge `size`, the linear index of an in-range position is
/// below `size³`, and the position can be read back from it.
pub proof fn lemma_index(size: int, x: int, y: int, z: int)
    requires
        0 <= x < size,
        0 <= y < size,
        0 <= z < size,
    ensures
        0 <= y * size + z < size * size,
        0 <= (y * size + z) * size + x < size * size * size,
        (y * size + z) * size + x == x + z * size + y * size * size,
        ((y * size + z) * size + x) % size == x,
        ((y * size + z) * size + x) / size % size == z,
        ((y * size + z) * size + x) / size / size == y,
{
    lemma_linear(size, size, size, x, z, y);
    assert((y * size + z) * size + x == x + z * size + y * size * size) by (nonlinear_arith);
}

/// A cube whose voxel count fits in `usize` has an edge below `2^22`.
pub proof fn lemma_edge_bound(size: int)
    requires
        0 <= size,
        size * size * size <= usize::MAX,
    ensures
        size < 0x40_0000,
        size * size <= usize::MAX,
{
    assert(size < 0x40_0000 && size * size <= size * size * size) by (nonlinear_arith)
        requires
            0 <= size,
            size * size * size <= 0xffff_ffff_ffff_ffff,
    {
        if size >= 0x40_0000 {
            assert(size * size >= 0x40_0000 * 0x40_0000);
            assert(size * size * size >= 0x40_0000 * 0x40_0000 * 0x40_0000);
        }
    }
}

impl Chunk {
    pub open spec fn wf(&self) -> bool {
        self@.wf()
    }

    /// What well-formedness means for the fields: the edge is short enough
    /// for index arithmetic and for signed neighbour coordinates.
    proof fn lemma_repr(&self)
        requires
            self.wf(),
        ensures
            1 <= self.size < 0x40_0000,
            self.size * self.size <= usize::MAX,
            self.size * self.size * self.size <= usize::MAX,
            self.voxels@.len() == self.size * self.size * self.size,
    {
        assert(self.voxels.len() == self.voxels@.len());
        lemma_edge_bound(self.size as int);
    }

    /// A chunk of edge `size` that holds only air and has no mesh; `None`
    /// where `size` is zero or `size³` voxels cannot be addressed.
    pub fn with_size(size: usize) -> (r: Option<Chunk>)
        ensures
            r is Some <==> size >= 1 && size * size * size <= usize::MAX,
            r matches Some(c) ==> c.wf() && c@.grid.size == size && c@.mesh is None
                && c@.grid.voxels == Seq::new(c@.grid.volume() as nat, |i: int| Voxel::Air),
    {
        if size == 0 {
            return None;
        }
        let square = match size.checked_mul(size) {
            Some(v) => v,
            None => {
                assert(size * size * size > usize::MAX) by (nonlinear_arith)
                    requires
                        size >= 1,
                        size * size > usize::MAX,
                ;
                return None;
            },
        };
        let volume = match square.checked_mul(size) {
            Some(v) => v,
            None => {
                return None;
            },
        };
        let mut voxels: Vec<Voxel> = Vec::with_capacity(volume);
        voxels.resize(volume, Voxel::Air);
        let c = Chunk { mesh: None, voxels, size };
        assert(c@.grid.voxels =~= Seq::new(c@.grid.volume() as nat, |i: int| Voxel::Air));
        Some(c)
    }

    /// A chunk of the standard edge length filled with noise: each voxel
    /// is drawn on its own and is ground once in a hundred. Meant as a
    /// fixture for trying out mesh extraction.
    pub fn new() -> (c: Chunk)
        ensures
            c.wf(),
            c@.grid.size == CHUNK_SIZE,
            c@.mesh is None,
    {
        let mut voxels: Vec<Voxel> = Vec::with_capacity(CHUNK_SIZE * CHUNK_SIZE * CHUNK_SIZE);
        let mut y: usize = 0;
        while y < CHUNK_SIZE
            invariant
                y <= CHUNK_SIZE,
                voxels@.len() == y * CHUNK_SIZE * CHUNK_SIZE,
            decreases CHUNK_SIZE - y,
        {
            let mut z: usize = 0;
            while z < CHUNK_SIZE
                invariant
                    y < CHUNK_SIZE,
                    z <= CHUNK_SIZE,
                    voxels@.len() == (y * CHUNK_SIZE + z) * CHUNK_SIZE,
                decreases CHUNK_SIZE - z,
            {
                let mut x: usize = 0;
                while x < CHUNK_SIZE
                    invariant
                        y < CHUNK_SIZE,
                        z < CHUNK_SIZE,
                        x <= CHUNK_SIZE,
                        voxels@.len() == (y * CHUNK_SIZE + z) * CHUNK_SIZE + x,
                    decreases CHUNK_SIZE - x,
                {
                    let n = gen_range(0, 100);
                    voxels.push(Voxel::from_roll(n));
                    x += 1;
                }
                z += 1;
            }
            y += 1;
        }
        Chunk { mesh: None, voxels, size: CHUNK_SIZE }
    }

    /// A chunk of the standard edge length that holds only air.
    pub fn empty() -> (c: Chunk)
        ensures
            c.wf(),
            c@.grid.size == CHUNK_SIZE,
            c@.mesh is None,
            c@.grid.voxels == Seq::new(c@.grid.volume() as nat, |i: int| Voxel::Air),
    {
        let mut voxels: Vec<Voxel> = Vec::with_capacity(CHUNK_SIZE * CHUNK_SIZE * CHUNK_SIZE);
        voxels.resize(CHUNK_SIZE * CHUNK_SIZE * CHUNK_SIZE, Voxel::Air);
        let c = Chunk { mesh: None, voxels, size: CHUNK_SIZE };
        assert(c@.grid.voxels =~= Seq::new(c@.grid.volume() as nat, |i: int| Voxel::Air));
        c
    }

    /// Edge length of the chunk, in voxels.
    pub fn size(&self) -> (n: usize)
        ensures
            n == self@.grid.size,
    {
        self.size
    }

    /// Whether the mesh has been generated.
    pub fn is_meshed(&self) -> (b: bool)
        ensures
            b == self@.mesh is Some,
    {
        self.mesh.is_some()
    }

    /// Turns the voxel at `pos` into ground. The chunk must not have been
    /// meshed yet: a generated mesh is final.
    pub fn set_ground(&mut self, pos: Vec3<usize>)
        requires
            old(self).wf(),
            old(self)@.mesh is None,
            old(self)@.grid.in_bounds(pos.x as int, pos.y as int, pos.z as int),
        ensures
            final(self).wf(),
            final(self)@.grid.size == old(self)@.grid.size,
            final(self)@.mesh is None,
            final(self)@.grid.voxels == old(self)@.grid.voxels.update(
                old(self)@.grid.index(pos.x as int, pos.y as int, pos.z as int),
                Voxel::Ground,
            ),
    {
        proof {
            self.lemma_repr();
            lemma_index(self.size as int, pos.x as int, pos.y as int, pos.z as int);
        }
        let size = self.size;
        self.voxels[(pos.y * size + pos.z) * size + pos.x] = Voxel::Ground;
    }

    /// Whether `pos` is free: outside the chunk, or air. Faces towards free
    /// positions are drawn, so the chunk's own border faces always are.
    pub fn is_pos_free(&self, pos: Vec3<i64>) -> (free: bool)
        requires
            self.wf(),
        ensures
            free == self@.grid.is_free(pos.x as int, pos.y as int, pos.z as int),
    {
        proof {
            self.lemma_repr();
        }
        let size = self.size;
        let edge = size as i64;
        if pos.x < 0 || pos.y < 0 || pos.z < 0 || pos.x >= edge || pos.y >= edge || pos.z >= edge {
            return true;
        }
        let x = pos.x as usize;
        let y = pos.y as usize;
        let z = pos.z as usize;
        proof {
            lemma_index(size as int, x as int, y as int, z as int);
        }
        match self.voxels[(y * size + z) * size + x] {
            Voxel::Ground => false,
            Voxel::Air => true,
        }
    }

    /// The exposed faces of the voxel at `pos`.
    pub fn gen_voxel(&self, pos: &Vec3<usize>) -> (vn: VertNormal)
        requires
            self.wf(),
            self@.grid.in_bounds(pos.x as int, pos.y as int, pos.z as int),
        ensures
            vn@ == self@.grid.voxel_mesh(pos.x as int, pos.y as int, pos.z as int),
    {
        proof {
            self.lemma_repr();
        }
        let ghost grid = self@.grid;
        let ghost (gx, gy, gz) = (pos.x as int, pos.y as int, pos.z as int);
        let x = pos.x as i64;
        let y = pos.y as i64;
        let z = pos.z as i64;
        let mut vert_normal = VertNormal::new(Vec::new(), Vec::new());
        assert(vert_normal@ == MeshView::empty());

        let ghost before = vert_normal@;
        if self.is_pos_free(Vec3 { x, y: y + 1, z }) {
            vert_normal.append(gen_quad(QuadSide::Top, pos.x, pos.y, pos.z));
        }
        assert(vert_normal@ == before.concat(grid.face(QuadSide::Top, gx, gy, gz)));

        let ghost before = vert_normal@;
        if self.is_pos_free(Vec3 { x, y: y - 1, z }) {
            vert_normal.append(gen_quad(QuadSide::Bottom, pos.x, pos.y, pos.z));
        }
        assert(vert_normal@ == before.concat(grid.face(QuadSide::Bottom, gx, gy, gz)));

        let ghost before = vert_normal@;
        if self.is_pos_free(Vec3 { x: x - 1, y, z }) {
            vert_normal.append(gen_quad(QuadSide::Left, pos.x, pos.y, pos.z));
        }
        assert(vert_normal@ == before.concat(grid.face(QuadSide::Left, gx, gy, gz)));

        let ghost before = vert_normal@;
        if self.is_pos_free(Vec3 { x: x + 1, y, z }) {
            vert_normal.append(gen_quad(QuadSide::Right, pos.x, pos.y, pos.z));
        }
        assert(vert_normal@ == before.concat(grid.face(QuadSide::Right, gx, gy, gz)));

        let ghost before = vert_normal@;
        if self.is_pos_free(Vec3 { x, y, z: z + 1 }) {
            vert_normal.append(gen_quad(QuadSide::Front, pos.x, pos.y, pos.z));
        }
        assert(vert_normal@ == before.concat(grid.face(QuadSide::Front, gx, gy, gz)));

        let ghost before = vert_normal@;
        if self.is_pos_free(Vec3 { x, y, z: z - 1 }) {
            vert_normal.append(gen_quad(QuadSide::Back, pos.x, pos.y, pos.z));
        }
        assert(vert_normal@ == before.concat(grid.face(QuadSide::Back, gx, gy, gz)));

        vert_normal
    }

    /// Builds the mesh of the chunk from its voxels and keeps it.
    pub fn generate(&mut self)
        requires
            old(self).wf(),
        ensures
            final(self).wf(),
            final(self)@.grid == old(self)@.grid,
            final(self)@.mesh == Some(old(self)@.grid.mesh()),
    {
        proof {
            self.lemma_repr();
        }
        let ghost grid = self@.grid;
        let size = self.size;
        let mut vert_normal = VertNormal::new(Vec::new(), Vec::new());
        assert(vert_normal@ == MeshView::empty());
        let mut y: usize = 0;
        while y < size
            invariant
                self.wf(),
                self@.grid == grid,
                size == self.size,
                1 <= size < 0x40_0000,
                y <= size,
                vert_normal@ == grid.mesh_prefix((y * size * size) as nat),
            decreases size - y,
        {
            let mut z: usize = 0;
            assert(y * size * size == (y * size + 0) * size) by (nonlinear_arith);
            while z < size
                invariant
                    self.wf(),
                    self@.grid == grid,
                    size == self.size,
                    1 <= size < 0x40_0000,
                    y < size,
                    z <= size,
                    vert_normal@ == grid.mesh_prefix(((y * size + z) * size) as nat),
                decreases size - z,
            {
                let mut x: usize = 0;
                while x < size
                    invariant
                        self.wf(),
                        self@.grid == grid,
                        size == self.size,
                        1 <= size < 0x40_0000,
                        y < size,
                        z < size,
                        x <= size,
                        vert_normal@ == grid.mesh_prefix(((y * size + z) * size + x) as nat),
                    decreases size - x,
                {
                    proof {
                        lemma_index(size as int, x as int, y as int, z as int);
                    }
                    let v = Vec3 { x: x as i64, y: y as i64, z: z as i64 };
                    if !self.is_pos_free(v) {
                        let vn = self.gen_voxel(&Vec3 { x, y, z });
                        vert_normal.append(vn);
                    }
                    x += 1;
                }
                z += 1;
                assert((y * size + (z - 1)) * size + size == (y * size + z) * size)
                    by (nonlinear_arith);
            }
            y += 1;
            assert(((y - 1) * size + size) * size == y * size * size) by (nonlinear_arith);
        }
        self.mesh = Some(vert_normal);
    }

    /// The generated mesh. Asking for it before `generate` has run is a
    /// programming error, which the precondition rules out.
    pub fn get_mesh(&self) -> (mesh: &VertNormal)
        requires
            self@.mesh is Some,
        ensures
            Some(mesh@) == self@.mesh,
    {
        self.mesh.as_ref().unwrap()
    }
}

/// Appending nothing to a mesh leaves it as it is.
pub proof fn lemma_concat_empty(m: MeshView)
    ensures
        m.concat(MeshView::empty()) == m,
        MeshView::empty().concat(m) == m,
{
    assert(m.concat(MeshView::empty()).verts =~= m.verts);
    assert(m.concat(MeshView::empty()).normals =~= m.normals);
    assert(MeshView::empty().concat(m).verts =~= m.verts);
    assert(MeshView::empty().concat(m).normals =~= m.normals);
}

/// The six face normals are the six axis-aligned unit vectors, each once.
pub proof fn lemma_normals_distinct(a: QuadSide, b: QuadSide)
    ensures
        a != b ==> a.offset() != b.offset(),
        ({
            let o = a.offset();
            o.0 * o.0 + o.1 * o.1 + o.2 * o.2 == 1
        }),
{
    let o = a.offset();
    match a {
        QuadSide::Top | QuadSide::Bottom => {
            assert(o.1 * o.1 == 1 && o.0 * o.0 == 0 && o.2 * o.2 == 0) by (nonlinear_arith)
                requires
                    o.0 == 0,
                    o.2 == 0,
                    o.1 == 1 || o.1 == -1,
            ;
        },
        QuadSide::Left | QuadSide::Right => {
            assert(o.0 * o.0 == 1 && o.1 * o.1 == 0 && o.2 * o.2 == 0) by (nonlinear_arith)
                requires
                    o.1 == 0,
                    o.2 == 0,
                    o.0 == 1 || o.0 == -1,
            ;
        },
        QuadSide::Front | QuadSide::Back => {
            assert(o.2 * o.2 == 1 && o.0 * o.0 == 0 && o.1 * o.1 == 0) by (nonlinear_arith)
                requires
                    o.0 == 0,
                    o.1 == 0,
                    o.2 == 1 || o.2 == -1,
            ;
        },
    }
}

/// Appending meshes one after the other does not depend on grouping.
pub proof fn lemma_concat_assoc(a: MeshView, b: MeshView, c: MeshView)
    ensures
        a.concat(b).concat(c) == a.concat(b.concat(c)),
{
    assert(a.concat(b).concat(c).verts =~= a.concat(b.concat(c)).verts);
    assert(a.concat(b).concat(c).normals =~= a.concat(b.concat(c)).normals);
}

/// Every face gives 18 coordinates and 18 normal entries.
pub proof fn lemma_quads_len(faces: Seq<Face>)
    ensures
        quads(faces).verts.len() == 18 * faces.len(),
        quads(faces).normals.len() == 18 * faces.len(),
    decreases faces.len(),
{
    if faces.len() > 0 {
        lemma_quads_len(faces.drop_last());
    }
}

/// The quad of the `k`-th face stands at the `k`-th place of 18 entries.
pub proof fn lemma_quads_block(faces: Seq<Face>, k: int)
    requires
        0 <= k < faces.len(),
    ensures
        quads(faces).verts.subrange(18 * k, 18 * k + 18) == quad(
            faces[k].side,
            faces[k].x,
            faces[k].y,
            faces[k].z,
        ).verts,
        quads(faces).normals.subrange(18 * k, 18 * k + 18) == quad(
            faces[k].side,
            faces[k].x,
            faces[k].y,
            faces[k].z,
        ).normals,
    decreases faces.len(),
{
    let f = faces[k];
    let before = faces.drop_last();
    lemma_quads_len(faces);
    lemma_quads_len(before);
    if k < faces.len() - 1 {
        lemma_quads_block(before, k);
        assert(quads(faces).verts.subrange(18 * k, 18 * k + 18) =~= quads(before).verts.subrange(
            18 * k,
            18 * k + 18,
        ));
        assert(quads(faces).normals.subrange(18 * k, 18 * k + 18) =~= quads(
            before,
        ).normals.subrange(18 * k, 18 * k + 18));
    } else {
        assert(quads(faces).verts.subrange(18 * k, 18 * k + 18) =~= quad(
            f.side,
            f.x,
            f.y,
            f.z,
        ).verts);
        assert(quads(faces).normals.subrange(18 * k, 18 * k + 18) =~= quad(
            f.side,
            f.x,
            f.y,
            f.z,
        ).normals);
    }
}

impl VoxelGrid {
    /// Adding a face to a list adds what the face adds to the mesh.
    proof fn lemma_with_face(self, faces: Seq<Face>, side: QuadSide, x: int, y: int, z: int)
        ensures
            quads(self.with_face(faces, side, x, y, z)) == quads(faces).concat(
                self.face(side, x, y, z),
            ),
    {
        if self.exposed(side, x, y, z) {
            assert(faces.push(Face { side, x, y, z }).drop_last() =~= faces);
        } else {
            lemma_concat_empty(quads(faces));
        }
    }

    /// Adding a voxel to a list adds the mesh of the voxel.
    proof fn lemma_with_voxel(self, faces: Seq<Face>, x: int, y: int, z: int)
        ensures
            quads(self.with_voxel(faces, x, y, z)) == quads(faces).concat(
                self.voxel_mesh(x, y, z),
            ),
    {
        let f1 = self.with_face(faces, QuadSide::Top, x, y, z);
        let f2 = self.with_face(f1, QuadSide::Bottom, x, y, z);
        let f3 = self.with_face(f2, QuadSide::Left, x, y, z);
        let f4 = self.with_face(f3, QuadSide::Right, x, y, z);
        let f5 = self.with_face(f4, QuadSide::Front, x, y, z);
        self.lemma_with_face(faces, QuadSide::Top, x, y, z);
        self.lemma_with_face(f1, QuadSide::Bottom, x, y, z);
        self.lemma_with_face(f2, QuadSide::Left, x, y, z);
        self.lemma_with_face(f3, QuadSide::Right, x, y, z);
        self.lemma_with_face(f4, QuadSide::Front, x, y, z);
        self.lemma_with_face(f5, QuadSide::Back, x, y, z);
        let m = quads(faces);
        let top = self.face(QuadSide::Top, x, y, z);
        let bottom = self.face(QuadSide::Bottom, x, y, z);
        let left = self.face(QuadSide::Left, x, y, z);
        let right = self.face(QuadSide::Right, x, y, z);
        let front = self.face(QuadSide::Front, x, y, z);
        let back = self.face(QuadSide::Back, x, y, z);
        let v1 = MeshView::empty().concat(top);
        let v2 = v1.concat(bottom);
        let v3 = v2.concat(left);
        let v4 = v3.concat(right);
        let v5 = v4.concat(front);
        lemma_concat_empty(top);
        lemma_concat_assoc(m, v1, bottom);
        lemma_concat_assoc(m, v2, left);
        lemma_concat_assoc(m, v3, right);
        lemma_concat_assoc(m, v4, front);
        lemma_concat_assoc(m, v5, back);
    }

    /// The mesh is the quads of the listed faces.
    proof fn lemma_prefix_quads(self, n: nat)
        ensures
            quads(self.faces_prefix(n)) == self.mesh_prefix(n),
        decreases n,
    {
        if n > 0 {
            let i = (n - 1) as int;
            let size = self.size as int;
            self.lemma_prefix_quads((n - 1) as nat);
            self.lemma_with_voxel(
                self.faces_prefix((n - 1) as nat),
                i % size,
                i / size / size,
                i / size % size,
            );
        }
    }

    /// A face is fixed by its rank.
    proof fn lemma_rank(self, f: Face, g: Face)
        requires
            self.size >= 1,
            self.in_bounds(f.x, f.y, f.z),
            self.in_bounds(g.x, g.y, g.z),
            self.rank(f) == self.rank(g),
        ensures
            f == g,
    {
        lemma_index(self.size as int, f.x, f.y, f.z);
        lemma_index(self.size as int, g.x, g.y, g.z);
    }

    /// Listing goes on with the next face.
    proof fn lemma_lists_face(self, faces: Seq<Face>, side: QuadSide, x: int, y: int, z: int)
        requires
            self.wf(),
            self.is_ground(x, y, z),
            self.lists(faces, self.index(x, y, z) * 6 + side.rank()),
        ensures
            self.lists(
                self.with_face(faces, side, x, y, z),
                self.index(x, y, z) * 6 + side.rank() + 1,
            ),
    {
        let r = self.index(x, y, z) * 6 + side.rank();
        let c = Face { side, x, y, z };
        let next = self.with_face(faces, side, x, y, z);
        assert forall|f: Face| #[trigger] self.shows(f) && self.rank(f) < r + 1 implies exists|
            k: int,
        | 0 <= k < next.len() && #[trigger] next[k] == f by {
            if self.rank(f) < r {
                let k = choose|k: int| 0 <= k < faces.len() && #[trigger] faces[k] == f;
                assert(next[k] == f);
            } else {
                self.lemma_rank(f, c);
                assert(next[faces.len() as int] == f);
            }
        }
    }

    /// Listing goes on with the faces of the next voxel where it is ground.
    proof fn lemma_lists_voxel(self, faces: Seq<Face>, x: int, y: int, z: int)
        requires
            self.wf(),
            self.is_ground(x, y, z),
            self.lists(faces, self.index(x, y, z) * 6),
        ensures
            self.lists(self.with_voxel(faces, x, y, z), self.index(x, y, z) * 6 + 6),
    {
        let f1 = self.with_face(faces, QuadSide::Top, x, y, z);
        let f2 = self.with_face(f1, QuadSide::Bottom, x, y, z);
        let f3 = self.with_face(f2, QuadSide::Left, x, y, z);
        let f4 = self.with_face(f3, QuadSide::Right, x, y, z);
        let f5 = self.with_face(f4, QuadSide::Front, x, y, z);
        self.lemma_lists_face(faces, QuadSide::Top, x, y, z);
        self.lemma_lists_face(f1, QuadSide::Bottom, x, y, z);
        self.lemma_lists_face(f2, QuadSide::Left, x, y, z);
        self.lemma_lists_face(f3, QuadSide::Right, x, y, z);
        self.lemma_lists_face(f4, QuadSide::Front, x, y, z);
        self.lemma_lists_face(f5, QuadSide::Back, x, y, z);
    }

    /// The faces listed for the first `n` voxels are their shown faces.
    proof fn lemma_lists_prefix(self, n: nat)
        requires
            self.wf(),
            n <= self.volume(),
        ensures
            self.lists(self.faces_prefix(n), 6 * (n as int)),
        decreases n,
    {
        if n > 0 {
            let i = (n - 1) as int;
            let size = self.size as int;
            let before = self.faces_prefix((n - 1) as nat);
            self.lemma_lists_prefix((n - 1) as nat);
            lemma_linear_inverse(size, size, size, i);
            let (x, y, z) = (i % size, i / size / size, i / size % size);
            assert(self.index(x, y, z) == i);
            if self.voxels[i] == Voxel::Ground {
                self.lemma_lists_voxel(before, x, y, z);
            } else {
                assert forall|f: Face| #[trigger] self.shows(f) && self.rank(f) < 6 * n implies
                    self.rank(f) < 6 * i by {
                    if self.index(f.x, f.y, f.z) == i {
                        lemma_index(size, f.x, f.y, f.z);
                    }
                }
            }
        }
    }

    /// The mesh shows exactly the exposed faces of the ground voxels: the
    /// list of its faces holds each of them, nothing else, and nothing
    /// twice.
    pub proof fn lemma_faces(self)
        requires
            self.wf(),
        ensures
            forall|k: int| 0 <= k < self.faces().len() ==> self.shows(#[trigger] self.faces()[k]),
            forall|f: Face| #[trigger] self.shows(f) ==> self.faces().contains(f),
            self.faces().no_duplicates(),
            self.faces().len() <= 6 * self.volume(),
    {
        let n = self.volume() as nat;
        let faces = self.faces();
        self.lemma_lists_prefix(n);
        assert forall|f: Face| #[trigger] self.shows(f) implies faces.contains(f) by {
            lemma_index(self.size as int, f.x, f.y, f.z);
            let k = choose|k: int| 0 <= k < faces.len() && #[trigger] faces[k] == f;
            assert(faces[k] == f);
        }
        assert forall|j: int, k: int| 0 <= j < faces.len() && 0 <= k < faces.len() && j
            != k implies faces[j] != faces[k] by {
            if j < k {
                assert(self.rank(faces[j]) < self.rank(faces[k]));
            } else {
                assert(self.rank(faces[k]) < self.rank(faces[j]));
            }
        }
    }

    /// The mesh is one quad of six vertices per shown face, in the order
    /// of the faces: see [`lemma_quads_block`] for where each quad stands.
    /// Both buffers have 18 entries per face, so the vertex count is six
    /// times the number of faces, a multiple of three, and at most
    /// `6 * 6 * size³`.
    pub proof fn lemma_mesh_quads(self)
        requires
            self.wf(),
        ensures
            self.mesh() == quads(self.faces()),
            self.mesh().verts.len() == 18 * self.faces().len(),
            self.mesh().normals.len() == self.mesh().verts.len(),
            self.mesh().vertex_count() == 6 * self.faces().len(),
            self.mesh().vertex_count() % 3 == 0,
            self.mesh().vertex_count() <= 6 * 6 * self.volume(),
    {
        let n = self.volume() as nat;
        let count = self.faces().len();
        self.lemma_prefix_quads(n);
        lemma_quads_len(self.faces());
        self.lemma_faces();
        assert(n == self.volume());
        assert(self.mesh().vertex_count() == 6 * count);
        assert(6 * count <= 36 * n);
        assert(36 * n == 6 * 6 * self.volume());
    }

    /// In a cube whose only ground voxel is at `(x, y, z)`, the ground
    /// among the first `n` voxels is that voxel or none.
    proof fn lemma_single_prefix(self, x: int, y: int, z: int, n: nat)
        requires
            self.wf(),
            self.in_bounds(x, y, z),
            n <= self.volume(),
            forall|i: int|
                0 <= i < self.voxels.len() ==> (#[trigger] self.voxels[i] == Voxel::Ground <==> i
                    == self.index(x, y, z)),
        ensures
            self.mesh_prefix(n) == (if n <= self.index(x, y, z) {
                MeshView::empty()
            } else {
                self.voxel_mesh(x, y, z)
            }),
        decreases n,
    {
        if n > 0 {
            self.lemma_single_prefix(x, y, z, (n - 1) as nat);
            lemma_index(self.size as int, x, y, z);
            lemma_concat_empty(self.voxel_mesh(x, y, z));
        }
    }

    /// A single ground voxel surrounded by air, or by the border of the
    /// cube, gives a mesh of exactly six quads: 36 vertices, one quad per
    /// face.
    pub proof fn lemma_single_voxel(self, x: int, y: int, z: int)
        requires
            self.wf(),
            self.in_bounds(x, y, z),
            forall|i: int|
                0 <= i < self.voxels.len() ==> (#[trigger] self.voxels[i] == Voxel::Ground <==> i
                    == self.index(x, y, z)),
        ensures
            self.mesh() == quad(QuadSide::Top, x, y, z).concat(
                quad(QuadSide::Bottom, x, y, z),
            ).concat(quad(QuadSide::Left, x, y, z)).concat(quad(QuadSide::Right, x, y, z)).concat(
                quad(QuadSide::Front, x, y, z),
            ).concat(quad(QuadSide::Back, x, y, z)),
            self.mesh().vertex_count() == 36,
            self.faces().len() == 6,
    {
        let size = self.size as int;
        lemma_index(size, x, y, z);
        assert forall|side: QuadSide| self.exposed(side, x, y, z) by {
            let o = side.offset();
            let (nx, ny, nz) = (x + o.0, y + o.1, z + o.2);
            if self.in_bounds(nx, ny, nz) {
                lemma_index(size, nx, ny, nz);
            }
        }
        self.lemma_isolated_voxel(x, y, z);
        self.lemma_single_prefix(x, y, z, self.volume() as nat);
        self.lemma_mesh_quads();
    }

    /// A ground voxel at the border of the cube always shows the face that
    /// looks out of the cube, whatever a neighbouring chunk holds there.
    pub proof fn lemma_border_face(self, side: QuadSide, x: int, y: int, z: int)
        requires
            self.is_ground(x, y, z),
            !self.in_bounds(x + side.offset().0, y + side.offset().1, z + side.offset().2),
        ensures
            self.shows(Face { side, x, y, z }),
    {
    }

    /// A ground voxel whose six neighbours are all ground adds no vertex.
    pub proof fn lemma_interior_voxel(self, x: int, y: int, z: int)
        requires
            forall|side: QuadSide| !self.exposed(side, x, y, z),
        ensures
            self.voxel_mesh(x, y, z) == MeshView::empty(),
            forall|faces: Seq<Face>| #[trigger] self.with_voxel(faces, x, y, z) == faces,
    {
        lemma_concat_empty(MeshView::empty());
    }

    /// A voxel whose six neighbours are all free, be they air or outside
    /// the cube, adds exactly six quads, 36 vertices, one quad per face.
    pub proof fn lemma_isolated_voxel(self, x: int, y: int, z: int)
        requires
            forall|side: QuadSide| self.exposed(side, x, y, z),
        ensures
            self.voxel_mesh(x, y, z) == quad(QuadSide::Top, x, y, z).concat(
                quad(QuadSide::Bottom, x, y, z),
            ).concat(quad(QuadSide::Left, x, y, z)).concat(quad(QuadSide::Right, x, y, z)).concat(
                quad(QuadSide::Front, x, y, z),
            ).concat(quad(QuadSide::Back, x, y, z)),
            self.voxel_mesh(x, y, z).vertex_count() == 36,
            self.voxel_mesh(x, y, z).normals.len() == 108,
    {
        lemma_concat_empty(quad(QuadSide::Top, x, y, z));
    }
}

/// Cross product of two integer vectors.
pub open spec fn cross(a: Point, b: Point) -> Point {
    (a.1 * b.2 - a.2 * b.1, a.2 * b.0 - a.0 * b.2, a.0 * b.1 - a.1 * b.0)
}

/// Difference of two integer vectors.
pub open spec fn minus(a: Point, b: Point) -> Point {
    (a.0 - b.0, a.1 - b.1, a.2 - b.2)
}

/// Whether coordinate `c` of a unit-cube corner is compatible with a face
/// whose normal has component `o` along the same axis.
pub open spec fn axis_on_face(o: int, c: int) -> bool {
    &&& 0 <= c <= 1
    &&& o == 1 ==> c == 1
    &&& o == -1 ==> c == 0
}

/// Whether `p` is a corner of the unit cube that lies on face `side`.
pub open spec fn on_face(side: QuadSide, p: Point) -> bool {
    let o = side.offset();
    axis_on_face(o.0, p.0) && axis_on_face(o.1, p.1) && axis_on_face(o.2, p.2)
}

/// Each face's six corners lie on that face of the unit cube and reach all
/// four of its corners; its normal is the step towards the neighbour behind
/// the face; and both triangles wind clockwise seen from outside the voxel,
/// that is, the cross product of their first two edges is the inward normal.
pub proof fn lemma_quad_geometry(side: QuadSide)
    ensures
        side.corners().len() == 6,
        forall|i: int| 0 <= i < 6 ==> on_face(side, #[trigger] side.corners()[i]),
        forall|p: Point|
            on_face(side, p) ==> exists|i: int| 0 <= i < 6 && #[trigger] side.corners()[i] == p,
        ({
            let c = side.corners();
            let o = side.offset();
            &&& cross(minus(c[1], c[0]), minus(c[2], c[0])) == (-o.0, -o.1, -o.2)
            &&& cross(minus(c[4], c[3]), minus(c[5], c[3])) == (-o.0, -o.1, -o.2)
        }),
{
    let c = side.corners();
    assert forall|p: Point| on_face(side, p) implies exists|i: int|
        0 <= i < 6 && #[trigger] side.corners()[i] == p by {
        assert(p == (p.0, p.1, p.2));
        assert(c[0] == p || c[1] == p || c[2] == p || c[3] == p || c[4] == p || c[5] == p);
    }
    match side {
        QuadSide::Top => {
            lemma_edges(c, 0, (1int, 0int, 0int), (1int, 0int, 1int));
            lemma_edges(c, 3, (-1int, 0int, 0int), (-1int, 0int, -1int));
            assert(cross((1int, 0int, 0int), (1int, 0int, 1int)) == (0int, -1int, 0int))
                by (nonlinear_arith);
            assert(cross((-1int, 0int, 0int), (-1int, 0int, -1int)) == (0int, -1int, 0int))
                by (nonlinear_arith);
        },
        QuadSide::Bottom => {
            lemma_edges(c, 0, (1int, 0int, 1int), (1int, 0int, 0int));
            lemma_edges(c, 3, (-1int, 0int, -1int), (-1int, 0int, 0int));
            assert(cross((1int, 0int, 1int), (1int, 0int, 0int)) == (0int, 1int, 0int))
                by (nonlinear_arith);
            assert(cross((-1int, 0int, -1int), (-1int, 0int, 0int)) == (0int, 1int, 0int))
                by (nonlinear_arith);
        },
        QuadSide::Left => {
            lemma_edges(c, 0, (0int, -1int, -1int), (0int, 0int, -1int));
            lemma_edges(c, 3, (0int, 1int, 1int), (0int, 0int, 1int));
            assert(cross((0int, -1int, -1int), (0int, 0int, -1int)) == (1int, 0int, 0int))
                by (nonlinear_arith);
            assert(cross((0int, 1int, 1int), (0int, 0int, 1int)) == (1int, 0int, 0int))
                by (nonlinear_arith);
        },
        QuadSide::Right => {
            lemma_edges(c, 0, (0int, 0int, -1int), (0int, -1int, -1int));
            lemma_edges(c, 3, (0int, 0int, 1int), (0int, 1int, 1int));
            assert(cross((0int, 0int, -1int), (0int, -1int, -1int)) == (-1int, 0int, 0int))
                by (nonlinear_arith);
            assert(cross((0int, 0int, 1int), (0int, 1int, 1int)) == (-1int, 0int, 0int))
                by (nonlinear_arith);
        },
        QuadSide::Front => {
            lemma_edges(c, 0, (1int, 1int, 0int), (1int, 0int, 0int));
            lemma_edges(c, 3, (-1int, -1int, 0int), (-1int, 0int, 0int));
            assert(cross((1int, 1int, 0int), (1int, 0int, 0int)) == (0int, 0int, -1int))
                by (nonlinear_arith);
            assert(cross((-1int, -1int, 0int), (-1int, 0int, 0int)) == (0int, 0int, -1int))
                by (nonlinear_arith);
        },
        QuadSide::Back => {
            lemma_edges(c, 0, (1int, 0int, 0int), (1int, 1int, 0int));
            lemma_edges(c, 3, (-1int, 0int, 0int), (-1int, -1int, 0int));
            assert(cross((1int, 0int, 0int), (1int, 1int, 0int)) == (0int, 0int, 1int))
                by (nonlinear_arith);
            assert(cross((-1int, 0int, 0int), (-1int, -1int, 0int)) == (0int, 0int, 1int))
                by (nonlinear_arith);
        },
    }
}

/// The triangle that starts at corner `first` has the edges `e1` and `e2`
/// where the corners differ by them.
proof fn lemma_edges(c: Seq<Point>, first: int, e1: Point, e2: Point)
    requires
        0 <= first,
        first + 2 < c.len(),
        minus(c[first + 1], c[first]) == e1,
        minus(c[first + 2], c[first]) == e2,
    ensures
        cross(minus(c[first + 1], c[first]), minus(c[first + 2], c[first])) == cross(e1, e2),
{
}

} // verus!
