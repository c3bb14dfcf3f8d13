//! Tiles and the tile map that the voxel world is derived from.

use crate::space::{box_set, lemma_box_len};
use vek::Vec3;
use vstd::arithmetic::div_mod::lemma_fundamental_div_mod_converse;
use vstd::prelude::*;

verus! {

/// Kind of one cell of the tile map.
#[derive(PartialEq, Eq, Copy, Clone, Debug, Structural)]
pub enum Tile {
    Floor,
    Wall,
    StairUp,
}

impl Tile {
    /// The tile that a map character stands for.
    pub open spec fn of_char(ch: char) -> Tile {
        if ch == '#' {
            Tile::Wall
        } else if ch == '<' {
            Tile::StairUp
        } else {
            Tile::Floor
        }
    }

    pub fn from_char(ch: char) -> (t: Tile)
        ensures
            t == Tile::of_char(ch),
    {
        match ch {
            '#' => Tile::Wall,
            '<' => Tile::StairUp,
            _ => Tile::Floor,
        }
    }

    /// Whether the tile stops movement: walls and stairs do.
    pub open spec fn blocks(self) -> bool {
        self == Tile::Wall || self == Tile::StairUp
    }

    pub fn is_wall(&self) -> (b: bool)
        ensures
            b == (*self == Tile::Wall),
    {
        *self == Tile::Wall
    }
}

/// Whether a character of a map text only lays the text out.
pub open spec fn is_layout(ch: char) -> bool {
    ch == '\n' || ch == ' '
}

/// The tiles that a map text stands for: one per character, in order,
/// layout characters left out.
pub open spec fn parse_tiles(text: Seq<char>) -> Seq<Tile>
    decreases text.len(),
{
    if text.len() == 0 {
        Seq::empty()
    } else {
        let before = parse_tiles(text.drop_last());
        if is_layout(text.last()) {
            before
        } else {
            before.push(Tile::of_char(text.last()))
        }
    }
}

/// Mathematical content of a tile map: `height` levels, each a row-major
/// sequence of `width * depth` tiles.
pub struct AreaView {
    pub tiles: Seq<Seq<Tile>>,
    pub width: nat,
    pub height: nat,
    pub depth: nat,
}

impl AreaView {
    /// Number of tiles of one level.
    pub open spec fn level_len(self) -> int {
        self.width as int * self.depth as int
    }

    /// Number of tiles of the whole map.
    pub open spec fn tile_count(self) -> int {
        self.level_len() * self.height as int
    }

    pub open spec fn in_range(self, x: int, y: int, z: int) -> bool {
        0 <= x < self.width && 0 <= y < self.height && 0 <= z < self.depth
    }

    /// The tile at column `x` and row `z` of level `y`.
    pub open spec fn tile_at(self, x: int, y: int, z: int) -> Tile {
        self.tiles[y][z * self.width + x]
    }

    /// Whether `(x, y, z)` lies in the map and holds a wall.
    pub open spec fn is_wall(self, x: int, y: int, z: int) -> bool {
        self.in_range(x, y, z) && self.tile_at(x, y, z) == Tile::Wall
    }

    /// The tile at `(x, y, z)` where that lies in the map and blocks;
    /// nothing for every other position, which thereby counts as open.
    pub open spec fn blocking_at(self, x: int, y: int, z: int) -> Option<Tile> {
        if self.in_range(x, y, z) && self.tile_at(x, y, z).blocks() {
            Some(self.tile_at(x, y, z))
        } else {
            None
        }
    }

    /// The coordinates of all wall tiles.
    pub open spec fn wall_set(self) -> Set<(int, int, int)> {
        Set::new(|t: (int, int, int)| self.is_wall(t.0, t.1, t.2))
    }

    /// There are finitely many wall tiles: they all lie in the map.
    pub proof fn lemma_wall_set_finite(self)
        ensures
            self.wall_set().finite(),
            self.wall_set().len() <= self.width * self.height * self.depth,
    {
        let dims = (self.width as int, self.height as int, self.depth as int);
        let all = box_set((0, 0, 0), dims);
        lemma_box_len((0, 0, 0), dims);
        assert(self.wall_set().subset_of(all));
        vstd::set_lib::lemma_len_subset(self.wall_set(), all);
    }

    /// There are `height` levels of `width * depth` tiles each, and the
    /// number of tiles can be held in a `usize`.
    pub open spec fn wf(self) -> bool {
        &&& self.tiles.len() == self.height
        &&& forall|l: int|
            0 <= l < self.height ==> (#[trigger] self.tiles[l]).len() == self.level_len()
        &&& self.tile_count() <= usize::MAX
    }
}

/// Why a tile map was refused.
#[derive(PartialEq, Eq, Copy, Clone, Debug, Structural)]
pub enum AreaError {
    /// The dimensions describe more tiles than can be addressed.
    TooLarge,
    /// The number of levels is not the stated height.
    LevelCount,
    /// The level with this index is the first that does not hold
    /// `width * depth` tiles.
    LevelLength(usize),
}

/// An immutable three-dimensional tile map.
#[derive(Debug)]
pub struct Area {
    tiles: Vec<Vec<Tile>>,
    width: usize,
    height: usize,
    depth: usize,
}

/// The levels of a map as sequences.
pub open spec fn levels_view(tiles: Seq<Vec<Tile>>) -> Seq<Seq<Tile>> {
    Seq::new(tiles.len(), |l: int| tiles[l]@)
}

impl View for Area {
    type V = AreaView;

    closed spec fn view(&self) -> AreaView {
        AreaView {
            tiles: levels_view(self.tiles@),
            width: self.width as nat,
            height: self.height as nat,
            depth: self.depth as nat,
        }
    }
}

/// In a level of `width * depth` tiles, the tile of an in-range column and
/// row has its index below the level's length.
pub proof fn lemma_tile_index(width: int, depth: int, x: int, z: int)
    requires
        0 <= x < width,
        0 <= z < depth,
    ensures
        0 <= z * width + x < width * depth,
        0 <= z * width <= z * width + x,
{
    assert(0 <= z * width && z * width + x < width * depth) by (nonlinear_arith)
        requires
            0 <= x < width,
            0 <= z < depth,
    ;
}

impl Area {
    pub open spec fn wf(&self) -> bool {
        self@.wf()
    }

    /// The tiles of one level's text.
    pub fn parse_level(text: &str) -> (tiles: Vec<Tile>)
        ensures
            tiles@ == parse_tiles(text@),
    {
        let mut tiles: Vec<Tile> = Vec::new();
        for ch in it: text.chars()
            invariant
                it.seq() == text@,
                tiles@ == parse_tiles(text@.take(it.index() as int)),
        {
            proof {
                let upto = text@.take(it.index() + 1);
                assert(upto.drop_last() =~= text@.take(it.index() as int));
                assert(upto.last() == ch);
            }
            if ch != '\n' && ch != ' ' {
                tiles.push(Tile::from_char(ch));
            }
        }
        assert(text@.take(text@.len() as int) =~= text@);
        tiles
    }

    /// Builds a map from its levels, each a row-major sequence of
    /// `width * depth` tiles. Dimensions that do not match the tiles are an
    /// error, never silently accepted.
    pub fn new(tiles: Vec<Vec<Tile>>, width: usize, height: usize, depth: usize) -> (r: Result<
        Area,
        AreaError,
    >)
        ensures
            match r {
                Ok(a) => {
                    &&& a.wf()
                    &&& a@ == (AreaView {
                        tiles: levels_view(tiles@),
                        width: width as nat,
                        height: height as nat,
                        depth: depth as nat,
                    })
                },
                Err(AreaError::TooLarge) => width * depth * height > usize::MAX,
                Err(AreaError::LevelCount) => {
                    &&& width * depth * height <= usize::MAX
                    &&& tiles@.len() != height
                },
                Err(AreaError::LevelLength(l)) => {
                    &&& width * depth * height <= usize::MAX
                    &&& tiles@.len() == height
                    &&& l < height
                    &&& tiles@[l as int]@.len() != width * depth
                    &&& forall|k: int| 0 <= k < l ==> (#[trigger] tiles@[k])@.len() == width * depth
                },
            },
    {
        if height == 0 {
            assert(width * depth * height == 0) by (nonlinear_arith)
                requires
                    height == 0,
            ;
            if tiles.len() != 0 {
                return Err(AreaError::LevelCount);
            }
            return Ok(Area { tiles, width, height, depth });
        }
        let level_len = match width.checked_mul(depth) {
            Some(n) => n,
            None => {
                assert(width * depth * height > usize::MAX) by (nonlinear_arith)
                    requires
                        height >= 1,
                        width * depth > usize::MAX,
                ;
                return Err(AreaError::TooLarge);
            },
        };
        if level_len.checked_mul(height).is_none() {
            return Err(AreaError::TooLarge);
        }
        if tiles.len() != height {
            return Err(AreaError::LevelCount);
        }
        let mut l: usize = 0;
        while l < height
            invariant
                l <= height,
                tiles@.len() == height,
                level_len == width * depth,
                width * depth * height <= usize::MAX,
                forall|k: int| 0 <= k < l ==> (#[trigger] tiles@[k])@.len() == width * depth,
            decreases height - l,
        {
            if tiles[l].len() != level_len {
                return Err(AreaError::LevelLength(l));
            }
            l += 1;
        }
        Ok(Area { tiles, width, height, depth })
    }

    /// Builds a map from one text per level, see [`parse_tiles`]; the
    /// number of levels is the height.
    pub fn parse(levels: &[&str], width: usize, depth: usize) -> (r: Result<Area, AreaError>)
        ensures
            match r {
                Ok(a) => {
                    &&& a.wf()
                    &&& a@.width == width
                    &&& a@.depth == depth
                    &&& a@.height == levels@.len()
                    &&& a@.tiles == Seq::new(levels@.len(), |l: int| parse_tiles(levels@[l]@))
                },
                Err(AreaError::TooLarge) => width * depth * levels@.len() > usize::MAX,
                Err(AreaError::LevelCount) => false,
                Err(AreaError::LevelLength(l)) => {
                    &&& width * depth * levels@.len() <= usize::MAX
                    &&& l < levels@.len()
                    &&& parse_tiles(levels@[l as int]@).len() != width * depth
                    &&& forall|k: int|
                        0 <= k < l ==> parse_tiles(#[trigger] levels@[k]@).len() == width * depth
                },
            },
    {
        let mut tiles: Vec<Vec<Tile>> = Vec::new();
        let mut l: usize = 0;
        while l < levels.len()
            invariant
                l <= levels@.len(),
                tiles@.len() == l,
                forall|k: int| 0 <= k < l ==> (#[trigger] tiles@[k])@ == parse_tiles(levels@[k]@),
            decreases levels@.len() - l,
        {
            tiles.push(Area::parse_level(levels[l]));
            l += 1;
        }
        let ghost parsed = tiles@;
        let r = Area::new(tiles, width, levels.len(), depth);
        proof {
            assert forall|k: int| 0 <= k < levels@.len() implies parse_tiles(
                #[trigger] levels@[k]@,
            ) == parsed[k]@ by {}
            if r is Ok {
                assert(r->Ok_0@.tiles =~= Seq::new(
                    levels@.len(),
                    |l: int| parse_tiles(levels@[l]@),
                ));
            }
        }
        r
    }

    pub fn width(&self) -> (n: usize)
        ensures
            n == self@.width,
    {
        self.width
    }

    pub fn height(&self) -> (n: usize)
        ensures
            n == self@.height,
    {
        self.height
    }

    pub fn depth(&self) -> (n: usize)
        ensures
            n == self@.depth,
    {
        self.depth
    }

    /// The tile at `(x, y, z)`, which must lie in the map.
    pub fn tile_at(&self, x: usize, y: usize, z: usize) -> (t: Tile)
        requires
            self.wf(),
            self@.in_range(x as int, y as int, z as int),
        ensures
            t == self@.tile_at(x as int, y as int, z as int),
    {
        proof {
            lemma_tile_index(self.width as int, self.depth as int, x as int, z as int);
            assert(self.tiles@[y as int]@ == self@.tiles[y as int]);
            assert(self.tiles@[y as int].len() == self.tiles@[y as int]@.len());
        }
        self.tiles[y][z * self.width + x]
    }
    /// Bounds-checked lookup for collision tests: the blocking tile at
    /// `point`, or `None` where `point` is outside the map or open.
    pub fn blocks_at(&self, point: Vec3<i32>) -> (r: Option<Tile>)
        requires
            self.wf(),
        ensures
            r == self@.blocking_at(point.x as int, point.y as int, point.z as int),
    {
        if point.x < 0 || point.y < 0 || point.z < 0 {
            return None;
        }
        let x = point.x as usize;
        let y = point.y as usize;
        let z = point.z as usize;
        if x >= self.width || y >= self.height || z >= self.depth {
            return None;
        }
        let tile = self.tile_at(x, y, z);
        match tile {
            Tile::Wall => Some(tile),
            Tile::StairUp => Some(tile),
            Tile::Floor => None,
        }
    }

    /// The two-level map used for trying things out: a solid ground level
    /// and, above it, a few walls on an open floor.
    pub fn debug() -> (a: Area)
        ensures
            a.wf(),
            a@.width == 20,
            a@.height == 2,
            a@.depth == 10,
            forall|x: int, y: int, z: int|
                a@.in_range(x, y, z) ==> #[trigger] a@.tile_at(x, y, z) == debug_tile(x, y, z),
    {
        let mut world_tiles: Vec<Vec<Tile>> = Vec::new();
        let mut y: usize = 0;
        while y < 2
            invariant
                y <= 2,
                world_tiles@.len() == y,
                forall|l: int| 0 <= l < y ==> (#[trigger] world_tiles@[l])@ == debug_rows(l, 10),
            decreases 2 - y,
        {
            let mut level: Vec<Tile> = Vec::new();
            let mut z: usize = 0;
            while z < 10
                invariant
                    y < 2,
                    z <= 10,
                    level@ == debug_rows(y as int, z as nat),
                decreases 10 - z,
            {
                push_row(&mut level, debug_text(y, z));
                assert(level@ =~= debug_rows(y as int, (z + 1) as nat));
                z += 1;
            }
            world_tiles.push(level);
            y += 1;
        }
        let a = Area { tiles: world_tiles, width: 20, height: 2, depth: 10 };
        assert(a@.level_len() == 200 && a@.tile_count() == 400);
        assert forall|x: int, y: int, z: int| a@.in_range(x, y, z) implies #[trigger] a@.tile_at(
            x,
            y,
            z,
        ) == debug_tile(x, y, z) by {
            assert(0 <= z * 20 + x < 200);
            assert((z * 20 + x) / 20 == z && (z * 20 + x) % 20 == x);
        }
        a
    }
    /// A larger map for trying things out: three levels of open floor
    /// with walls along two edges, scaled up by five.
    pub fn debug2() -> (a: Area)
        ensures
            a.wf(),
            a@.width == 250,
            a@.height == 15,
            a@.depth == 400,
            forall|x: int, y: int, z: int|
                a@.in_range(x, y, z) ==> #[trigger] a@.tile_at(x, y, z) == edge_tile(x / 5, z / 5),
    {
        let width: usize = 50;
        let height: usize = 3;
        let depth: usize = 80;

        let mut levels: Vec<Vec<Tile>> = Vec::with_capacity(height);
        let mut y: usize = 0;
        while y < height
            invariant
                width == 50,
                height == 3,
                depth == 80,
                y <= height,
                levels@.len() == y,
                forall|l: int| 0 <= l < y ==> (#[trigger] levels@[l])@ == edge_tiles(4000),
            decreases height - y,
        {
            let mut tiles: Vec<Tile> = Vec::with_capacity(width * depth);
            let mut z: usize = 0;
            while z < depth
                invariant
                    width == 50,
                    depth == 80,
                    z <= depth,
                    tiles@ == edge_tiles((z * 50) as nat),
                decreases depth - z,
            {
                let mut x: usize = 0;
                while x < width
                    invariant
                        width == 50,
                        z < 80,
                        x <= width,
                        tiles@ == edge_tiles((z * 50 + x) as nat),
                    decreases width - x,
                {
                    if z == 0 || x == 0 {
                        tiles.push(Tile::Wall);
                    } else {
                        tiles.push(Tile::Floor);
                    }
                    assert(tiles@ =~= edge_tiles((z * 50 + x + 1) as nat));
                    x += 1;
                }
                z += 1;
            }
            levels.push(tiles);
            y += 1;
        }
        let unexpanded = Area { tiles: levels, width, height, depth };
        proof {
            assert(unexpanded@.level_len() == 4000 && unexpanded@.tile_count() == 12000);
            assert forall|x: int, y: int, z: int|
                unexpanded@.in_range(x, y, z) implies #[trigger] unexpanded@.tile_at(x, y, z)
                == edge_tile(x, z) by {
                assert(unexpanded@.tiles[y] == levels@[y]@);
                assert((z * 50 + x) / 50 == z && (z * 50 + x) % 50 == x);
            }
        }
        let a = expand_tiles(unexpanded, 5);
        proof {
            assert forall|x: int, y: int, z: int| a@.in_range(x, y, z) implies
                #[trigger] a@.tile_at(x, y, z) == edge_tile(x / 5, z / 5) by {
                assert(unexpanded@.in_range(x / 5, y / 5, z / 5));
            }
        }
        a
    }
}

/// The tile at column `x` and row `z` of a level with walls along the two
/// edges that meet at the origin.
pub open spec fn edge_tile(x: int, z: int) -> Tile {
    if z == 0 || x == 0 {
        Tile::Wall
    } else {
        Tile::Floor
    }
}

/// The first `n` tiles of such a level that is 50 tiles wide.
pub open spec fn edge_tiles(n: nat) -> Seq<Tile> {
    Seq::new(n, |i: int| edge_tile(i % 50, i / 50))
}

/// Where the upper level of the debug map has walls: the corner of a room
/// with a doorway, and two pillars.
pub open spec fn debug_upper_wall(x: int, z: int) -> bool {
    ||| x == 8 && 0 <= z <= 4
    ||| z == 4 && (8 <= x <= 11 || 13 <= x <= 19)
    ||| x == 13 && 4 <= z <= 8
    ||| x == 12 && z == 0
    ||| x == 2 && z == 7
}

/// The tile of the debug map at `(x, y, z)`: the ground level is solid,
/// the upper level has floor but for its walls.
pub open spec fn debug_tile(x: int, y: int, z: int) -> Tile {
    if y == 0 || debug_upper_wall(x, z) {
        Tile::Wall
    } else {
        Tile::Floor
    }
}

/// Row `z` of level `y` of the debug map.
pub open spec fn debug_row(y: int, z: int) -> Seq<Tile> {
    Seq::new(20, |x: int| debug_tile(x, y, z))
}

/// The first `n` rows of level `y` of the debug map.
pub open spec fn debug_rows(y: int, n: nat) -> Seq<Tile> {
    Seq::new(20 * n, |i: int| debug_tile(i % 20, y, i / 20))
}

/// The text of row `z` of level `y` of the debug map: `#` is a wall, `.`
/// is floor.
fn debug_text(y: usize, z: usize) -> (row: &'static str)
    requires
        y < 2,
        z < 10,
    ensures
        parse_tiles(row@) == debug_row(y as int, z as int),
{
    if y == 0 {
        proof {
            lemma_debug_text_ground(z as int);
        }
        "####################"
    } else {
        match z {
            0 => {
                proof {
                    lemma_debug_text_0();
                }
                "........#...#......."
            },
            1 => {
                proof {
                    lemma_debug_text_1();
                }
                "........#..........."
            },
            2 => {
                proof {
                    lemma_debug_text_1();
                }
                "........#..........."
            },
            3 => {
                proof {
                    lemma_debug_text_1();
                }
                "........#..........."
            },
            4 => {
                proof {
                    lemma_debug_text_4();
                }
                "........####.#######"
            },
            5 => {
                proof {
                    lemma_debug_text_5();
                }
                ".............#......"
            },
            6 => {
                proof {
                    lemma_debug_text_5();
                }
                ".............#......"
            },
            7 => {
                proof {
                    lemma_debug_text_7();
                }
                "..#..........#......"
            },
            8 => {
                proof {
                    lemma_debug_text_5();
                }
                ".............#......"
            },
            _ => {
                proof {
                    lemma_debug_text_9();
                }
                "...................."
            },
        }
    }
}

proof fn lemma_debug_text_ground(z: int)
    ensures
        parse_tiles("####################"@) == debug_row(0, z),
{
    reveal_strlit("####################");
    reveal_with_fuel(parse_tiles, 21);
    assert(parse_tiles("####################"@) =~= debug_row(0, z));
}

proof fn lemma_debug_text_0()
    ensures
        parse_tiles("........#...#......."@) == debug_row(1, 0),
{
    reveal_strlit("........#...#.......");
    reveal_with_fuel(parse_tiles, 21);
    assert(parse_tiles("........#...#......."@) =~= debug_row(1, 0));
}

proof fn lemma_debug_text_1()
    ensures
        parse_tiles("........#..........."@) == debug_row(1, 1),
        parse_tiles("........#..........."@) == debug_row(1, 2),
        parse_tiles("........#..........."@) == debug_row(1, 3),
{
    reveal_strlit("........#...........");
    reveal_with_fuel(parse_tiles, 21);
    assert(parse_tiles("........#..........."@) =~= debug_row(1, 1));
    assert(parse_tiles("........#..........."@) =~= debug_row(1, 2));
    assert(parse_tiles("........#..........."@) =~= debug_row(1, 3));
}

proof fn lemma_debug_text_4()
    ensures
        parse_tiles("........####.#######"@) == debug_row(1, 4),
{
    reveal_strlit("........####.#######");
    reveal_with_fuel(parse_tiles, 21);
    assert(parse_tiles("........####.#######"@) =~= debug_row(1, 4));
}

proof fn lemma_debug_text_5()
    ensures
        parse_tiles(".............#......"@) == debug_row(1, 5),
        parse_tiles(".............#......"@) == debug_row(1, 6),
        parse_tiles(".............#......"@) == debug_row(1, 8),
{
    reveal_strlit(".............#......");
    reveal_with_fuel(parse_tiles, 21);
    assert(parse_tiles(".............#......"@) =~= debug_row(1, 5));
    assert(parse_tiles(".............#......"@) =~= debug_row(1, 6));
    assert(parse_tiles(".............#......"@) =~= debug_row(1, 8));
}

proof fn lemma_debug_text_7()
    ensures
        parse_tiles("..#..........#......"@) == debug_row(1, 7),
{
    reveal_strlit("..#..........#......");
    reveal_with_fuel(parse_tiles, 21);
    assert(parse_tiles("..#..........#......"@) =~= debug_row(1, 7));
}

proof fn lemma_debug_text_9()
    ensures
        parse_tiles("...................."@) == debug_row(1, 9),
{
    reveal_strlit("....................");
    reveal_with_fuel(parse_tiles, 21);
    assert(parse_tiles("...................."@) =~= debug_row(1, 9));
}

/// A position below `count * factor` lies in one of `count` runs of
/// `factor` positions.
pub proof fn lemma_div_below(i: int, count: int, factor: int)
    requires
        0 <= i < count * factor,
        0 < factor,
    ensures
        0 <= i / factor < count,
{
    assert(0 <= i / factor < count) by (nonlinear_arith)
        requires
            0 <= i < count * factor,
            0 < factor,
    ;
}

/// Scales a map up: every tile becomes a block of `expand` tiles along each
/// axis. The scaled map must still be addressable.
pub fn expand_tiles(area: Area, expand: usize) -> (r: Area)
    requires
        area.wf(),
        area@.width * expand <= usize::MAX,
        area@.height * expand <= usize::MAX,
        area@.depth * expand <= usize::MAX,
        (area@.width * expand) * (area@.depth * expand) * (area@.height * expand) <= usize::MAX,
    ensures
        r.wf(),
        r@.width == area@.width * expand,
        r@.height == area@.height * expand,
        r@.depth == area@.depth * expand,
        forall|x: int, y: int, z: int|
            r@.in_range(x, y, z) ==> #[trigger] r@.tile_at(x, y, z) == area@.tile_at(
                x / expand as int,
                y / expand as int,
                z / expand as int,
            ),
{
    let width = area.width * expand;
    let height = area.height * expand;
    let depth = area.depth * expand;
    let ghost e = expand as int;
    let ghost source = area@;
    let mut levels: Vec<Vec<Tile>> = Vec::new();
    let mut y: usize = 0;
    while y < height
        invariant
            area.wf(),
            area@ == source,
            width == area.width * expand,
            height == area.height * expand,
            depth == area.depth * expand,
            e == expand,
            y <= height,
            levels@.len() == y,
            forall|l: int|
                0 <= l < y ==> (#[trigger] levels@[l])@ == expanded_level(source, e, l / e),
        decreases height - y,
    {
        proof {
            lemma_div_below(y as int, area.height as int, e);
        }
        let uy = y / expand;
        let mut level: Vec<Tile> = Vec::new();
        let mut z: usize = 0;
        while z < depth
            invariant
                area.wf(),
                area@ == source,
                width == area.width * expand,
                depth == area.depth * expand,
                e == expand,
                0 < expand,
                uy < area.height,
                z <= depth,
                level@.len() == z * width,
                forall|i: int|
                    0 <= i < z * width ==> #[trigger] level@[i] == source.tile_at(
                        i % (width as int) / e,
                        uy as int,
                        i / (width as int) / e,
                    ),
            decreases depth - z,
        {
            proof {
                lemma_div_below(z as int, area.depth as int, e);
            }
            let uz = z / expand;
            let mut x: usize = 0;
            while x < width
                invariant
                    area.wf(),
                    area@ == source,
                    width == area.width * expand,
                    e == expand,
                    0 < expand,
                    uy < area.height,
                    uz < area.depth,
                    uz == z / expand,
                    z < depth,
                    x <= width,
                    level@.len() == z * width + x,
                    forall|i: int|
                        0 <= i < z * width + x ==> #[trigger] level@[i] == source.tile_at(
                            i % (width as int) / e,
                            uy as int,
                            i / (width as int) / e,
                        ),
                decreases width - x,
            {
                proof {
                    lemma_div_below(x as int, area.width as int, e);
                    lemma_fundamental_div_mod_converse(
                        z * width + x,
                        width as int,
                        z as int,
                        x as int,
                    );
                }
                let ux = x / expand;
                level.push(area.tile_at(ux, uy, uz));
                x += 1;
            }
            z += 1;
            assert((z - 1) * width + width == z * width) by (nonlinear_arith);
        }
        proof {
            assert(source.width * e == width && source.depth * e == depth);
            assert(depth * width == width * depth) by (nonlinear_arith);
            assert(level@ =~= expanded_level(source, e, uy as int));
        }
        levels.push(level);
        y += 1;
    }
    let r = Area { tiles: levels, width, height, depth };
    proof {
        assert forall|l: int| 0 <= l < r@.height implies (#[trigger] r@.tiles[l]).len()
            == r@.level_len() by {
            assert(r@.tiles[l] == levels@[l]@);
        }
        assert forall|x: int, y: int, z: int| r@.in_range(x, y, z) implies #[trigger] r@.tile_at(
            x,
            y,
            z,
        ) == source.tile_at(x / e, y / e, z / e) by {
            assert(r@.tiles[y] == levels@[y]@);
            lemma_tile_index(width as int, depth as int, x, z);
            lemma_fundamental_div_mod_converse(z * width + x, width as int, z, x);
        }
    }
    r
}

/// One level of a map scaled up by `e`, made from level `y` of `source`.
pub open spec fn expanded_level(source: AreaView, e: int, y: int) -> Seq<Tile> {
    let width = source.width * e;
    Seq::new(
        (width * (source.depth * e)) as nat,
        |i: int| source.tile_at(i % width / e, y, i / width / e),
    )
}

/// Appends the tiles of one row's text to a level.
fn push_row(level: &mut Vec<Tile>, row: &str)
    ensures
        final(level)@ == old(level)@ + parse_tiles(row@),
{
    let mut tiles = Area::parse_level(row);
    level.append(&mut tiles);
}

} // verus!
