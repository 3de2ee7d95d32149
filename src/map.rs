//! The tile map of a world: positions, directions and a rectangular grid.

use vstd::prelude::*;

verus! {

/// Kind of a tile outside the map.
pub const TILE_VOID: u8 = 32;

/// Kind of an empty floor tile.
pub const TILE_FLOOR: u8 = 46;

/// Kind of the tile under an alive bot.
pub const TILE_BOT: u8 = 64;

/// Kind of the tile in front of an alive bot.
pub const TILE_BOT_CHEVRON: u8 = 126;

/// A tile: its kind and three bytes whose meaning depends on the kind.
#[derive(Clone, Copy, Debug, PartialEq, Eq)]
pub struct Tile {
    pub kind: u8,
    pub meta: [u8; 3],
}

impl Tile {
    pub open spec fn spec_is_bot(&self) -> bool {
        self.kind == TILE_BOT
    }

    /// Whether an alive bot stands on this tile.
    #[verifier::when_used_as_spec(spec_is_bot)]
    pub fn is_bot(&self) -> (r: bool)
        ensures
            r == self.spec_is_bot(),
    {
        self.kind == TILE_BOT
    }
}

/// A position on the map; x grows to the east, y to the south.
#[derive(Clone, Copy, Debug, PartialEq, Eq, Structural)]
pub struct Pos {
    pub x: i32,
    pub y: i32,
}

/// The direction a bot faces.
#[derive(Clone, Copy, Debug, PartialEq, Eq, Structural)]
pub enum Dir {
    N,
    E,
    S,
    W,
}

pub open spec fn dir_code(d: Dir) -> u8 {
    match d {
        Dir::N => 0,
        Dir::E => 1,
        Dir::S => 2,
        Dir::W => 3,
    }
}

/// The cell next to `p` in direction `d`.
pub open spec fn step_pos(p: Pos, d: Dir) -> Pos {
    match d {
        Dir::N => Pos { x: p.x, y: (p.y - 1) as i32 },
        Dir::E => Pos { x: (p.x + 1) as i32, y: p.y },
        Dir::S => Pos { x: p.x, y: (p.y + 1) as i32 },
        Dir::W => Pos { x: (p.x - 1) as i32, y: p.y },
    }
}

impl Dir {
    /// The direction's number: north 0, east 1, south 2, west 3.
    pub fn code(&self) -> (r: u8)
        ensures
            r == dir_code(*self),
    {
        match self {
            Dir::N => 0,
            Dir::E => 1,
            Dir::S => 2,
            Dir::W => 3,
        }
    }
}

impl Pos {
    /// The cell next to this one in direction `d`.
    pub fn step(&self, d: Dir) -> (r: Pos)
        requires
            i32::MIN < self.x < i32::MAX,
            i32::MIN < self.y < i32::MAX,
        ensures
            r == step_pos(*self, d),
    {
        match d {
            Dir::N => Pos { x: self.x, y: self.y - 1 },
            Dir::E => Pos { x: self.x + 1, y: self.y },
            Dir::S => Pos { x: self.x, y: self.y + 1 },
            Dir::W => Pos { x: self.x - 1, y: self.y },
        }
    }
}

/// The mathematical map: a grid of `width` by `height` tiles, row by row.
pub struct MapView {
    pub width: nat,
    pub height: nat,
    pub tiles: Seq<Tile>,
}

pub open spec fn in_bounds(m: MapView, p: Pos) -> bool {
    0 <= p.x < m.width && 0 <= p.y < m.height
}

pub open spec fn tile_index(m: MapView, p: Pos) -> int {
    p.y * m.width + p.x
}

pub open spec fn void_tile() -> Tile {
    Tile { kind: TILE_VOID, meta: [0u8, 0u8, 0u8] }
}

/// The tile at `p`; outside the map, a void tile.
pub open spec fn map_get(m: MapView, p: Pos) -> Tile {
    if in_bounds(m, p) {
        m.tiles[tile_index(m, p)]
    } else {
        void_tile()
    }
}

/// The map with `t` at `p`; a position outside the map changes nothing.
pub open spec fn map_set(m: MapView, p: Pos, t: Tile) -> MapView {
    if in_bounds(m, p) {
        MapView { tiles: m.tiles.update(tile_index(m, p), t), ..m }
    } else {
        m
    }
}

pub open spec fn map_wf(m: MapView) -> bool {
    m.tiles.len() == m.width * m.height
}

/// A rectangular grid of tiles.
#[derive(Debug)]
pub struct TileMap {
    width: u32,
    height: u32,
    tiles: Vec<Tile>,
}

impl View for TileMap {
    type V = MapView;

    closed spec fn view(&self) -> MapView {
        MapView { width: self.width as nat, height: self.height as nat, tiles: self.tiles@ }
    }
}

proof fn lemma_index_in_range(w: int, h: int, x: int, y: int)
    requires
        0 <= x < w,
        0 <= y < h,
    ensures
        0 <= y * w + x < w * h,
{
    assert(0 <= y * w + x < w * h) by (nonlinear_arith)
        requires
            0 <= x < w,
            0 <= y < h,
    ;
}


proof fn lemma_index_injective(w: int, x1: int, y1: int, x2: int, y2: int)
    requires
        0 <= x1 < w,
        0 <= x2 < w,
        0 <= y1,
        0 <= y2,
        y1 * w + x1 == y2 * w + x2,
    ensures
        x1 == x2 && y1 == y2,
{
    if y1 < y2 {
        assert(y1 * w + w <= y2 * w) by (nonlinear_arith)
            requires
                y1 < y2,
                0 <= w,
        ;
    } else if y2 < y1 {
        assert(y2 * w + w <= y1 * w) by (nonlinear_arith)
            requires
                y2 < y1,
                0 <= w,
        ;
    }
}

/// Reading after a write: the written tile at its position, the old tile
/// elsewhere.
pub proof fn lemma_get_set(m: MapView, p: Pos, t: Tile, q: Pos)
    requires
        map_wf(m),
    ensures
        map_wf(map_set(m, p, t)),
        map_set(m, p, t).width == m.width,
        map_set(m, p, t).height == m.height,
        map_get(map_set(m, p, t), q) == if in_bounds(m, p) && p == q {
            t
        } else {
            map_get(m, q)
        },
{
    if in_bounds(m, p) {
        lemma_index_in_range(m.width as int, m.height as int, p.x as int, p.y as int);
        if in_bounds(m, q) && p != q {
            lemma_index_in_range(m.width as int, m.height as int, q.x as int, q.y as int);
            if tile_index(m, p) == tile_index(m, q) {
                lemma_index_injective(m.width as int, p.x as int, p.y as int, q.x as int, q.y as int);
            }
        }
    }
}

impl TileMap {
    /// The grid holds exactly `width * height` tiles.
    pub open spec fn wf(&self) -> bool {
        map_wf(self@)
    }

    /// A `width` by `height` map filled with `tile`.
    pub fn new(width: u32, height: u32, tile: Tile) -> (r: TileMap)
        requires
            width as int * height as int <= usize::MAX,
        ensures
            r.wf(),
            r@.width == width,
            r@.height == height,
            forall|i: int| 0 <= i < r@.tiles.len() ==> r@.tiles[i] == tile,
    {
        let n = (width as usize) * (height as usize);
        let mut tiles: Vec<Tile> = Vec::new();
        let mut i: usize = 0;
        while i < n
            invariant
                i <= n,
                n == width as int * height as int,
                tiles@.len() == i,
                forall|j: int| 0 <= j < i ==> tiles@[j] == tile,
            decreases n - i,
        {
            tiles.push(tile);
            i = i + 1;
        }
        TileMap { width, height, tiles }
    }

    /// Columns of the map.
    pub fn width(&self) -> (r: u32)
        ensures
            r == self@.width,
    {
        self.width
    }

    /// Rows of the map.
    pub fn height(&self) -> (r: u32)
        ensures
            r == self@.height,
    {
        self.height
    }

    fn index(&self, p: Pos) -> (r: Option<usize>)
        requires
            self.wf(),
        ensures
            match r {
                Some(i) => in_bounds(self@, p) && i == tile_index(self@, p) && i < self@.tiles.len(),
                None => !in_bounds(self@, p),
            },
    {
        if p.x < 0 || p.y < 0 || p.x as u32 >= self.width || p.y as u32 >= self.height {
            return None;
        }
        let x = p.x as usize;
        let y = p.y as usize;
        let len = self.tiles.len();
        assert(y * self.width + x < self.width * self.height) by {
            lemma_index_in_range(self.width as int, self.height as int, x as int, y as int);
        }
        proof {
            lemma_index_in_range(self.width as int, self.height as int, x as int, y as int);
        }
        Some(y * (self.width as usize) + x)
    }

    /// The tile at `p`; outside the map, a void tile.
    pub fn get(&self, p: Pos) -> (r: Tile)
        requires
            self.wf(),
        ensures
            r == map_get(self@, p),
    {
        match self.index(p) {
            Some(i) => self.tiles[i],
            None => Tile { kind: TILE_VOID, meta: [0, 0, 0] },
        }
    }

    /// Puts `t` at `p`; a position outside the map is ignored.
    pub fn set(&mut self, p: Pos, t: Tile)
        requires
            old(self).wf(),
        ensures
            final(self).wf(),
            final(self)@ == map_set(old(self)@, p, t),
    {
        match self.index(p) {
            Some(i) => {
                self.tiles.set(i, t);
            },
            None => {},
        }
    }

    /// The tiles, row by row.
    pub fn tiles(&self) -> (r: &Vec<Tile>)
        ensures
            r@ == self@.tiles,
    {
        &self.tiles
    }

    /// A `width` by `height` map of the given tiles, row by row; `None` if
    /// their number does not match.
    pub fn from_tiles(width: u32, height: u32, tiles: Vec<Tile>) -> (r: Option<TileMap>)
        ensures
            r is Some <==> tiles@.len() == width as int * height as int,
            r matches Some(m) ==> m.wf() && m@ == (MapView {
                width: width as nat,
                height: height as nat,
                tiles: tiles@,
            }),
    {
        assert(width as int * height as int <= u64::MAX) by (nonlinear_arith)
            requires
                width <= u32::MAX,
                height <= u32::MAX,
        ;
        let n = (width as u64).checked_mul(height as u64);
        match n {
            Some(n) => {
                if tiles.len() as u64 == n {
                    Some(TileMap { width, height, tiles })
                } else {
                    None
                }
            },
            None => None,
        }
    }

    /// A copy of the map.
    pub fn copy(&self) -> (r: TileMap)
        ensures
            r@ == self@,
    {
        let mut tiles: Vec<Tile> = Vec::new();
        let mut i: usize = 0;
        while i < self.tiles.len()
            invariant
                i <= self.tiles@.len(),
                tiles@ == self.tiles@.take(i as int),
            decreases self.tiles@.len() - i,
        {
            tiles.push(self.tiles[i]);
            i = i + 1;
            assert(tiles@ =~= self.tiles@.take(i as int));
        }
        assert(tiles@ =~= self.tiles@);
        TileMap { width: self.width, height: self.height, tiles }
    }
}

} // verus!
