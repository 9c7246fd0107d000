//! The tile map: a grid of floor/wall tiles with per-tile fog-of-war flags.

use vstd::prelude::*;
use crate::rect::Rect;

verus! {

/// Width of every generated map, in tiles.
pub const MAP_WIDTH: usize = 80;

/// Height of every generated map, in tiles.
pub const MAP_HEIGHT: usize = 50;

/// The two kinds of tiles. `Floor` is passable and transparent; `Wall` is
/// impassable and blocks sight.
#[derive(Clone, Copy, PartialEq, Eq, Structural, Debug)]
pub enum TileType {
    Floor,
    Wall,
}

/// A rectangular grid of tiles with the accepted room list and the
/// player's fog-of-war state.
///
/// `tiles` has length `width * height` and is indexed by
/// `idx(x, y) = y * width + x`. `revealed_tiles` remembers every tile the
/// player has ever seen; `visible_tiles` holds only the tiles seen on the
/// most recent recompute, and is always a subset of `revealed_tiles`.
pub struct TileMap {
    pub tiles: Vec<TileType>,
    pub rooms: Vec<Rect>,
    pub width: usize,
    pub height: usize,
    pub revealed_tiles: Vec<bool>,
    pub visible_tiles: Vec<bool>,
}

/// A room rectangle sits inside the map with a margin: its carved interior
/// (which excludes the lowest row and column of the rectangle) never touches
/// the outer border row or column.
pub open spec fn room_in_map(r: Rect, width: int, height: int) -> bool {
    &&& 0 <= r.x1
    &&& r.x1 + 2 <= r.x2
    &&& r.x2 + 2 <= width
    &&& 0 <= r.y1
    &&& r.y1 + 2 <= r.y2
    &&& r.y2 + 2 <= height
}

impl TileMap {
    /// Basic shape invariant: positive, bounded dimensions; all three tile
    /// vectors have length `width * height`; currently visible tiles have
    /// been revealed; every accepted room sits inside the map.
    pub open spec fn wf(self) -> bool {
        &&& 0 < self.width <= 4096
        &&& 0 < self.height <= 4096
        &&& self.tiles.len() == self.width * self.height
        &&& self.revealed_tiles.len() == self.tiles.len()
        &&& self.visible_tiles.len() == self.tiles.len()
        &&& forall|i: int|
            0 <= i < self.tiles.len() ==> (self.visible_tiles[i] ==> self.revealed_tiles[i])
        &&& forall|i: int|
            0 <= i < self.rooms.len() ==> room_in_map(
                #[trigger] self.rooms[i],
                self.width as int,
                self.height as int,
            )
    }

    /// Linear index of the coordinate `(x, y)`.
    pub open spec fn spec_idx(self, x: int, y: int) -> int {
        y * self.width + x
    }

    /// The coordinate lies inside the map.
    pub open spec fn spec_in_bounds(self, x: int, y: int) -> bool {
        0 <= x < self.width && 0 <= y < self.height
    }

    /// The tile at an in-bounds coordinate.
    pub open spec fn tile(self, x: int, y: int) -> TileType {
        self.tiles[self.spec_idx(x, y)]
    }

    /// The coordinate is inside the map and holds a floor tile.
    pub open spec fn is_floor_at(self, x: int, y: int) -> bool {
        self.spec_in_bounds(x, y) && self.tile(x, y) == TileType::Floor
    }

    /// The coordinate blocks sight: it is inside the map and holds a wall.
    /// Coordinates outside the map do not block sight.
    pub open spec fn spec_opaque(self, x: int, y: int) -> bool {
        self.spec_in_bounds(x, y) && self.tile(x, y) == TileType::Wall
    }

    /// The visibility flag stored for an in-bounds coordinate.
    pub open spec fn visible_at(self, x: int, y: int) -> bool {
        self.visible_tiles[self.spec_idx(x, y)]
    }

    /// The reveal flag stored for an in-bounds coordinate.
    pub open spec fn revealed_at(self, x: int, y: int) -> bool {
        self.revealed_tiles[self.spec_idx(x, y)]
    }

    /// Linearize a coordinate into an index into the tile vectors.
    pub fn xy_idx(&self, x: i32, y: i32) -> (idx: usize)
        requires
            self.wf(),
            self.spec_in_bounds(x as int, y as int),
        ensures
            idx == self.spec_idx(x as int, y as int),
            idx < self.tiles.len(),
    {
        proof {
            lemma_idx_in_range(self.width as int, self.height as int, x as int, y as int);
        }
        (y as usize) * self.width + (x as usize)
    }

    /// The map's width and height.
    pub fn dimensions(&self) -> (d: (usize, usize))
        ensures
            d.0 == self.width,
            d.1 == self.height,
    {
        (self.width, self.height)
    }

    /// Decide whether a coordinate lies inside the map.
    pub fn in_bounds(&self, x: i32, y: i32) -> (b: bool)
        ensures
            b == self.spec_in_bounds(x as int, y as int),
    {
        x >= 0 && (x as usize) < self.width && y >= 0 && (y as usize) < self.height
    }

    /// The tile at a coordinate, or `None` when the coordinate lies outside
    /// the map.
    pub fn tile_at(&self, x: i32, y: i32) -> (t: Option<TileType>)
        requires
            self.wf(),
        ensures
            self.spec_in_bounds(x as int, y as int) ==> t == Some(
                self.tile(x as int, y as int),
            ),
            !self.spec_in_bounds(x as int, y as int) ==> t is None,
    {
        if self.in_bounds(x, y) {
            let idx = self.xy_idx(x, y);
            Some(self.tiles[idx])
        } else {
            None
        }
    }

    /// Whether the player has ever seen the tile, or `None` outside the map.
    pub fn is_revealed(&self, x: i32, y: i32) -> (r: Option<bool>)
        requires
            self.wf(),
        ensures
            self.spec_in_bounds(x as int, y as int) ==> r == Some(
                self.revealed_at(x as int, y as int),
            ),
            !self.spec_in_bounds(x as int, y as int) ==> r is None,
    {
        if self.in_bounds(x, y) {
            let idx = self.xy_idx(x, y);
            Some(self.revealed_tiles[idx])
        } else {
            None
        }
    }

    /// Whether the player currently sees the tile, or `None` outside the map.
    pub fn is_visible(&self, x: i32, y: i32) -> (r: Option<bool>)
        requires
            self.wf(),
        ensures
            self.spec_in_bounds(x as int, y as int) ==> r == Some(
                self.visible_at(x as int, y as int),
            ),
            !self.spec_in_bounds(x as int, y as int) ==> r is None,
    {
        if self.in_bounds(x, y) {
            let idx = self.xy_idx(x, y);
            Some(self.visible_tiles[idx])
        } else {
            None
        }
    }

    /// A linear index holds a sight-blocking tile.
    pub fn is_opaque(&self, idx: usize) -> (b: bool)
        requires
            idx < self.tiles.len(),
        ensures
            b == (self.tiles[idx as int] == TileType::Wall),
    {
        self.tiles[idx] == TileType::Wall
    }

    /// Overwrite the tile at an in-bounds coordinate, leaving every other
    /// tile and every other field of the map unchanged.
    pub(crate) fn set_tile(&mut self, x: i32, y: i32, t: TileType)
        requires
            old(self).wf(),
            old(self).spec_in_bounds(x as int, y as int),
        ensures
            final(self).wf(),
            final(self).width == old(self).width,
            final(self).height == old(self).height,
            final(self).rooms == old(self).rooms,
            final(self).revealed_tiles == old(self).revealed_tiles,
            final(self).visible_tiles == old(self).visible_tiles,
            final(self).tiles.len() == old(self).tiles.len(),
            forall|a: int, b: int|
                old(self).spec_in_bounds(a, b) ==> final(self).tile(a, b) == (if a == x as int && b
                    == y as int {
                    t
                } else {
                    old(self).tile(a, b)
                }),
    {
        let idx = self.xy_idx(x, y);
        self.tiles[idx] = t;
        proof {
            assert forall|a: int, b: int| old(self).spec_in_bounds(a, b) implies self.tile(a, b)
                == (if a == x as int && b == y as int {
                t
            } else {
                old(self).tile(a, b)
            }) by {
                lemma_idx_in_range(self.width as int, self.height as int, a, b);
                if a != x as int || b != y as int {
                    lemma_idx_injective(
                        self.width as int,
                        self.height as int,
                        a,
                        b,
                        x as int,
                        y as int,
                    );
                }
            }
        }
    }
}

impl TileMap {
    /// Carve a room: every tile of the room's interior (the rectangle minus
    /// its lowest row and column) becomes floor; no other tile changes.
    pub(crate) fn apply_room_to_map(&mut self, room: &Rect)
        requires
            old(self).wf(),
            room_in_map(*room, old(self).width as int, old(self).height as int),
        ensures
            final(self).wf(),
            final(self).width == old(self).width,
            final(self).height == old(self).height,
            final(self).rooms == old(self).rooms,
            final(self).revealed_tiles == old(self).revealed_tiles,
            final(self).visible_tiles == old(self).visible_tiles,
            final(self).tiles.len() == old(self).tiles.len(),
            forall|a: int, b: int|
                old(self).spec_in_bounds(a, b) ==> final(self).tile(a, b) == (if room.in_interior(
                    a,
                    b,
                ) {
                    TileType::Floor
                } else {
                    old(self).tile(a, b)
                }),
    {
        let ghost m0: TileMap = *self;
        let mut y = room.y1 + 1;
        while y <= room.y2
            invariant
                m0.wf(),
                room_in_map(*room, m0.width as int, m0.height as int),
                room.y1 + 1 <= y <= room.y2 + 1,
                self.wf(),
                self.width == m0.width,
                self.height == m0.height,
                self.rooms == m0.rooms,
                self.revealed_tiles == m0.revealed_tiles,
                self.visible_tiles == m0.visible_tiles,
                self.tiles.len() == m0.tiles.len(),
                forall|a: int, b: int|
                    m0.spec_in_bounds(a, b) ==> self.tile(a, b) == (if room.in_interior(a, b) && b
                        < y {
                        TileType::Floor
                    } else {
                        m0.tile(a, b)
                    }),
            decreases room.y2 + 1 - y,
        {
            let mut x = room.x1 + 1;
            while x <= room.x2
                invariant
                    m0.wf(),
                    room_in_map(*room, m0.width as int, m0.height as int),
                    room.y1 + 1 <= y <= room.y2,
                    room.x1 + 1 <= x <= room.x2 + 1,
                    self.wf(),
                    self.width == m0.width,
                    self.height == m0.height,
                    self.rooms == m0.rooms,
                    self.revealed_tiles == m0.revealed_tiles,
                    self.visible_tiles == m0.visible_tiles,
                    self.tiles.len() == m0.tiles.len(),
                    forall|a: int, b: int|
                        m0.spec_in_bounds(a, b) ==> self.tile(a, b) == (if room.in_interior(a, b)
                            && (b < y || (b == y && a < x)) {
                            TileType::Floor
                        } else {
                            m0.tile(a, b)
                        }),
                decreases room.x2 + 1 - x,
            {
                self.set_tile(x, y, TileType::Floor);
                x = x + 1;
            }
            y = y + 1;
        }
    }

    /// Carve a horizontal corridor along row `y` between columns `x1` and
    /// `x2` (in either order). Writes are clipped to the map: exactly the
    /// in-bounds tiles of the run become floor, and nothing else changes.
    pub(crate) fn apply_horizontal_tunnel(&mut self, x1: i32, x2: i32, y: i32)
        requires
            old(self).wf(),
            x1 < i32::MAX,
            x2 < i32::MAX,
        ensures
            final(self).wf(),
            final(self).width == old(self).width,
            final(self).height == old(self).height,
            final(self).rooms == old(self).rooms,
            final(self).revealed_tiles == old(self).revealed_tiles,
            final(self).visible_tiles == old(self).visible_tiles,
            final(self).tiles.len() == old(self).tiles.len(),
            forall|a: int, b: int|
                old(self).spec_in_bounds(a, b) ==> final(self).tile(a, b) == (if b == y as int
                    && min_int(x1 as int, x2 as int) <= a <= max_int(x1 as int, x2 as int) {
                    TileType::Floor
                } else {
                    old(self).tile(a, b)
                }),
    {
        let ghost m0: TileMap = *self;
        let lo: i32 = if x1 < x2 { x1 } else { x2 };
        let hi: i32 = if x1 < x2 { x2 } else { x1 };
        let mut x = lo;
        while x <= hi
            invariant
                m0.wf(),
                lo == min_int(x1 as int, x2 as int),
                hi == max_int(x1 as int, x2 as int),
                hi < i32::MAX,
                lo <= x <= hi + 1,
                self.wf(),
                self.width == m0.width,
                self.height == m0.height,
                self.rooms == m0.rooms,
                self.revealed_tiles == m0.revealed_tiles,
                self.visible_tiles == m0.visible_tiles,
                self.tiles.len() == m0.tiles.len(),
                forall|a: int, b: int|
                    m0.spec_in_bounds(a, b) ==> self.tile(a, b) == (if b == y as int && lo <= a
                        < x {
                        TileType::Floor
                    } else {
                        m0.tile(a, b)
                    }),
            decreases hi + 1 - x,
        {
            if self.in_bounds(x, y) {
                self.set_tile(x, y, TileType::Floor);
            }
            x = x + 1;
        }
    }

    /// Carve a vertical corridor along column `x` between rows `y1` and
    /// `y2` (in either order), clipped to the map as the horizontal one is.
    pub(crate) fn apply_vertical_tunnel(&mut self, y1: i32, y2: i32, x: i32)
        requires
            old(self).wf(),
            y1 < i32::MAX,
            y2 < i32::MAX,
        ensures
            final(self).wf(),
            final(self).width == old(self).width,
            final(self).height == old(self).height,
            final(self).rooms == old(self).rooms,
            final(self).revealed_tiles == old(self).revealed_tiles,
            final(self).visible_tiles == old(self).visible_tiles,
            final(self).tiles.len() == old(self).tiles.len(),
            forall|a: int, b: int|
                old(self).spec_in_bounds(a, b) ==> final(self).tile(a, b) == (if a == x as int
                    && min_int(y1 as int, y2 as int) <= b <= max_int(y1 as int, y2 as int) {
                    TileType::Floor
                } else {
                    old(self).tile(a, b)
                }),
    {
        let ghost m0: TileMap = *self;
        let lo: i32 = if y1 < y2 { y1 } else { y2 };
        let hi: i32 = if y1 < y2 { y2 } else { y1 };
        let mut y = lo;
        while y <= hi
            invariant
                m0.wf(),
                lo == min_int(y1 as int, y2 as int),
                hi == max_int(y1 as int, y2 as int),
                hi < i32::MAX,
                lo <= y <= hi + 1,
                self.wf(),
                self.width == m0.width,
                self.height == m0.height,
                self.rooms == m0.rooms,
                self.revealed_tiles == m0.revealed_tiles,
                self.visible_tiles == m0.visible_tiles,
                self.tiles.len() == m0.tiles.len(),
                forall|a: int, b: int|
                    m0.spec_in_bounds(a, b) ==> self.tile(a, b) == (if a == x as int && lo <= b
                        < y {
                        TileType::Floor
                    } else {
                        m0.tile(a, b)
                    }),
            decreases hi + 1 - y,
        {
            if self.in_bounds(x, y) {
                self.set_tile(x, y, TileType::Floor);
            }
            y = y + 1;
        }
    }
}

/// A vector of `n` copies of `t`.
pub(crate) fn filled<T: Copy>(n: usize, t: T) -> (v: Vec<T>)
    ensures
        v.len() == n,
        forall|i: int| 0 <= i < n ==> v[i] == t,
{
    let mut v: Vec<T> = Vec::new();
    let mut i: usize = 0;
    while i < n
        invariant
            i <= n,
            v.len() == i,
            forall|j: int| 0 <= j < i ==> v[j] == t,
        decreases n - i,
    {
        v.push(t);
        i = i + 1;
    }
    v
}

impl TileMap {
    /// Build a test map: floor everywhere, solid walls around the border,
    /// and a few hundred walls thrown in at random, sparing the centre
    /// tile. No rooms are recorded and nothing is revealed yet.
    pub fn new_map_test() -> (map: TileMap)
        ensures
            map.wf(),
            map.width == MAP_WIDTH,
            map.height == MAP_HEIGHT,
            map.rooms.len() == 0,
            forall|x: int, y: int|
                map.spec_in_bounds(x, y) && (x == 0 || x == map.width - 1 || y == 0 || y
                    == map.height - 1) ==> map.tile(x, y) == TileType::Wall,
            map.tile(40, 25) == TileType::Floor,
            forall|i: int|
                0 <= i < map.tiles.len() ==> !map.revealed_tiles[i] && !map.visible_tiles[i],
    {
        let mut map = TileMap {
            tiles: filled(MAP_WIDTH * MAP_HEIGHT, TileType::Floor),
            rooms: Vec::new(),
            width: MAP_WIDTH,
            height: MAP_HEIGHT,
            revealed_tiles: filled(MAP_WIDTH * MAP_HEIGHT, false),
            visible_tiles: filled(MAP_WIDTH * MAP_HEIGHT, false),
        };
        let mut x: i32 = 0;
        while x < 80
            invariant
                0 <= x <= 80,
                map.wf(),
                map.width == MAP_WIDTH,
                map.height == MAP_HEIGHT,
                map.rooms.len() == 0,
                forall|a: int, b: int|
                    map.spec_in_bounds(a, b) ==> map.tile(a, b) == (if (b == 0 || b == 49) && a
                        < x {
                        TileType::Wall
                    } else {
                        TileType::Floor
                    }),
                forall|i: int|
                    0 <= i < map.tiles.len() ==> !map.revealed_tiles[i] && !map.visible_tiles[i],
            decreases 80 - x,
        {
            map.set_tile(x, 0, TileType::Wall);
            map.set_tile(x, 49, TileType::Wall);
            x = x + 1;
        }
        let mut y: i32 = 0;
        while y < 50
            invariant
                0 <= y <= 50,
                map.wf(),
                map.width == MAP_WIDTH,
                map.height == MAP_HEIGHT,
                map.rooms.len() == 0,
                forall|a: int, b: int|
                    map.spec_in_bounds(a, b) ==> map.tile(a, b) == (if b == 0 || b == 49 || ((a == 0
                        || a == 79) && b < y) {
                        TileType::Wall
                    } else {
                        TileType::Floor
                    }),
                forall|i: int|
                    0 <= i < map.tiles.len() ==> !map.revealed_tiles[i] && !map.visible_tiles[i],
            decreases 50 - y,
        {
            map.set_tile(0, y, TileType::Wall);
            map.set_tile(79, y, TileType::Wall);
            y = y + 1;
        }
        let mut rng = crate::rng::rng_new();
        let mut i: usize = 0;
        while i < 400
            invariant
                map.wf(),
                map.width == MAP_WIDTH,
                map.height == MAP_HEIGHT,
                map.rooms.len() == 0,
                forall|a: int, b: int|
                    map.spec_in_bounds(a, b) && (a == 0 || a == 79 || b == 0 || b == 49)
                        ==> map.tile(a, b) == TileType::Wall,
                map.tile(40, 25) == TileType::Floor,
                forall|j: int|
                    0 <= j < map.tiles.len() ==> !map.revealed_tiles[j] && !map.visible_tiles[j],
            decreases 400 - i,
        {
            let wx = crate::rng::rng_roll_dice(&mut rng, 1, 79);
            let wy = crate::rng::rng_roll_dice(&mut rng, 1, 49);
            let idx = map.xy_idx(wx, wy);
            let centre = map.xy_idx(40, 25);
            if idx != centre {
                map.set_tile(wx, wy, TileType::Wall);
            }
            i = i + 1;
        }
        map
    }
}

/// The smaller of two integers.
pub open spec fn min_int(a: int, b: int) -> int {
    if a < b {
        a
    } else {
        b
    }
}

/// The larger of two integers.
pub open spec fn max_int(a: int, b: int) -> int {
    if a < b {
        b
    } else {
        a
    }
}

/// An in-bounds coordinate linearizes to an index inside the grid.
pub proof fn lemma_idx_in_range(w: int, h: int, x: int, y: int)
    by (nonlinear_arith)
    requires
        0 < w,
        0 < h,
        0 <= x < w,
        0 <= y < h,
    ensures
        0 <= y * w + x < w * h,
{
}

/// Row-major order: an earlier coordinate linearizes to a smaller index.
pub proof fn lemma_idx_ordered(w: int, a: int, b: int, x: int, y: int)
    by (nonlinear_arith)
    requires
        0 < w,
        0 <= a < w,
        0 <= x <= w,
        0 <= b,
        0 <= y,
        b < y || (b == y && a < x),
    ensures
        0 <= b * w + a < y * w + x,
{
}

/// Distinct in-bounds coordinates linearize to distinct indices.
pub proof fn lemma_idx_injective(w: int, h: int, x1: int, y1: int, x2: int, y2: int)
    by (nonlinear_arith)
    requires
        0 < w,
        0 < h,
        0 <= x1 < w,
        0 <= y1 < h,
        0 <= x2 < w,
        0 <= y2 < h,
        x1 != x2 || y1 != y2,
    ensures
        y1 * w + x1 != y2 * w + x2,
{
}

} // verus!
