use vstd::prelude::*;

verus! {

/// Width of the map in tiles.
pub const MAP_W: i32 = 60;
/// Height of the map in tiles.
pub const MAP_H: i32 = 60;

/// The terrain of one tile.
#[derive(Clone, Copy, PartialEq, Eq, Structural, Debug)]
pub enum Tile {
    Grass,
    DarkGrass,
    Wall,
    Water,
    Sand,
    Forest,
    Road,
}

impl Tile {
    /// Whether units can stand on and cross this terrain.
    pub open spec fn is_walkable(self) -> bool {
        match self {
            Tile::Grass | Tile::DarkGrass | Tile::Sand | Tile::Road => true,
            Tile::Wall | Tile::Water | Tile::Forest => false,
        }
    }

    /// The cost of stepping onto this terrain.
    pub open spec fn cost(self) -> int {
        match self {
            Tile::Road => 1,
            Tile::Grass | Tile::DarkGrass => 2,
            Tile::Sand => 3,
            _ => 999,
        }
    }

    /// Whether units can stand on and cross this terrain: grass, dark grass,
    /// sand and road can be crossed; walls, water and forest cannot.
    pub fn walkable(&self) -> (r: bool)
        ensures
            r == self.is_walkable(),
    {
        match self {
            Tile::Grass | Tile::DarkGrass | Tile::Sand | Tile::Road => true,
            Tile::Wall | Tile::Water | Tile::Forest => false,
        }
    }

    /// The cost of stepping onto this terrain: 1 on road, 2 on grass, 3 on
    /// sand, 999 on impassable terrain.
    pub fn move_cost(&self) -> (c: i32)
        ensures
            c == self.cost(),
    {
        match self {
            Tile::Road => 1,
            Tile::Grass | Tile::DarkGrass => 2,
            Tile::Sand => 3,
            _ => 999,
        }
    }
}


/// Whether `(x, y)` lies on the map.
pub open spec fn in_map(x: int, y: int) -> bool {
    0 <= x < MAP_W && 0 <= y < MAP_H
}

/// The position in the row-major tile vector of the tile at `(x, y)`.
pub open spec fn tile_index(x: int, y: int) -> int {
    y * MAP_W + x
}

/// The tile at `(x, y)` of a row-major tile sequence.
pub open spec fn cell(tiles: Seq<Tile>, x: int, y: int) -> Tile {
    tiles[tile_index(x, y)]
}

/// Whether `(x, y)` lies in the rectangle with corner `(ox, oy)`, width `w` and height `h`.
pub open spec fn in_rect(x: int, y: int, ox: int, oy: int, w: int, h: int) -> bool {
    ox <= x < ox + w && oy <= y < oy + h
}

/// The dark grass patches of the map.
pub open spec fn in_dark_patch(x: int, y: int) -> bool {
    ||| in_rect(x, y, 5, 5, 8, 8)
    ||| in_rect(x, y, 30, 2, 8, 5)
    ||| in_rect(x, y, 45, 15, 6, 6)
    ||| in_rect(x, y, 20, 35, 10, 8)
    ||| in_rect(x, y, 50, 40, 8, 10)
    ||| in_rect(x, y, 2, 45, 7, 7)
}

/// The walls of the map: a horizontal barrier, a vertical wall and an L-shaped wall.
pub open spec fn on_wall(x: int, y: int) -> bool {
    ||| in_rect(x, y, 10, 15, 10, 1)
    ||| in_rect(x, y, 25, 5, 1, 20)
    ||| in_rect(x, y, 35, 25, 13, 1)
    ||| in_rect(x, y, 35, 25, 1, 13)
}

/// The lake.
pub open spec fn in_lake(x: int, y: int) -> bool {
    in_rect(x, y, 38, 5, 10, 6)
}

/// The band around the lake where grass turns to sand.
pub open spec fn in_beach(x: int, y: int) -> bool {
    in_rect(x, y, 36, 3, 13, 9)
}

/// The forest clusters.
pub open spec fn in_forest(x: int, y: int) -> bool {
    ||| (5 <= x <= 8 && 30 <= y <= 31)
    ||| ((x == 5 || x == 6) && y == 32)
    ||| (15 <= x <= 17 && y == 40)
    ||| ((x == 15 || x == 16) && y == 41)
}

/// The terrain after the patches, walls and lake are laid down.
pub open spec fn base_layer(x: int, y: int) -> Tile {
    if in_lake(x, y) {
        Tile::Water
    } else if on_wall(x, y) {
        Tile::Wall
    } else if in_dark_patch(x, y) {
        Tile::DarkGrass
    } else {
        Tile::Grass
    }
}

/// The terrain after the beach and the forests are added.
pub open spec fn nature_layer(x: int, y: int) -> Tile {
    if in_forest(x, y) {
        Tile::Forest
    } else if in_beach(x, y) && base_layer(x, y) == Tile::Grass {
        Tile::Sand
    } else {
        base_layer(x, y)
    }
}

/// The terrain of the map at `(x, y)`: roads run along row 8 and column 3
/// wherever plain grass lies under them.
pub open spec fn layout_tile(x: int, y: int) -> Tile {
    if (y == 8 || x == 3) && nature_layer(x, y) == Tile::Grass {
        Tile::Road
    } else {
        nature_layer(x, y)
    }
}

/// The map: a row-major grid of `MAP_W * MAP_H` tiles.
pub struct TileMap {
    pub tiles: Vec<Tile>,
    pub width: i32,
    pub height: i32,
}

/// What painting `t` over `old` gives, where it is covered and, if `only_over`
/// names a tile, only where that tile lies.
spec fn painted(old: Tile, covered: bool, t: Tile, only_over: Option<Tile>) -> Tile {
    if covered && (only_over is None || only_over == Some(old)) {
        t
    } else {
        old
    }
}

/// Paints `t` over the in-map part of a rectangle, optionally only over tiles
/// that are `only_over`.
fn paint_rect(tiles: &mut Vec<Tile>, ox: i32, oy: i32, w: i32, h: i32, t: Tile, only_over: Option<Tile>)
    requires
        old(tiles).len() == MAP_W * MAP_H,
        0 <= w <= 100,
        0 <= h <= 100,
        -100 <= ox <= 100,
        -100 <= oy <= 100,
    ensures
        final(tiles).len() == MAP_W * MAP_H,
        forall|x: int, y: int|
            in_map(x, y) ==> #[trigger] cell(final(tiles)@, x, y) == painted(
                cell(old(tiles)@, x, y),
                in_rect(x, y, ox as int, oy as int, w as int, h as int),
                t,
                only_over,
            ),
{
    let ghost orig = tiles@;
    let mut dy: i32 = 0;
    while dy < h
        invariant
            0 <= dy <= h <= 100,
            0 <= w <= 100,
            -100 <= ox <= 100,
            -100 <= oy <= 100,
            tiles.len() == MAP_W * MAP_H,
            forall|x: int, y: int|
                in_map(x, y) ==> #[trigger] cell(tiles@, x, y) == painted(
                    cell(orig, x, y),
                    in_rect(x, y, ox as int, oy as int, w as int, dy as int),
                    t,
                    only_over,
                ),
        decreases h - dy,
    {
        let mut dx: i32 = 0;
        while dx < w
            invariant
                0 <= dy < h <= 100,
                0 <= dx <= w <= 100,
                -100 <= ox <= 100,
                -100 <= oy <= 100,
                tiles.len() == MAP_W * MAP_H,
                forall|x: int, y: int|
                    in_map(x, y) ==> #[trigger] cell(tiles@, x, y) == painted(
                        cell(orig, x, y),
                        in_rect(x, y, ox as int, oy as int, w as int, dy as int) || (y == oy + dy
                            && ox <= x < ox + dx),
                        t,
                        only_over,
                    ),
            decreases w - dx,
        {
            let x = ox + dx;
            let y = oy + dy;
            let ghost before = tiles@;
            if TileMap::in_bounds(x, y) {
                let i = TileMap::idx(x, y);
                assert(cell(tiles@, x as int, y as int) == cell(orig, x as int, y as int));
                let cur = tiles[i];
                let paint = match only_over {
                    None => true,
                    Some(o) => cur == o,
                };
                if paint {
                    tiles[i] = t;
                }
                assert(cell(tiles@, x as int, y as int) == painted(cell(orig, x as int, y as int), true, t, only_over));
            }
            assert forall|x2: int, y2: int| in_map(x2, y2) implies #[trigger] cell(tiles@, x2, y2) == painted(
                    cell(orig, x2, y2),
                    in_rect(x2, y2, ox as int, oy as int, w as int, dy as int) || (y2 == oy + dy
                        && ox <= x2 < ox + dx + 1),
                    t,
                    only_over,
                ) by {
                assert(cell(before, x2, y2) == painted(
                    cell(orig, x2, y2),
                    in_rect(x2, y2, ox as int, oy as int, w as int, dy as int) || (y2 == oy + dy
                        && ox <= x2 < ox + dx),
                    t,
                    only_over,
                ));
                if x2 == x && y2 == y {
                } else if in_map(x as int, y as int) {
                    assert(tile_index(x2, y2) != tile_index(x as int, y as int)) by (nonlinear_arith)
                        requires
                            in_map(x2, y2),
                            in_map(x as int, y as int),
                            x2 != x || y2 != y;
                }
            }
            dx = dx + 1;
        }
        dy = dy + 1;
    }
}

impl TileMap {
    /// The map holds a tile for every position of the `MAP_W` by `MAP_H` grid.
    pub open spec fn wf(&self) -> bool {
        self.tiles.len() >= MAP_W * MAP_H
    }

    /// The tile at `(x, y)`.
    pub open spec fn tile_at(&self, x: int, y: int) -> Tile {
        cell(self.tiles@, x, y)
    }

    /// Whether `(x, y)` is on the map and walkable.
    pub open spec fn walkable_at(&self, x: int, y: int) -> bool {
        in_map(x, y) && self.tile_at(x, y).is_walkable()
    }

    /// Builds the game map: grass with dark patches, walls, a lake with its
    /// beach, two forests and two roads.
    pub fn new() -> (m: Self)
        ensures
            m.wf(),
            m.tiles.len() == MAP_W * MAP_H,
            m.tiles.len() == 3600,
            m.width == MAP_W,
            m.height == MAP_H,
            forall|x: int, y: int| in_map(x, y) ==> #[trigger] m.tile_at(x, y) == layout_tile(x, y),
            forall|y: int| 5 <= y < 25 ==> #[trigger] m.tile_at(25, y) == Tile::Wall,
            forall|x: int| 10 <= x < 20 ==> #[trigger] m.tile_at(x, 15) == Tile::Wall,
            forall|x: int| 35 <= x < 48 ==> #[trigger] m.tile_at(x, 25) == Tile::Wall,
            forall|y: int| 25 <= y < 38 ==> #[trigger] m.tile_at(35, y) == Tile::Wall,
            forall|x: int, y: int| 38 <= x < 48 && 5 <= y < 11 ==> #[trigger] m.tile_at(x, y) == Tile::Water,
    {
        let mut tiles: Vec<Tile> = Vec::new();
        let mut k: usize = 0;
        while k < 3600
            invariant
                k <= 3600,
                tiles.len() == k,
                forall|i: int| 0 <= i < k ==> tiles@[i] == Tile::Grass,
            decreases 3600 - k,
        {
            tiles.push(Tile::Grass);
            k = k + 1;
        }
        assert(forall|x: int, y: int| in_map(x, y) ==> #[trigger] cell(tiles@, x, y) == Tile::Grass);

        // Dark grass patches
        paint_rect(&mut tiles, 5, 5, 8, 8, Tile::DarkGrass, None);
        paint_rect(&mut tiles, 30, 2, 8, 5, Tile::DarkGrass, None);
        paint_rect(&mut tiles, 45, 15, 6, 6, Tile::DarkGrass, None);
        paint_rect(&mut tiles, 20, 35, 10, 8, Tile::DarkGrass, None);
        paint_rect(&mut tiles, 50, 40, 8, 10, Tile::DarkGrass, None);
        paint_rect(&mut tiles, 2, 45, 7, 7, Tile::DarkGrass, None);
        assert(forall|x: int, y: int| in_map(x, y) ==> #[trigger] cell(tiles@, x, y)
            == if in_dark_patch(x, y) { Tile::DarkGrass } else { Tile::Grass });

        // Walls
        paint_rect(&mut tiles, 10, 15, 10, 1, Tile::Wall, None);
        paint_rect(&mut tiles, 25, 5, 1, 20, Tile::Wall, None);
        paint_rect(&mut tiles, 35, 25, 13, 1, Tile::Wall, None);
        paint_rect(&mut tiles, 35, 25, 1, 13, Tile::Wall, None);
        // Lake
        paint_rect(&mut tiles, 38, 5, 10, 6, Tile::Water, None);
        assert(forall|x: int, y: int| in_map(x, y) ==> #[trigger] cell(tiles@, x, y) == base_layer(x, y));

        // Beach around the lake
        paint_rect(&mut tiles, 36, 3, 13, 9, Tile::Sand, Some(Tile::Grass));
        // Forests
        paint_rect(&mut tiles, 5, 30, 4, 2, Tile::Forest, None);
        paint_rect(&mut tiles, 5, 32, 2, 1, Tile::Forest, None);
        paint_rect(&mut tiles, 15, 40, 3, 1, Tile::Forest, None);
        paint_rect(&mut tiles, 15, 41, 2, 1, Tile::Forest, None);
        assert(forall|x: int, y: int| in_map(x, y) ==> #[trigger] cell(tiles@, x, y) == nature_layer(x, y));

        // Roads
        paint_rect(&mut tiles, 0, 8, MAP_W, 1, Tile::Road, Some(Tile::Grass));
        paint_rect(&mut tiles, 3, 0, 1, MAP_H, Tile::Road, Some(Tile::Grass));

        proof {
            lemma_map_landmarks();
        }
        TileMap { tiles, width: MAP_W, height: MAP_H }
    }

    /// The position in `tiles` of the tile at `(x, y)`.
    pub fn idx(x: i32, y: i32) -> (i: usize)
        requires
            i32::MIN <= y * MAP_W <= i32::MAX,
            i32::MIN <= y * MAP_W + x <= i32::MAX,
        ensures
            i == (y * MAP_W + x) as usize,
            in_map(x as int, y as int) ==> i as int == tile_index(x as int, y as int) && i < MAP_W * MAP_H,
    {
        (y * MAP_W + x) as usize
    }

    /// Whether `(x, y)` lies on the map.
    pub fn in_bounds(x: i32, y: i32) -> (r: bool)
        ensures
            r == in_map(x as int, y as int),
    {
        x >= 0 && y >= 0 && x < MAP_W && y < MAP_H
    }

    /// Whether `(x, y)` lies on the map on walkable terrain.
    pub fn walkable(&self, x: i32, y: i32) -> (r: bool)
        requires
            in_map(x as int, y as int) ==> self.wf(),
        ensures
            r == self.walkable_at(x as int, y as int),
    {
        Self::in_bounds(x, y) && self.tiles[Self::idx(x, y)].walkable()
    }

    /// The tile at `(x, y)`, or `None` off the map.
    pub fn get_tile(&self, x: i32, y: i32) -> (r: Option<Tile>)
        requires
            in_map(x as int, y as int) ==> self.wf(),
        ensures
            r == (if in_map(x as int, y as int) { Some(self.tile_at(x as int, y as int)) } else { None }),
    {
        if Self::in_bounds(x, y) {
            Some(self.tiles[Self::idx(x, y)])
        } else {
            None
        }
    }
}


/// A tile is walkable exactly when stepping onto it has a finite cost, and
/// walkable terrain costs between 1 (road) and 3 (sand).
pub proof fn lemma_walkable_iff_finite_cost(t: Tile)
    ensures
        t.is_walkable() <==> t.cost() < 999,
        t.is_walkable() ==> 1 <= t.cost() <= 3,
{
}

/// The landmarks of the game map, each given by its own coordinates: the
/// horizontal wall on row 15 from x = 10 to 19, the vertical wall on column
/// 25 from y = 5 to 24, the L-shaped wall along row 25 from x = 35 to 47 and
/// column 35 from y = 25 to 37, the lake over x = 38..47, y = 5..10, the sand
/// beach round it (but for the dark grass in its north-west corner), the
/// fifteen forest tiles, the six dark grass patches, and the roads along
/// row 8 and column 3 wherever they cross open grass.
pub proof fn lemma_map_landmarks()
    ensures
        forall|x: int| 10 <= x < 20 ==> #[trigger] layout_tile(x, 15) == Tile::Wall,
        forall|y: int| 5 <= y < 25 ==> #[trigger] layout_tile(25, y) == Tile::Wall,
        forall|x: int| 35 <= x < 48 ==> #[trigger] layout_tile(x, 25) == Tile::Wall,
        forall|y: int| 25 <= y < 38 ==> #[trigger] layout_tile(35, y) == Tile::Wall,
        forall|x: int, y: int| 38 <= x < 48 && 5 <= y < 11 ==> #[trigger] layout_tile(x, y) == Tile::Water,
        forall|x: int, y: int|
            36 <= x < 49 && 3 <= y < 12 && !(38 <= x < 48 && 5 <= y < 11) && !(x < 38 && y < 7)
                ==> #[trigger] layout_tile(x, y) == Tile::Sand,
        forall|x: int, y: int|
            (5 <= x < 13 && 5 <= y < 13) || (30 <= x < 38 && 2 <= y < 7) || (45 <= x < 51 && 15 <= y < 21)
                || (20 <= x < 30 && 35 <= y < 43) || (50 <= x < 58 && 40 <= y < 50) || (2 <= x < 9 && 45
                <= y < 52) ==> #[trigger] layout_tile(x, y) == Tile::DarkGrass,
        layout_tile(5, 30) == Tile::Forest && layout_tile(6, 30) == Tile::Forest && layout_tile(7, 30)
            == Tile::Forest && layout_tile(8, 30) == Tile::Forest,
        layout_tile(5, 31) == Tile::Forest && layout_tile(6, 31) == Tile::Forest && layout_tile(7, 31)
            == Tile::Forest && layout_tile(8, 31) == Tile::Forest,
        layout_tile(5, 32) == Tile::Forest && layout_tile(6, 32) == Tile::Forest,
        layout_tile(15, 40) == Tile::Forest && layout_tile(16, 40) == Tile::Forest && layout_tile(17, 40)
            == Tile::Forest && layout_tile(15, 41) == Tile::Forest && layout_tile(16, 41) == Tile::Forest,
        forall|x: int| (0 <= x < 5 || 13 <= x < 25 || 26 <= x < 36 || 49 <= x < 60) ==> #[trigger] layout_tile(x, 8)
            == Tile::Road,
        forall|y: int| (0 <= y < 45 || 52 <= y < 60) ==> #[trigger] layout_tile(3, y) == Tile::Road,
{
}

/// The terrains and what they cost: road 1, grass and dark grass 2, sand 3,
/// all of them walkable; walls, water and forest cannot be walked on.
pub proof fn lemma_terrain_costs()
    ensures
        Tile::Road.is_walkable() && Tile::Road.cost() == 1,
        Tile::Grass.is_walkable() && Tile::Grass.cost() == 2,
        Tile::DarkGrass.is_walkable() && Tile::DarkGrass.cost() == 2,
        Tile::Sand.is_walkable() && Tile::Sand.cost() == 3,
        !Tile::Wall.is_walkable(),
        !Tile::Water.is_walkable(),
        !Tile::Forest.is_walkable(),
{
}

/// Road is the fastest terrain: stepping onto road costs less than stepping
/// onto any other terrain.
pub proof fn lemma_road_fastest(t: Tile)
    requires
        t != Tile::Road,
    ensures
        Tile::Road.cost() < t.cost(),
{
}

/// A position is walkable exactly when the map has a tile there and that
/// tile is walkable.
pub proof fn lemma_walkable_iff_walkable_tile(map: &TileMap, x: int, y: int)
    ensures
        map.walkable_at(x, y) <==> (in_map(x, y) && map.tile_at(x, y).is_walkable()),
{
}

} // verus!
