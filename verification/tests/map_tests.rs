use rts_engine::engine::map::{Tile, TileMap, MAP_H, MAP_W};
use rts_engine::math::distance;

#[test]
fn terrain_walkability_follows_help_text() {
    assert!(Tile::Grass.walkable());
    assert!(Tile::DarkGrass.walkable());
    assert!(Tile::Sand.walkable());
    assert!(Tile::Road.walkable());
    assert!(!Tile::Wall.walkable());
    assert!(!Tile::Water.walkable());
    assert!(!Tile::Forest.walkable());
}

#[test]
fn terrain_move_costs() {
    assert_eq!(Tile::Road.move_cost(), 1);
    assert_eq!(Tile::Grass.move_cost(), 2);
    assert_eq!(Tile::DarkGrass.move_cost(), 2);
    assert_eq!(Tile::Sand.move_cost(), 3);
    assert_eq!(Tile::Wall.move_cost(), 999);
    assert_eq!(Tile::Water.move_cost(), 999);
    assert_eq!(Tile::Forest.move_cost(), 999);
}

#[test]
fn walkable_iff_finite_cost() {
    for t in [Tile::Grass, Tile::DarkGrass, Tile::Wall, Tile::Water, Tile::Sand, Tile::Forest, Tile::Road] {
        assert_eq!(t.walkable(), t.move_cost() < 999);
    }
}

#[test]
fn map_has_full_grid() {
    let m = TileMap::new();
    assert_eq!(m.width, 60);
    assert_eq!(m.height, 60);
    assert_eq!(m.tiles.len(), (MAP_W * MAP_H) as usize);
}

#[test]
fn map_layout_samples() {
    let m = TileMap::new();
    let cases = [
        ((0, 0), Tile::Grass),
        ((6, 6), Tile::DarkGrass),
        ((10, 15), Tile::Wall),
        ((19, 15), Tile::Wall),
        ((20, 15), Tile::Grass),
        ((25, 10), Tile::Wall),
        ((40, 7), Tile::Water),
        ((36, 4), Tile::DarkGrass),
        ((48, 5), Tile::Sand),
        ((48, 10), Tile::Sand),
        ((36, 11), Tile::Sand),
        ((48, 11), Tile::Sand),
        ((36, 12), Tile::Grass),
        ((49, 11), Tile::Grass),
        ((37, 3), Tile::DarkGrass),
        ((5, 30), Tile::Forest),
        ((8, 31), Tile::Forest),
        ((7, 32), Tile::Grass),
        ((16, 41), Tile::Forest),
        ((20, 8), Tile::Road),
        ((3, 20), Tile::Road),
        ((3, 8), Tile::Road),
        ((8, 8), Tile::DarkGrass),
        ((25, 8), Tile::Wall),
        ((36, 25), Tile::Wall),
        ((35, 30), Tile::Wall),
        ((3, 47), Tile::DarkGrass),
    ];
    for ((x, y), t) in cases {
        assert_eq!(m.get_tile(x, y), Some(t), "tile at ({}, {})", x, y);
    }
}

#[test]
fn map_bounds_and_index() {
    assert!(TileMap::in_bounds(0, 0));
    assert!(TileMap::in_bounds(59, 59));
    assert!(!TileMap::in_bounds(-1, 0));
    assert!(!TileMap::in_bounds(0, 60));
    assert!(!TileMap::in_bounds(60, 5));
    assert_eq!(TileMap::idx(0, 0), 0);
    assert_eq!(TileMap::idx(5, 2), 125);
    assert_eq!(TileMap::idx(59, 59), 3599);
}

#[test]
fn map_get_tile_off_map_is_none() {
    let m = TileMap::new();
    assert_eq!(m.get_tile(-1, 5), None);
    assert_eq!(m.get_tile(5, 60), None);
    assert!(!m.walkable(-1, 5));
    assert!(!m.walkable(60, 0));
}

#[test]
fn map_walkable_matches_tiles() {
    let m = TileMap::new();
    assert!(m.walkable(20, 8));
    assert!(!m.walkable(10, 15));
    assert!(!m.walkable(40, 7));
    assert!(!m.walkable(5, 30));
    for y in 0..MAP_H {
        for x in 0..MAP_W {
            assert_eq!(m.walkable(x, y), m.get_tile(x, y).unwrap().walkable());
        }
    }
}

#[test]
fn manhattan_distance_values() {
    assert_eq!(distance((0, 0), (0, 0)), 0);
    assert_eq!(distance((1, 2), (4, 6)), 7);
    assert_eq!(distance((4, 6), (1, 2)), 7);
    assert_eq!(distance((-3, 5), (2, -1)), 11);
}

#[test]
fn manhattan_triangle_inequality() {
    let pts = [(0, 0), (3, -4), (-2, 7), (10, 10)];
    for a in pts {
        for b in pts {
            for c in pts {
                assert!(distance(a, c) <= distance(a, b) + distance(b, c));
            }
        }
    }
}
