use rts_engine::engine::map::{Tile, TileMap};
use rts_engine::engine::pathfinding::find_path;

fn check_walk(m: &TileMap, p: &[(i32, i32)], start: (i32, i32), goal: (i32, i32)) {
    assert!(!p.is_empty());
    assert_eq!(p[0], start);
    assert_eq!(*p.last().unwrap(), goal);
    for w in p.windows(2) {
        let (a, b) = (w[0], w[1]);
        assert!((a.0 - b.0).abs() <= 1 && (a.1 - b.1).abs() <= 1 && a != b);
        assert!(m.walkable(b.0, b.1));
    }
}

#[test]
fn path_to_self_is_empty() {
    let m = TileMap::new();
    assert!(find_path(&m, (14, 8), (14, 8)).is_empty());
}

#[test]
fn path_into_wall_or_water_is_empty() {
    let m = TileMap::new();
    assert!(find_path(&m, (14, 8), (10, 15)).is_empty());
    assert!(find_path(&m, (14, 8), (40, 7)).is_empty());
    assert!(find_path(&m, (14, 8), (5, 30)).is_empty());
    assert!(find_path(&m, (14, 8), (-1, 3)).is_empty());
}

#[test]
fn path_to_neighbour() {
    let m = TileMap::new();
    assert_eq!(find_path(&m, (14, 8), (15, 8)), vec![(14, 8), (15, 8)]);
    assert_eq!(find_path(&m, (30, 30), (30, 31)), vec![(30, 30), (30, 31)]);
}

#[test]
fn path_along_road() {
    let m = TileMap::new();
    assert_eq!(
        find_path(&m, (14, 8), (20, 8)),
        vec![(14, 8), (15, 8), (16, 8), (17, 8), (18, 8), (19, 8), (20, 8)]
    );
}

#[test]
fn path_straight_then_diagonal() {
    let m = TileMap::new();
    assert_eq!(find_path(&m, (5, 5), (9, 7)), vec![(5, 5), (6, 5), (7, 5), (8, 6), (9, 7)]);
}

#[test]
fn path_around_horizontal_wall() {
    let m = TileMap::new();
    let p = find_path(&m, (12, 12), (18, 18));
    assert_eq!(
        p,
        vec![
            (12, 12), (13, 13), (14, 14), (15, 14), (16, 14), (17, 14), (18, 14), (19, 14),
            (20, 15), (19, 16), (18, 17), (18, 18)
        ]
    );
    check_walk(&m, &p, (12, 12), (18, 18));
}

#[test]
fn path_past_l_wall() {
    let m = TileMap::new();
    let p = find_path(&m, (40, 20), (40, 30));
    assert_eq!(
        p,
        vec![
            (40, 20), (41, 21), (42, 22), (43, 23), (44, 24), (45, 24), (46, 24), (47, 24),
            (48, 25), (47, 26), (46, 27), (45, 28), (44, 29), (43, 30), (42, 31), (41, 30), (40, 30)
        ]
    );
}

#[test]
fn path_across_the_map() {
    let m = TileMap::new();
    let p = find_path(&m, (0, 0), (59, 59));
    assert_eq!(p.len(), 66);
    check_walk(&m, &p, (0, 0), (59, 59));
    let q = find_path(&m, (5, 5), (45, 45));
    assert_eq!(q.len(), 47);
    check_walk(&m, &q, (5, 5), (45, 45));
}

#[test]
fn path_from_off_the_map() {
    let m = TileMap::new();
    assert_eq!(find_path(&m, (-1, 5), (2, 5)), vec![(-1, 5), (0, 5), (1, 5), (2, 5)]);
}

#[test]
fn path_round_wall_end_and_from_inside_wall() {
    let m = TileMap::new();
    let p = find_path(&m, (20, 14), (20, 16));
    assert_eq!(p, vec![(20, 14), (20, 15), (20, 16)]);
    let q = find_path(&m, (15, 15), (15, 17));
    assert_eq!(q, vec![(15, 15), (15, 16), (15, 17)]);
}

fn walled_map() -> TileMap {
    let mut m = TileMap::new();
    for y in 29..=31 {
        for x in 29..=31 {
            m.tiles[TileMap::idx(x, y)] = Tile::Wall;
        }
    }
    m.tiles[TileMap::idx(30, 30)] = Tile::Grass;
    m
}

#[test]
fn enclosed_tile_is_unreachable() {
    let m = walled_map();
    assert!(m.walkable(30, 30));
    assert!(find_path(&m, (10, 10), (30, 30)).is_empty());
    assert!(find_path(&m, (30, 30), (10, 10)).is_empty());
}

#[test]
fn every_walkable_tile_reachable_from_base() {
    let m = TileMap::new();
    for (x, y) in [(58, 58), (1, 58), (58, 1), (44, 12), (36, 5), (49, 30), (30, 50)] {
        if m.walkable(x, y) {
            let p = find_path(&m, (5, 5), (x, y));
            check_walk(&m, &p, (5, 5), (x, y));
        }
    }
}

#[test]
fn far_start_with_unwalkable_goal_is_empty() {
    let m = TileMap::new();
    assert!(find_path(&m, (i32::MAX, i32::MIN), (10, 15)).is_empty());
    assert!(find_path(&m, (i32::MAX, 0), (i32::MAX, 0)).is_empty());
}

#[test]
fn found_paths_never_repeat_a_tile() {
    let m = TileMap::new();
    for (s, g) in [((0, 0), (59, 59)), ((12, 12), (18, 18)), ((40, 20), (40, 30)), ((58, 2), (2, 58))] {
        let p = find_path(&m, s, g);
        let mut sorted = p.clone();
        sorted.sort();
        sorted.dedup();
        assert_eq!(sorted.len(), p.len());
    }
}

#[test]
fn diagonal_neighbour_is_one_step() {
    let m = TileMap::new();
    assert_eq!(find_path(&m, (0, 0), (1, 1)), vec![(0, 0), (1, 1)]);
}

#[test]
fn every_neighbour_on_open_ground_is_one_step() {
    let m = TileMap::new();
    let from = (10, 10);
    for dx in -1..=1 {
        for dy in -1..=1 {
            if dx == 0 && dy == 0 {
                continue;
            }
            let goal = (from.0 + dx, from.1 + dy);
            if m.walkable(goal.0, goal.1) {
                assert_eq!(find_path(&m, from, goal), vec![from, goal]);
            }
        }
    }
}

#[test]
fn neighbouring_sand_is_one_step_past_road() {
    let mut m = TileMap::new();
    for y in 0..4 {
        for x in 0..4 {
            let i = TileMap::idx(x, y);
            m.tiles[i] = Tile::Road;
        }
    }
    let i = TileMap::idx(2, 2);
    m.tiles[i] = Tile::Sand;
    assert_eq!(find_path(&m, (1, 1), (2, 2)), vec![(1, 1), (2, 2)]);
    assert_eq!(find_path(&m, (1, 2), (2, 2)), vec![(1, 2), (2, 2)]);
}
