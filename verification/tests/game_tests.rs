use rts_engine::engine::combat::{patrol_goal, plan_patrol, CombatSystem};
use rts_engine::engine::enemy::{enemy_icon, AiState, EnemyType};
use rts_engine::engine::input::{formation_goal, plan_formation_move};
use rts_engine::engine::map::TileMap;
use rts_engine::engine::projectile::ProjOwner;
use rts_engine::engine::spawn::{EnemySpawn, Spawner};
use rts_engine::engine::unit::{remaining_path, unit_icon, UnitType};

#[test]
fn unit_names_and_icons() {
    assert_eq!(UnitType::Warrior.name(), "Warrior");
    assert_eq!(UnitType::Archer.name(), "Archer");
    assert_eq!(UnitType::Scout.name(), "Scout");
    assert_eq!(unit_icon(&UnitType::Warrior), "⚔");
    assert_eq!(unit_icon(&UnitType::Archer), "🏹");
    assert_eq!(unit_icon(&UnitType::Scout), "◈");
}

#[test]
fn enemy_kinds() {
    assert_eq!(EnemyType::Grunt.name(), "Grunt");
    assert_eq!(EnemyType::Brute.name(), "Brute");
    assert_eq!(EnemyType::Archer.name(), "Archer");
    assert_eq!(EnemyType::Grunt.xp_value(), 10);
    assert_eq!(EnemyType::Brute.xp_value(), 30);
    assert_eq!(EnemyType::Archer.xp_value(), 15);
    assert!(EnemyType::Archer.is_ranged());
    assert!(!EnemyType::Grunt.is_ranged());
    assert!(!EnemyType::Brute.is_ranged());
    assert_eq!(enemy_icon(&EnemyType::Grunt), "✕");
    assert_eq!(enemy_icon(&EnemyType::Brute), "◉");
    assert_eq!(enemy_icon(&EnemyType::Archer), "↑");
    assert_ne!(AiState::Patrol, AiState::Chase { target_id: 1 });
    assert_ne!(ProjOwner::Player, ProjOwner::Enemy);
}

#[test]
fn combat_tally() {
    let mut c = CombatSystem::new();
    assert_eq!((c.proj_counter, c.score, c.killed_enemies, c.lost_units), (0, 0, 0, 0));
    assert_eq!(c.next_pid(), 1);
    assert_eq!(c.next_pid(), 2);
    c.record_enemy_death(&EnemyType::Brute);
    c.record_enemy_death(&EnemyType::Grunt);
    c.record_unit_death();
    assert_eq!(c.score, 40);
    assert_eq!(c.killed_enemies, 2);
    assert_eq!(c.lost_units, 1);
    assert_eq!(c.proj_counter, 2);
}

#[test]
fn initial_enemies() {
    let mut s = Spawner::new();
    let e = s.spawn_initial_enemies();
    assert_eq!(
        e,
        vec![
            EnemySpawn { id: 1, x: 50, y: 10, enemy_type: EnemyType::Grunt },
            EnemySpawn { id: 2, x: 52, y: 12, enemy_type: EnemyType::Grunt },
            EnemySpawn { id: 3, x: 48, y: 14, enemy_type: EnemyType::Archer },
            EnemySpawn { id: 4, x: 55, y: 30, enemy_type: EnemyType::Grunt },
            EnemySpawn { id: 5, x: 50, y: 50, enemy_type: EnemyType::Brute },
            EnemySpawn { id: 6, x: 45, y: 55, enemy_type: EnemyType::Grunt },
        ]
    );
    assert_eq!(s.enemy_id_counter, 6);
    assert_eq!(s.wave_number, 0);
}

#[test]
fn first_wave() {
    let mut s = Spawner::new();
    s.spawn_initial_enemies();
    let w = s.spawn_wave();
    assert_eq!(s.wave_number, 1);
    let kinds: Vec<EnemyType> = w.iter().map(|e| e.enemy_type).collect();
    assert_eq!(
        kinds,
        vec![
            EnemyType::Grunt, EnemyType::Grunt, EnemyType::Grunt, EnemyType::Grunt, EnemyType::Grunt,
            EnemyType::Archer, EnemyType::Archer
        ]
    );
    let ids: Vec<usize> = w.iter().map(|e| e.id).collect();
    assert_eq!(ids, vec![7, 8, 9, 10, 11, 12, 13]);
    let tiles: Vec<(i32, i32)> = w.iter().map(|e| (e.x, e.y)).collect();
    assert_eq!(tiles, vec![(58, 22), (55, 30), (58, 38), (55, 48), (48, 58), (35, 58), (22, 58)]);
    assert_eq!(s.enemy_id_counter, 13);
}

#[test]
fn second_wave_brings_a_brute() {
    let mut s = Spawner::new();
    s.spawn_wave();
    let w = s.spawn_wave();
    assert_eq!(s.wave_number, 2);
    assert_eq!(w.len(), 7 + 3 + 1);
    assert_eq!(w.iter().filter(|e| e.enemy_type == EnemyType::Grunt).count(), 7);
    assert_eq!(w.iter().filter(|e| e.enemy_type == EnemyType::Archer).count(), 3);
    assert_eq!(w.last().unwrap().enemy_type, EnemyType::Brute);
    assert_eq!((w[0].x, w[0].y), (55, 48));
    assert_eq!((w[10].x, w[10].y), (55, 48));
    assert_eq!(w[0].id, 8);
}

#[test]
fn wave_sizes_grow() {
    let mut s = Spawner::new();
    let mut last = 0;
    for w in 1..=6 {
        let n = s.spawn_wave().len();
        let brutes = if w >= 2 { w - 1 } else { 0 };
        assert_eq!(n, 3 + 2 * w + 1 + w + brutes);
        assert!(n >= last + 3);
        last = n;
    }
}

#[test]
fn ids_never_repeat() {
    let mut s = Spawner::new();
    let mut all: Vec<usize> = s.spawn_initial_enemies().iter().map(|e| e.id).collect();
    for _ in 0..4 {
        all.extend(s.spawn_wave().iter().map(|e| e.id));
    }
    let mut sorted = all.clone();
    sorted.sort();
    sorted.dedup();
    assert_eq!(sorted.len(), all.len());
    assert_eq!(s.next_enemy_id(), all.len() + 1);
}

#[test]
fn patrol_goals() {
    assert_eq!(patrol_goal(1, 50, 10), (48, 11));
    assert_eq!(patrol_goal(0, 50, 10), (50, 9));
    assert_eq!(patrol_goal(2, 1, 58), (2, 56));
    assert_eq!(patrol_goal(3, 58, 1), (57, 1));
}

#[test]
fn patrol_plans() {
    let m = TileMap::new();
    let p = plan_patrol(&m, 1, 50, 10, (50, 10));
    assert_eq!(p.first(), Some(&(50, 10)));
    assert_eq!(p.last(), Some(&(48, 11)));
    // enemy 0 at its spawn (50, 10) heads for (50, 9)
    assert_eq!(plan_patrol(&m, 0, 50, 10, (50, 10)), vec![(50, 10), (50, 9)]);
    // already on the target: nothing to do
    assert!(plan_patrol(&m, 0, 50, 10, (50, 9)).is_empty());
}

#[test]
fn formation_goals() {
    let m = TileMap::new();
    assert_eq!(formation_goal(&m, 20, 20, 0, 1), (20, 20));
    assert_eq!(formation_goal(&m, 20, 20, 0, 4), (19, 20));
    assert_eq!(formation_goal(&m, 20, 20, 1, 4), (20, 20));
    assert_eq!(formation_goal(&m, 20, 20, 2, 4), (21, 20));
    assert_eq!(formation_goal(&m, 20, 20, 3, 4), (19, 21));
    // clamped off the border
    assert_eq!(formation_goal(&m, 0, 0, 0, 3), (1, 1));
    // slot on a wall: fall back to the clicked tile
    assert_eq!(formation_goal(&m, 26, 10, 0, 3), (26, 10));
}

#[test]
fn formation_move_plans_each_unit() {
    let m = TileMap::new();
    let starts = vec![(14, 8), (15, 8), (16, 8)];
    let paths = plan_formation_move(&m, 20, 8, &starts);
    assert_eq!(paths.len(), 3);
    assert_eq!(paths[0].first(), Some(&(14, 8)));
    assert_eq!(paths[0].last(), Some(&(19, 8)));
    assert_eq!(paths[1].last(), Some(&(20, 8)));
    assert_eq!(paths[2].last(), Some(&(21, 8)));
    // a unit already on its slot gets no path
    let paths = plan_formation_move(&m, 20, 8, &vec![(20, 8)]);
    assert!(paths[0].is_empty());
}

#[test]
fn remaining_path_drops_current_tile() {
    assert_eq!(remaining_path(vec![(1, 1), (2, 2), (3, 3)]), vec![(2, 2), (3, 3)]);
    assert_eq!(remaining_path(vec![(1, 1)]), vec![(1, 1)]);
    assert_eq!(remaining_path(vec![]), Vec::<(i32, i32)>::new());
}

#[test]
fn formation_shape_in_open_field() {
    let m = TileMap::new();
    for n in 1..10usize {
        for i in 0..n {
            let (gx, gy) = formation_goal(&m, 30, 30, i, n);
            assert!((-1..=1).contains(&(gx - 30)));
            assert!(gy - 30 >= 0 && (gy - 30) as usize <= i / 3);
            if n == 1 {
                assert_eq!((gx, gy), (30, 30));
            }
        }
    }
}
