use rts_engine::engine::combat::CombatSystem;
use rts_engine::engine::enemy::EnemyType;
use rts_engine::engine::map::TileMap;
use rts_engine::engine::pathfinding::find_path;
use rts_engine::engine::unit::{starting_units, UnitSpawn, UnitState, UnitType};

#[test]
fn new_unit_is_idle() {
    let u = UnitState::new(8, 27);
    assert_eq!(u.tile_pos(), (8, 27));
    assert!(!u.selected);
    assert!(u.path.is_empty());
    assert!(!u.attacking);
    assert_eq!(u.attack_target, None);
}

#[test]
fn set_path_drops_own_tile_and_attack() {
    let mut u = UnitState::new(8, 27);
    u.selected = true;
    u.attacking = true;
    u.attack_target = Some(12);
    u.set_path(vec![(8, 27), (9, 27), (10, 28)]);
    assert_eq!(u.path, vec![(9, 27), (10, 28)]);
    assert!(!u.attacking);
    assert_eq!(u.attack_target, None);
    assert!(u.selected);
    assert_eq!(u.tile_pos(), (8, 27));
}

#[test]
fn set_path_keeps_a_single_tile() {
    let mut u = UnitState::new(3, 3);
    u.set_path(vec![(4, 4)]);
    assert_eq!(u.path, vec![(4, 4)]);
}

#[test]
fn move_order_path_ends_on_goal_without_own_tile() {
    let m = TileMap::new();
    let mut u = UnitState::new(8, 27);
    let goal = (20, 30);
    let p = find_path(&m, u.tile_pos(), goal);
    assert!(!p.is_empty());
    u.set_path(p.clone());
    assert_eq!(u.path.len(), p.len() - 1);
    assert_eq!(u.path.last(), Some(&goal));
    assert!(!u.path.contains(&(8, 27)));
}

#[test]
fn stop_clears_orders() {
    let mut u = UnitState::new(5, 6);
    u.selected = true;
    u.set_path(vec![(5, 6), (6, 6), (7, 6)]);
    u.attacking = true;
    u.attack_target = Some(3);
    u.stop();
    assert!(u.path.is_empty());
    assert!(!u.attacking);
    assert_eq!(u.attack_target, None);
    assert!(u.selected);
    assert_eq!(u.tile_pos(), (5, 6));
}

#[test]
fn arrive_walks_the_path() {
    let mut u = UnitState::new(5, 6);
    u.set_path(vec![(5, 6), (6, 6), (7, 7)]);
    u.arrive();
    assert_eq!(u.tile_pos(), (6, 6));
    assert_eq!(u.path, vec![(7, 7)]);
    u.arrive();
    assert_eq!(u.tile_pos(), (7, 7));
    assert!(u.path.is_empty());
}

#[test]
fn enemy_death_booked_once() {
    let mut c = CombatSystem::new();
    let d1 = c.settle_enemy(false, true, &EnemyType::Brute);
    assert!(d1);
    assert_eq!(c.killed_enemies, 1);
    let s1 = c.score;
    assert_eq!(s1, EnemyType::Brute.xp_value());
    let d2 = c.settle_enemy(d1, true, &EnemyType::Brute);
    assert!(d2);
    assert_eq!(c.killed_enemies, 1);
    assert_eq!(c.score, s1);
}

#[test]
fn living_enemy_is_not_booked() {
    let mut c = CombatSystem::new();
    assert!(!c.settle_enemy(false, false, &EnemyType::Grunt));
    assert_eq!(c.killed_enemies, 0);
    assert_eq!(c.score, 0);
}

#[test]
fn unit_loss_counted_once() {
    let mut c = CombatSystem::new();
    assert!(!c.settle_unit(false, false));
    assert_eq!(c.lost_units, 0);
    let d = c.settle_unit(false, true);
    assert!(d);
    assert_eq!(c.lost_units, 1);
    assert!(c.settle_unit(d, true));
    assert_eq!(c.lost_units, 1);
    assert_eq!(c.score, 0);
}

#[test]
fn starting_force() {
    let m = TileMap::new();
    let r = starting_units();
    assert_eq!(
        r,
        vec![
            UnitSpawn { id: 0, x: 5, y: 5, unit_type: UnitType::Warrior },
            UnitSpawn { id: 1, x: 7, y: 5, unit_type: UnitType::Archer },
            UnitSpawn { id: 2, x: 9, y: 5, unit_type: UnitType::Scout },
            UnitSpawn { id: 3, x: 5, y: 7, unit_type: UnitType::Warrior },
            UnitSpawn { id: 4, x: 7, y: 7, unit_type: UnitType::Archer },
        ]
    );
    for s in &r {
        assert!(m.walkable(s.x, s.y));
    }
}
