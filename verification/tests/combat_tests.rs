use rts_engine::engine::combat::{
    enemy_ai_round, melee_target, patrol_goal, unit_combat_round, EnemyOrders, Strike, UnitOrders,
};
use rts_engine::engine::enemy::AiState;

#[test]
fn unit_with_no_enemy_stands_down() {
    let o = unit_combat_round(None, false, true, false);
    assert_eq!(o, UnitOrders { attacking: false, attack_target: None, clear_path: false, strike: Strike::Hold });
}

#[test]
fn unit_attacks_enemy_in_range() {
    let melee = unit_combat_round(Some(7), true, true, false);
    assert_eq!(melee, UnitOrders { attacking: true, attack_target: Some(7), clear_path: true, strike: Strike::Hit });
    let ranged = unit_combat_round(Some(7), true, true, true);
    assert_eq!(ranged.strike, Strike::Shoot);
    let cooling = unit_combat_round(Some(7), true, false, true);
    assert_eq!(cooling, UnitOrders { attacking: true, attack_target: Some(7), clear_path: true, strike: Strike::Hold });
}

#[test]
fn unit_lets_go_of_target_out_of_range() {
    let o = unit_combat_round(Some(7), false, true, false);
    assert_eq!(o, UnitOrders { attacking: false, attack_target: None, clear_path: false, strike: Strike::Hold });
}

#[test]
fn unit_stops_attacking_when_nearest_enemy_is_out_of_range() {
    // the unit was attacking enemy 9, which is gone; the nearest enemy, 1, is far away
    let o = unit_combat_round(Some(1), false, true, false);
    assert!(!o.attacking);
    assert_eq!(o.attack_target, None);
    assert_eq!(o.strike, Strike::Hold);
}

#[test]
fn enemy_patrols_without_a_detected_unit() {
    let expect = EnemyOrders {
        ai_state: AiState::Patrol,
        clear_path: false,
        attack: false,
        shoot: false,
        seek_path: false,
        patrol: true,
        advance: true,
    };
    assert_eq!(enemy_ai_round(None, false, false, true, false, true), expect);
    assert_eq!(enemy_ai_round(Some(2), false, true, true, false, true), expect);
}

#[test]
fn enemy_chases_detected_unit() {
    let o = enemy_ai_round(Some(2), true, false, true, false, true);
    assert_eq!(o.ai_state, AiState::Chase { target_id: 2 });
    assert!(o.seek_path && o.advance && !o.attack && !o.patrol && !o.clear_path);
    let o = enemy_ai_round(Some(2), true, false, true, false, false);
    assert!(!o.seek_path);
}

#[test]
fn enemy_attacks_unit_in_range() {
    let o = enemy_ai_round(Some(2), true, true, true, true, false);
    assert_eq!(o.ai_state, AiState::Attack { target_id: 2 });
    assert!(o.attack && o.shoot && o.clear_path && !o.advance);
    let o = enemy_ai_round(Some(2), true, true, true, false, false);
    assert!(o.attack && !o.shoot);
    let o = enemy_ai_round(Some(2), true, true, false, true, false);
    assert!(!o.attack && !o.shoot);
}

#[test]
fn melee_targets() {
    assert_eq!(melee_target(&AiState::Attack { target_id: 3 }, false, true), Some(3));
    assert_eq!(melee_target(&AiState::Attack { target_id: 3 }, false, false), None);
    assert_eq!(melee_target(&AiState::Attack { target_id: 3 }, true, true), None);
    assert_eq!(melee_target(&AiState::Chase { target_id: 3 }, false, true), None);
    assert_eq!(melee_target(&AiState::Patrol, false, true), None);
}

#[test]
fn patrol_stays_near_spawn() {
    for id in 0..50usize {
        let (gx, gy) = patrol_goal(id, 30, 30);
        assert!((gx - 30).abs() <= 2 && (gy - 30).abs() <= 2);
    }
}

#[test]
fn patrol_offset_of_wrapped_id() {
    // an id past i32::MAX is taken modulo 2^32, as `as i32` does
    let id = (1usize << 32) + 1;
    assert_eq!(patrol_goal(id, 50, 10), patrol_goal(1, 50, 10));
    // a negative i32 id gives a negative remainder
    let id = u32::MAX as usize; // -1 as i32: (-3 + 2) % 5 - 2 = -3, (-7 + 1) % 5 - 2 = -3
    assert_eq!(patrol_goal(id, 30, 30), (27, 27));
}

#[test]
fn melee_blow_lands_in_the_round_it_is_struck() {
    let o = enemy_ai_round(Some(4), true, true, true, false, false);
    assert!(o.attack);
    assert_eq!(melee_target(&o.ai_state, false, o.attack), Some(4));
    let cooling = enemy_ai_round(Some(4), true, true, false, false, false);
    assert_eq!(melee_target(&cooling.ai_state, false, cooling.attack), None);
}
