use vstd::prelude::*;
use crate::engine::enemy::{AiState, EnemyType};
use crate::engine::map::{TileMap, MAP_W, MAP_H};
use crate::engine::pathfinding::{find_path, is_step, is_walk, no_repeats, reachable, search_result};

verus! {

/// The running tally of a battle and the source of projectile ids.
pub struct CombatSystem {
    pub proj_counter: usize,
    pub score: u32,
    pub killed_enemies: u32,
    pub lost_units: u32,
}

impl CombatSystem {
    /// A battle with nothing fired, scored, killed or lost.
    pub fn new() -> (c: Self)
        ensures
            c.proj_counter == 0,
            c.score == 0,
            c.killed_enemies == 0,
            c.lost_units == 0,
    {
        CombatSystem { proj_counter: 0, score: 0, killed_enemies: 0, lost_units: 0 }
    }

    /// A fresh projectile id: one more than the last one handed out.
    pub fn next_pid(&mut self) -> (id: usize)
        requires
            old(self).proj_counter < usize::MAX,
        ensures
            id == old(self).proj_counter + 1,
            final(self).proj_counter == id,
            final(self).score == old(self).score,
            final(self).killed_enemies == old(self).killed_enemies,
            final(self).lost_units == old(self).lost_units,
    {
        self.proj_counter = self.proj_counter + 1;
        self.proj_counter
    }

    /// Books the death of an enemy of kind `t`: its worth goes to the score
    /// and the kill count grows by one.
    pub fn record_enemy_death(&mut self, t: &EnemyType)
        requires
            old(self).score + t.xp() <= u32::MAX,
            old(self).killed_enemies < u32::MAX,
        ensures
            final(self).score == old(self).score + t.xp(),
            final(self).killed_enemies == old(self).killed_enemies + 1,
            final(self).lost_units == old(self).lost_units,
            final(self).proj_counter == old(self).proj_counter,
    {
        self.score = self.score + t.xp_value();
        self.killed_enemies = self.killed_enemies + 1;
    }

    /// Books the death of a player unit.
    pub fn record_unit_death(&mut self)
        requires
            old(self).lost_units < u32::MAX,
        ensures
            final(self).lost_units == old(self).lost_units + 1,
            final(self).score == old(self).score,
            final(self).killed_enemies == old(self).killed_enemies,
            final(self).proj_counter == old(self).proj_counter,
    {
        self.lost_units = self.lost_units + 1;
    }

    /// Settles an enemy at the end of a round. `dead` is whether it had
    /// already died and `out_of_health` whether its health has run out. An
    /// enemy that was alive and has no health left dies now and its death is
    /// booked; a dead enemy is never booked again. Returns whether the enemy
    /// is dead after the round.
    pub fn settle_enemy(&mut self, dead: bool, out_of_health: bool, t: &EnemyType) -> (now_dead: bool)
        requires
            !dead && out_of_health ==> old(self).score + t.xp() <= u32::MAX && old(self).killed_enemies
                < u32::MAX,
        ensures
            enemy_settled(*old(self), dead, out_of_health, *t, *final(self), now_dead),
    {
        if !dead && out_of_health {
            self.record_enemy_death(t);
            true
        } else {
            dead
        }
    }

    /// Settles a player unit at the end of a round, as `settle_enemy` does an
    /// enemy: a unit that was alive and has no health left dies and is
    /// counted as lost, once.
    pub fn settle_unit(&mut self, dead: bool, out_of_health: bool) -> (now_dead: bool)
        requires
            !dead && out_of_health ==> old(self).lost_units < u32::MAX,
        ensures
            unit_settled(*old(self), dead, out_of_health, *final(self), now_dead),
    {
        if !dead && out_of_health {
            self.record_unit_death();
            true
        } else {
            dead
        }
    }
}

/// Settling an enemy of kind `t` turns tally `c0` into `c1` and the dead
/// flag `dead` into `now_dead`: it dies when its health has run out, and its
/// worth and one kill are booked exactly when it dies in this round.
pub open spec fn enemy_settled(
    c0: CombatSystem,
    dead: bool,
    out_of_health: bool,
    t: EnemyType,
    c1: CombatSystem,
    now_dead: bool,
) -> bool {
    let dies = !dead && out_of_health;
    &&& now_dead == (dead || out_of_health)
    &&& c1.score == c0.score + (if dies { t.xp() } else { 0 })
    &&& c1.killed_enemies == c0.killed_enemies + (if dies { 1int } else { 0 })
    &&& c1.lost_units == c0.lost_units
    &&& c1.proj_counter == c0.proj_counter
}

/// Settling a player unit turns tally `c0` into `c1` and the dead flag `dead`
/// into `now_dead`: one loss is counted exactly when it dies in this round.
pub open spec fn unit_settled(c0: CombatSystem, dead: bool, out_of_health: bool, c1: CombatSystem, now_dead: bool) -> bool {
    &&& now_dead == (dead || out_of_health)
    &&& c1.lost_units == c0.lost_units + (if !dead && out_of_health { 1int } else { 0 })
    &&& c1.score == c0.score
    &&& c1.killed_enemies == c0.killed_enemies
    &&& c1.proj_counter == c0.proj_counter
}

/// What settling an enemy does to the tally: an enemy that was alive and
/// whose health has run out dies, one kill is counted and its worth goes to
/// the score (10 for a grunt, 30 for a brute, 15 for an archer); any other
/// enemy leaves the score and the kill count as they were. Losses and
/// projectile ids are never touched.
pub proof fn lemma_enemy_settle_scores(
    c0: CombatSystem,
    dead: bool,
    out_of_health: bool,
    t: EnemyType,
    c1: CombatSystem,
    now_dead: bool,
)
    requires
        enemy_settled(c0, dead, out_of_health, t, c1, now_dead),
    ensures
        !dead && out_of_health ==> now_dead && c1.killed_enemies == c0.killed_enemies + 1 && c1.score == c0.score
            + (match t {
            EnemyType::Grunt => 10int,
            EnemyType::Brute => 30int,
            EnemyType::Archer => 15int,
        }),
        dead || !out_of_health ==> now_dead == dead && c1.score == c0.score && c1.killed_enemies
            == c0.killed_enemies,
        c1.lost_units == c0.lost_units,
        c1.proj_counter == c0.proj_counter,
{
}

/// What settling a unit does to the tally: a unit that was alive and whose
/// health has run out dies and one loss is counted; any other unit leaves
/// the loss count as it was. The score, the kill count and projectile ids
/// are never touched.
pub proof fn lemma_unit_settle_counts(c0: CombatSystem, dead: bool, out_of_health: bool, c1: CombatSystem, now_dead: bool)
    requires
        unit_settled(c0, dead, out_of_health, c1, now_dead),
    ensures
        !dead && out_of_health ==> now_dead && c1.lost_units == c0.lost_units + 1,
        dead || !out_of_health ==> now_dead == dead && c1.lost_units == c0.lost_units,
        c1.score == c0.score,
        c1.killed_enemies == c0.killed_enemies,
        c1.proj_counter == c0.proj_counter,
{
}

/// An enemy's death is booked once: over two successive rounds at most one
/// kill is booked, and once the enemy is dead a later settling changes
/// neither the tally nor its dead flag, whatever its health.
pub proof fn lemma_enemy_death_booked_once(
    c0: CombatSystem,
    dead: bool,
    out0: bool,
    t: EnemyType,
    c1: CombatSystem,
    d1: bool,
    out1: bool,
    c2: CombatSystem,
    d2: bool,
)
    requires
        enemy_settled(c0, dead, out0, t, c1, d1),
        enemy_settled(c1, d1, out1, t, c2, d2),
    ensures
        c2.killed_enemies <= c0.killed_enemies + 1,
        c2.score <= c0.score + t.xp(),
        d1 ==> c2 == c1 && d2,
{
}

/// A unit's loss is counted once: over two successive rounds at most one
/// loss is counted, and once the unit is dead a later settling changes
/// neither the tally nor its dead flag.
pub proof fn lemma_unit_loss_counted_once(
    c0: CombatSystem,
    dead: bool,
    out0: bool,
    c1: CombatSystem,
    d1: bool,
    out1: bool,
    c2: CombatSystem,
    d2: bool,
)
    requires
        unit_settled(c0, dead, out0, c1, d1),
        unit_settled(c1, d1, out1, c2, d2),
    ensures
        c2.lost_units <= c0.lost_units + 1,
        d1 ==> c2 == c1 && d2,
{
}

/// The blow a fighter deals in a combat round.
#[derive(Clone, Copy, Debug, PartialEq, Eq, Structural)]
pub enum Strike {
    /// No attack this round.
    Hold,
    /// Fire a projectile at the target.
    Shoot,
    /// Deal damage to the target at once.
    Hit,
}

/// What a player unit does in a combat round.
#[derive(Clone, Copy, Debug, PartialEq, Eq, Structural)]
pub struct UnitOrders {
    pub attacking: bool,
    pub attack_target: Option<usize>,
    /// Drop the current movement path.
    pub clear_path: bool,
    /// The attack made this round; any attack restarts the cooldown.
    pub strike: Strike,
}

/// The combat decision of a player unit. `nearest` is the nearest live
/// enemy, `in_range` whether it is within the unit's attack range, `ready`
/// whether the attack cooldown has run out and `ranged` whether the unit
/// fights with projectiles. A unit with an enemy in range stops and attacks
/// it; a unit whose nearest enemy is out of range, or that has no enemy
/// left, stops attacking and drops its target.
pub fn unit_combat_round(nearest: Option<usize>, in_range: bool, ready: bool, ranged: bool) -> (o: UnitOrders)
    ensures
        o == (match nearest {
            Some(eid) if in_range => UnitOrders {
                attacking: true,
                attack_target: Some(eid),
                clear_path: true,
                strike: if !ready {
                    Strike::Hold
                } else if ranged {
                    Strike::Shoot
                } else {
                    Strike::Hit
                },
            },
            _ => UnitOrders { attacking: false, attack_target: None, clear_path: false, strike: Strike::Hold },
        }),
{
    match nearest {
        Some(eid) if in_range => {
            let strike = if !ready {
                Strike::Hold
            } else if ranged {
                Strike::Shoot
            } else {
                Strike::Hit
            };
            UnitOrders { attacking: true, attack_target: Some(eid), clear_path: true, strike }
        },
        _ => UnitOrders { attacking: false, attack_target: None, clear_path: false, strike: Strike::Hold },
    }
}

/// What an enemy does in a combat round.
#[derive(Clone, Copy, Debug, PartialEq, Eq, Structural)]
pub struct EnemyOrders {
    pub ai_state: AiState,
    /// Drop the current movement path.
    pub clear_path: bool,
    /// Attack this round (which restarts the cooldown).
    pub attack: bool,
    /// Fire a projectile at the target (a ranged attack).
    pub shoot: bool,
    /// Plan a path towards the target.
    pub seek_path: bool,
    /// Patrol around the spawn tile.
    pub patrol: bool,
    /// Move one step along the current path.
    pub advance: bool,
}

/// The combat decision of an enemy. `nearest` is the nearest live player
/// unit, `in_detect` and `in_attack` whether it is within the enemy's
/// detection and attack ranges, `ready` whether the attack cooldown has run
/// out, `ranged` whether the enemy shoots and `path_empty` whether it has no
/// path to follow. An enemy attacks a detected unit within attack range,
/// chases a detected unit beyond it (planning a path when it has none) and
/// patrols otherwise; it moves only while chasing or patrolling.
pub fn enemy_ai_round(
    nearest: Option<usize>,
    in_detect: bool,
    in_attack: bool,
    ready: bool,
    ranged: bool,
    path_empty: bool,
) -> (o: EnemyOrders)
    ensures
        o == (match nearest {
            Some(uid) if in_detect => if in_attack {
                EnemyOrders {
                    ai_state: AiState::Attack { target_id: uid },
                    clear_path: true,
                    attack: ready,
                    shoot: ready && ranged,
                    seek_path: false,
                    patrol: false,
                    advance: false,
                }
            } else {
                EnemyOrders {
                    ai_state: AiState::Chase { target_id: uid },
                    clear_path: false,
                    attack: false,
                    shoot: false,
                    seek_path: path_empty,
                    patrol: false,
                    advance: true,
                }
            },
            _ => EnemyOrders {
                ai_state: AiState::Patrol,
                clear_path: false,
                attack: false,
                shoot: false,
                seek_path: false,
                patrol: true,
                advance: true,
            },
        }),
{
    match nearest {
        Some(uid) if in_detect => {
            if in_attack {
                EnemyOrders {
                    ai_state: AiState::Attack { target_id: uid },
                    clear_path: true,
                    attack: ready,
                    shoot: ready && ranged,
                    seek_path: false,
                    patrol: false,
                    advance: false,
                }
            } else {
                EnemyOrders {
                    ai_state: AiState::Chase { target_id: uid },
                    clear_path: false,
                    attack: false,
                    shoot: false,
                    seek_path: path_empty,
                    patrol: false,
                    advance: true,
                }
            }
        },
        _ => EnemyOrders {
            ai_state: AiState::Patrol,
            clear_path: false,
            attack: false,
            shoot: false,
            seek_path: false,
            patrol: true,
            advance: true,
        },
    }
}

/// The unit a melee enemy hits in a round: `struck` is whether it made an
/// attack this round (the `attack` order of `enemy_ai_round`). A melee enemy
/// that struck hits the target it is attacking; ranged enemies strike only
/// with projectiles, and an enemy that did not strike hits nobody.
pub fn melee_target(state: &AiState, ranged: bool, struck: bool) -> (t: Option<usize>)
    ensures
        t == (match state {
            AiState::Attack { target_id } => if ranged || !struck { None } else { Some(*target_id) },
            _ => None,
        }),
{
    if ranged || !struck {
        return None;
    }
    match state {
        AiState::Attack { target_id } => Some(*target_id),
        _ => None,
    }
}

/// `v` held within `[lo, hi]`.
pub open spec fn clamp_int(v: int, lo: int, hi: int) -> int {
    if v < lo {
        lo
    } else if v > hi {
        hi
    } else {
        v
    }
}

/// The remainder of Rust's integer division, which takes the sign of the dividend.
pub open spec fn trunc_rem(a: int, b: int) -> int {
    if a >= 0 {
        a % b
    } else {
        -((-a) % b)
    }
}

/// Rust's integer division, which rounds towards zero.
pub open spec fn trunc_div(a: int, b: int) -> int {
    if a >= 0 {
        a / b
    } else {
        -((-a) / b)
    }
}

/// The offset from its spawn tile that the enemy with id `id` patrols to;
/// the id is taken as an `i32`, as the game does.
pub open spec fn patrol_offset(id: int) -> (int, int) {
    let n = (id as i32) as int;
    (trunc_rem(n * 3 + 2, 5) - 2, trunc_rem(n * 7 + 1, 5) - 2)
}

/// The tile a patrolling enemy heads for: its patrol offset from its spawn
/// tile, kept off the map's border.
pub open spec fn patrol_target(id: int, spawn_x: int, spawn_y: int) -> (int, int) {
    let off = patrol_offset(id);
    (clamp_int(spawn_x + off.0, 1, MAP_W - 2), clamp_int(spawn_y + off.1, 1, MAP_H - 2))
}

/// The patrol target of the enemy with id `id` that spawned at `(spawn_x, spawn_y)`.
pub fn patrol_goal(id: usize, spawn_x: i32, spawn_y: i32) -> (r: (i32, i32))
    requires
        i32::MIN <= (id as i32) * 7 <= i32::MAX,
        i32::MIN <= (id as i32) * 7 + 1 <= i32::MAX,
        i32::MIN <= (id as i32) * 3 + 2 <= i32::MAX,
        i32::MIN <= spawn_x + patrol_offset(id as int).0 <= i32::MAX,
        i32::MIN <= spawn_y + patrol_offset(id as int).1 <= i32::MAX,
    ensures
        r.0 == patrol_target(id as int, spawn_x as int, spawn_y as int).0,
        r.1 == patrol_target(id as int, spawn_x as int, spawn_y as int).1,
        1 <= r.0 <= MAP_W - 2,
        1 <= r.1 <= MAP_H - 2,
{
    let n = id as i32;
    let ox = (n * 3 + 2) % 5 - 2;
    let oy = (n * 7 + 1) % 5 - 2;
    let gx = spawn_x + ox;
    let gy = spawn_y + oy;
    let gx = if gx < 1 { 1 } else if gx > MAP_W - 2 { MAP_W - 2 } else { gx };
    let gy = if gy < 1 { 1 } else if gy > MAP_H - 2 { MAP_H - 2 } else { gy };
    (gx, gy)
}

/// The new path of a patrolling enemy standing on `from`: a path to its
/// patrol target when that tile is walkable and a path exists, else empty
/// (the enemy then keeps its current path).
pub fn plan_patrol(map: &TileMap, id: usize, spawn_x: i32, spawn_y: i32, from: (i32, i32)) -> (path: Vec<(i32, i32)>)
    requires
        map.wf(),
        i32::MIN <= (id as i32) * 7 <= i32::MAX,
        i32::MIN <= (id as i32) * 7 + 1 <= i32::MAX,
        i32::MIN <= (id as i32) * 3 + 2 <= i32::MAX,
        i32::MIN <= spawn_x + patrol_offset(id as int).0 <= i32::MAX,
        i32::MIN <= spawn_y + patrol_offset(id as int).1 <= i32::MAX,
        ({
            let goal = patrol_target(id as int, spawn_x as int, spawn_y as int);
            map.walkable_at(goal.0, goal.1) && from != (goal.0 as i32, goal.1 as i32) ==> i32::MIN < from.0
                < i32::MAX && i32::MIN < from.1 < i32::MAX
        }),
    ensures
        ({
            let goal = patrol_target(id as int, spawn_x as int, spawn_y as int);
            let g = (goal.0 as i32, goal.1 as i32);
            &&& path.len() == 0 <==> (!map.walkable_at(goal.0, goal.1) || from == g || !reachable(
                map,
                from,
                g,
            ))
            &&& path.len() > 0 ==> is_walk(map, path@) && path@[0] == from && path@.last() == g
            &&& is_step(from, g) && map.walkable_at(goal.0, goal.1) ==> path@ == seq![from, g]
            &&& path@ == search_result(map, from, g)
        }),
        no_repeats(path@),
{
    let goal = patrol_goal(id, spawn_x, spawn_y);
    if map.walkable(goal.0, goal.1) {
        find_path(map, from, goal)
    } else {
        Vec::new()
    }
}


/// The patrol offset of the enemy with id `id` is `((3 id + 2) mod 5 - 2,
/// (7 id + 1) mod 5 - 2)`, so the offsets repeat every five ids.
pub proof fn lemma_patrol_offsets(id: int)
    requires
        0 <= id,
        id + 5 <= i32::MAX,
    ensures
        patrol_offset(id) == ((3 * id + 2) % 5 - 2, (7 * id + 1) % 5 - 2),
        patrol_offset(id + 5) == patrol_offset(id),
{
    assert((3 * (id + 5) + 2) % 5 == (3 * id + 2) % 5) by (nonlinear_arith)
        requires
            0 <= id,
    ;
    assert((7 * (id + 5) + 1) % 5 == (7 * id + 1) % 5) by (nonlinear_arith)
        requires
            0 <= id,
    ;
}

/// A patrol target is never more than two tiles from the spawn tile in
/// either axis, for an enemy that spawned off the map's border.
pub proof fn lemma_patrol_near_spawn(id: int, spawn_x: int, spawn_y: int)
    requires
        0 <= id <= i32::MAX,
        1 <= spawn_x <= MAP_W - 2,
        1 <= spawn_y <= MAP_H - 2,
    ensures
        -2 <= patrol_target(id, spawn_x, spawn_y).0 - spawn_x <= 2,
        -2 <= patrol_target(id, spawn_x, spawn_y).1 - spawn_y <= 2,
{
}

} // verus!
