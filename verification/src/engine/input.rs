use vstd::prelude::*;
use crate::engine::map::{TileMap, MAP_W, MAP_H};
use crate::engine::pathfinding::{find_path, is_step, is_walk, no_repeats, reachable, search_result};
use crate::engine::combat::{clamp_int, trunc_div, trunc_rem};

verus! {

/// Where the `i`-th of `n` selected units stands relative to the clicked
/// tile: a single unit goes to the tile itself; a group spreads over rows of
/// three, centred on the clicked column and running down from the clicked row.
/// The position `i` is taken as an `i32`, as the game does.
pub open spec fn formation_offset(i: int, n: int) -> (int, int) {
    let k = (i as i32) as int;
    if n > 1 {
        (trunc_rem(k, 3) - 1, trunc_div(k, 3))
    } else {
        (0, 0)
    }
}

/// The formation slot of the `i`-th of `n` units around `(tx, ty)`, kept off the map's border.
pub open spec fn formation_slot(tx: int, ty: int, i: int, n: int) -> (int, int) {
    let off = formation_offset(i, n);
    (clamp_int(tx + off.0, 1, MAP_W - 2), clamp_int(ty + off.1, 1, MAP_H - 2))
}

/// The goal of the `i`-th of `n` units ordered to `(tx, ty)`: its formation
/// slot when that is walkable, else the clicked tile.
pub open spec fn formation_target(map: &TileMap, tx: int, ty: int, i: int, n: int) -> (i32, i32) {
    let s = formation_slot(tx, ty, i, n);
    if map.walkable_at(s.0, s.1) {
        (s.0 as i32, s.1 as i32)
    } else {
        (tx as i32, ty as i32)
    }
}

/// The goal tile of the `i`-th of `n` selected units ordered to move to `(tx, ty)`.
pub fn formation_goal(map: &TileMap, tx: i32, ty: i32, i: usize, n: usize) -> (r: (i32, i32))
    requires
        map.wf(),
        i < n,
        i32::MIN <= tx + formation_offset(i as int, n as int).0 <= i32::MAX,
        i32::MIN <= ty + formation_offset(i as int, n as int).1 <= i32::MAX,
    ensures
        r == formation_target(map, tx as int, ty as int, i as int, n as int),
{
    let ii = i as i32;
    let off_x = if n > 1 { (ii % 3) - 1 } else { 0 };
    let off_y = if n > 1 { ii / 3 } else { 0 };
    let gx = tx + off_x;
    let gy = ty + off_y;
    let gtx = if gx < 1 { 1 } else if gx > MAP_W - 2 { MAP_W - 2 } else { gx };
    let gty = if gy < 1 { 1 } else if gy > MAP_H - 2 { MAP_H - 2 } else { gy };
    if map.walkable(gtx, gty) {
        (gtx, gty)
    } else {
        (tx, ty)
    }
}

/// The paths of a group move: `starts[i]` is the tile of the `i`-th selected
/// unit, and entry `i` of the result is its path to its formation goal
/// around `(tx, ty)` (empty when it cannot or need not move).
pub fn plan_formation_move(map: &TileMap, tx: i32, ty: i32, starts: &Vec<(i32, i32)>) -> (paths: Vec<
    Vec<(i32, i32)>,
>)
    requires
        map.wf(),
        forall|i: int|
            0 <= i < starts.len() ==> i32::MIN <= tx + #[trigger] formation_offset(i, starts.len() as int).0
                <= i32::MAX && i32::MIN <= ty + formation_offset(i, starts.len() as int).1 <= i32::MAX,
        forall|i: int|
            0 <= i < starts.len() ==> ({
                let goal = formation_target(map, tx as int, ty as int, i, starts.len() as int);
                map.walkable_at(goal.0 as int, goal.1 as int) && #[trigger] starts@[i] != goal ==> i32::MIN
                    < starts@[i].0 < i32::MAX && i32::MIN < starts@[i].1 < i32::MAX
            }),
    ensures
        paths.len() == starts.len(),
        forall|i: int|
            #![trigger paths@[i]]
            0 <= i < starts.len() ==> {
                let goal = formation_target(map, tx as int, ty as int, i, starts.len() as int);
                let p = paths@[i]@;
                &&& p.len() == 0 <==> (!map.walkable_at(goal.0 as int, goal.1 as int) || starts@[i]
                    == goal || !reachable(map, starts@[i], goal))
                &&& p.len() > 0 ==> is_walk(map, p) && p[0] == starts@[i] && p.last() == goal
                &&& no_repeats(p)
                &&& is_step(starts@[i], goal) && map.walkable_at(goal.0 as int, goal.1 as int)
                    ==> p == seq![starts@[i], goal]
                &&& p == search_result(map, starts@[i], goal)
            },
{
    let n = starts.len();
    let mut paths: Vec<Vec<(i32, i32)>> = Vec::new();
    let mut i: usize = 0;
    while i < n
        invariant
            n == starts.len(),
            map.wf(),
            forall|j: int|
                0 <= j < n ==> i32::MIN <= tx + #[trigger] formation_offset(j, n as int).0 <= i32::MAX && i32::MIN
                    <= ty + formation_offset(j, n as int).1 <= i32::MAX,
            forall|j: int|
                0 <= j < starts.len() ==> ({
                    let goal = formation_target(map, tx as int, ty as int, j, n as int);
                    map.walkable_at(goal.0 as int, goal.1 as int) && #[trigger] starts@[j] != goal ==> i32::MIN
                        < starts@[j].0 < i32::MAX && i32::MIN < starts@[j].1 < i32::MAX
                }),
            i <= n,
            paths.len() == i,
            forall|j: int|
                #![trigger paths@[j]]
                0 <= j < i ==> {
                    let goal = formation_target(map, tx as int, ty as int, j, n as int);
                    let p = paths@[j]@;
                    &&& p.len() == 0 <==> (!map.walkable_at(goal.0 as int, goal.1 as int) || starts@[j]
                        == goal || !reachable(map, starts@[j], goal))
                    &&& p.len() > 0 ==> is_walk(map, p) && p[0] == starts@[j] && p.last() == goal
                    &&& no_repeats(p)
                    &&& is_step(starts@[j], goal) && map.walkable_at(goal.0 as int, goal.1 as int)
                        ==> p == seq![starts@[j], goal]
                    &&& p == search_result(map, starts@[j], goal)
                },
        decreases n - i,
    {
        assert(i32::MIN <= tx + formation_offset(i as int, n as int).0 <= i32::MAX);
        let goal = formation_goal(map, tx, ty, i, n);
        let start = starts[i];
        assert(map.walkable_at(goal.0 as int, goal.1 as int) && start != goal ==> i32::MIN < start.0
            < i32::MAX && i32::MIN < start.1 < i32::MAX);
        let path = find_path(map, start, goal);
        paths.push(path);
        i = i + 1;
    }
    paths
}


/// In a group of `n > 1` units, the unit at position `i` takes column
/// `i mod 3 - 1` and row `i / 3` relative to the clicked tile, so any two
/// units of the group get different formation slots before the slots are
/// kept off the border; when both slots are on open ground away from the
/// border, the two units are sent to different tiles.
pub proof fn lemma_formation_slots_distinct(map: &TileMap, tx: int, ty: int, i: int, j: int, n: int)
    requires
        n > 1,
        0 <= i < n,
        0 <= j < n,
        i != j,
        n <= i32::MAX,
    ensures
        formation_offset(i, n) == (i % 3 - 1, i / 3),
        formation_offset(i, n) != formation_offset(j, n),
        ({
            let si = (tx + i % 3 - 1, ty + i / 3);
            let sj = (tx + j % 3 - 1, ty + j / 3);
            1 <= si.0 <= MAP_W - 2 && 1 <= si.1 <= MAP_H - 2 && 1 <= sj.0 <= MAP_W - 2 && 1 <= sj.1 <= MAP_H - 2
                && map.walkable_at(si.0, si.1) && map.walkable_at(sj.0, sj.1) ==> formation_target(map, tx, ty, i, n)
                != formation_target(map, tx, ty, j, n)
        }),
{
    assert((i as i32) as int == i);
    assert((j as i32) as int == j);
    assert(i == 3 * (i / 3) + i % 3);
    assert(j == 3 * (j / 3) + j % 3);
}

/// The formation of a group fans out one column either side of the clicked
/// column and runs down from the clicked row, three units to a row.
pub proof fn lemma_formation_shape(i: int, n: int)
    requires
        0 <= i < n,
        i <= i32::MAX,
    ensures
        -1 <= formation_offset(i, n).0 <= 1,
        0 <= formation_offset(i, n).1 <= i / 3,
        n == 1 ==> formation_offset(i, n) == (0int, 0int),
{
}

} // verus!
