use vstd::prelude::*;
use crate::engine::map::{TileMap, layout_tile};
use crate::engine::pathfinding::{is_step, is_walk, no_repeats, walk_step};

verus! {

/// The kinds of player unit.
#[derive(Clone, Copy, PartialEq, Eq, Structural, Debug)]
pub enum UnitType {
    Warrior,
    Archer,
    Scout,
}

impl UnitType {
    /// The display name of the kind.
    pub fn name(&self) -> (s: &'static str)
        ensures
            s@ == (match self {
                UnitType::Warrior => "Warrior"@,
                UnitType::Archer => "Archer"@,
                UnitType::Scout => "Scout"@,
            }),
    {
        match self {
            UnitType::Warrior => "Warrior",
            UnitType::Archer => "Archer",
            UnitType::Scout => "Scout",
        }
    }
}

/// The symbol that stands for a unit kind in lists and cards.
pub fn unit_icon(t: &UnitType) -> (s: &'static str)
    ensures
        s@ == (match t {
            UnitType::Warrior => "⚔"@,
            UnitType::Archer => "🏹"@,
            UnitType::Scout => "◈"@,
        }),
{
    match t {
        UnitType::Warrior => "⚔",
        UnitType::Archer => "🏹",
        UnitType::Scout => "◈",
    }
}

/// One player unit to be placed on the map at the start of a game.
#[derive(Clone, Copy, Debug, PartialEq, Eq, Structural)]
pub struct UnitSpawn {
    pub id: usize,
    pub x: i32,
    pub y: i32,
    pub unit_type: UnitType,
}

/// The player's starting force: two warriors, two archers and a scout in
/// two rows near the top-left corner, with ids 0 to 4.
pub open spec fn starting_layout() -> Seq<UnitSpawn> {
    seq![
        UnitSpawn { id: 0, x: 5, y: 5, unit_type: UnitType::Warrior },
        UnitSpawn { id: 1, x: 7, y: 5, unit_type: UnitType::Archer },
        UnitSpawn { id: 2, x: 9, y: 5, unit_type: UnitType::Scout },
        UnitSpawn { id: 3, x: 5, y: 7, unit_type: UnitType::Warrior },
        UnitSpawn { id: 4, x: 7, y: 7, unit_type: UnitType::Archer },
    ]
}

/// The units the player starts a game with.
pub fn starting_units() -> (r: Vec<UnitSpawn>)
    ensures
        r@ == starting_layout(),
{
    let mut r: Vec<UnitSpawn> = Vec::new();
    r.push(UnitSpawn { id: 0, x: 5, y: 5, unit_type: UnitType::Warrior });
    r.push(UnitSpawn { id: 1, x: 7, y: 5, unit_type: UnitType::Archer });
    r.push(UnitSpawn { id: 2, x: 9, y: 5, unit_type: UnitType::Scout });
    r.push(UnitSpawn { id: 3, x: 5, y: 7, unit_type: UnitType::Warrior });
    r.push(UnitSpawn { id: 4, x: 7, y: 7, unit_type: UnitType::Archer });
    assert(r@ =~= starting_layout());
    r
}

/// Every starting unit stands on walkable ground of the game map, on a tile
/// of its own, with an id of its own.
pub proof fn lemma_starting_units_placed()
    ensures
        forall|k: int| 0 <= k < 5 ==> #[trigger] layout_tile(starting_layout()[k].x as int, starting_layout()[k].y as int).is_walkable(),
        forall|j: int, k: int| 0 <= j < k < 5 ==> starting_layout()[j].id != starting_layout()[k].id
            && (starting_layout()[j].x, starting_layout()[j].y) != (starting_layout()[k].x, starting_layout()[k].y),
{
    assert(layout_tile(5, 5).is_walkable());
    assert(layout_tile(7, 5).is_walkable());
    assert(layout_tile(9, 5).is_walkable());
    assert(layout_tile(5, 7).is_walkable());
    assert(layout_tile(7, 7).is_walkable());
}

/// The path a unit keeps of a planned path: the first tile of a planned path
/// is the one the unit stands on, so it is dropped when more follow.
pub open spec fn kept_path(p: Seq<(i32, i32)>) -> Seq<(i32, i32)> {
    if p.len() > 1 {
        p.subrange(1, p.len() as int)
    } else {
        p
    }
}

/// The path a unit follows after an order along the planned path `path`.
pub fn remaining_path(path: Vec<(i32, i32)>) -> (r: Vec<(i32, i32)>)
    ensures
        r@ == kept_path(path@),
{
    if path.len() > 1 {
        let mut r: Vec<(i32, i32)> = Vec::new();
        let mut i: usize = 1;
        while i < path.len()
            invariant
                1 <= i <= path@.len(),
                r@ == path@.subrange(1, i as int),
            decreases path@.len() - i,
        {
            r.push(path[i]);
            i = i + 1;
        }
        r
    } else {
        path
    }
}

/// The tile-level state of a player unit: the tile it stands on, whether it
/// is selected, the tiles it still has to walk and the enemy it attacks.
#[derive(Clone, Debug)]
pub struct UnitState {
    pub x: i32,
    pub y: i32,
    pub selected: bool,
    pub path: Vec<(i32, i32)>,
    pub attacking: bool,
    pub attack_target: Option<usize>,
}

impl UnitState {
    /// A unit standing idle and unselected on `(x, y)`.
    pub fn new(x: i32, y: i32) -> (u: Self)
        ensures
            u.x == x,
            u.y == y,
            !u.selected,
            u.path@.len() == 0,
            !u.attacking,
            u.attack_target is None,
    {
        UnitState { x, y, selected: false, path: Vec::new(), attacking: false, attack_target: None }
    }

    /// The tile the unit stands on.
    pub fn tile_pos(&self) -> (t: (i32, i32))
        ensures
            t == (self.x, self.y),
    {
        (self.x, self.y)
    }

    /// Gives the unit a move order along the planned path `path`: the unit
    /// keeps the path without the tile it stands on and stops attacking; it
    /// stays where it is and keeps its selection.
    pub fn set_path(&mut self, path: Vec<(i32, i32)>)
        ensures
            final(self).path@ == kept_path(path@),
            !final(self).attacking,
            final(self).attack_target is None,
            final(self).x == old(self).x,
            final(self).y == old(self).y,
            final(self).selected == old(self).selected,
    {
        self.path = remaining_path(path);
        self.attacking = false;
        self.attack_target = None;
    }

    /// Stops the unit: it drops its path and its attack, and stays where it
    /// is with its selection.
    pub fn stop(&mut self)
        ensures
            final(self).path@.len() == 0,
            !final(self).attacking,
            final(self).attack_target is None,
            final(self).x == old(self).x,
            final(self).y == old(self).y,
            final(self).selected == old(self).selected,
    {
        self.path = Vec::new();
        self.attacking = false;
        self.attack_target = None;
    }

    /// The unit reaches the next tile of its path: it now stands there and
    /// that tile leaves the path.
    pub fn arrive(&mut self)
        requires
            old(self).path@.len() > 0,
        ensures
            (final(self).x, final(self).y) == old(self).path@[0],
            final(self).path@ == old(self).path@.drop_first(),
            final(self).selected == old(self).selected,
            final(self).attacking == old(self).attacking,
            final(self).attack_target == old(self).attack_target,
    {
        let next = self.path.remove(0);
        self.x = next.0;
        self.y = next.1;
    }
}

/// A move order along a planned walk from the unit's tile `from` to a
/// different tile `goal` leaves the unit a path that starts one king move
/// from `from`, is itself a walk, ends on `goal`, holds no tile twice and
/// never holds `from`.
pub proof fn lemma_ordered_path(map: &TileMap, from: (i32, i32), goal: (i32, i32), p: Seq<(i32, i32)>)
    requires
        is_walk(map, p),
        p[0] == from,
        p.last() == goal,
        no_repeats(p),
        from != goal,
    ensures
        kept_path(p).len() == p.len() - 1,
        kept_path(p).len() >= 1,
        is_step(from, kept_path(p)[0]),
        is_walk(map, kept_path(p)),
        kept_path(p).last() == goal,
        no_repeats(kept_path(p)),
        !kept_path(p).contains(from),
{
    let r = kept_path(p);
    assert(p.len() > 1);
    assert(walk_step(map, p, 0));
    assert forall|i: int| 0 <= i < r.len() - 1 implies #[trigger] walk_step(map, r, i) by {
        assert(walk_step(map, p, i + 1));
    }
    if r.contains(from) {
        let j = choose|j: int| 0 <= j < r.len() && r[j] == from;
        assert(p[j + 1] == p[0]);
    }
}

} // verus!
