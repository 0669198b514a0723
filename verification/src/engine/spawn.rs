use vstd::prelude::*;
use crate::engine::enemy::EnemyType;

verus! {

/// One enemy to be placed on the map.
#[derive(Clone, Copy, Debug, PartialEq, Eq, Structural)]
pub struct EnemySpawn {
    pub id: usize,
    pub x: i32,
    pub y: i32,
    pub enemy_type: EnemyType,
}

/// The wave number of a game and the counter that hands out enemy ids.
pub struct Spawner {
    pub wave_number: u32,
    pub enemy_id_counter: usize,
}

/// The enemies on the map when a game starts.
pub open spec fn initial_layout() -> Seq<(i32, i32, EnemyType)> {
    seq![
        (50, 10, EnemyType::Grunt),
        (52, 12, EnemyType::Grunt),
        (48, 14, EnemyType::Archer),
        (55, 30, EnemyType::Grunt),
        (50, 50, EnemyType::Brute),
        (45, 55, EnemyType::Grunt),
    ]
}

/// The tiles along the map's far edges where waves enter.
pub open spec fn spawn_ring() -> Seq<(i32, i32)> {
    seq![(55, 5), (58, 8), (55, 15), (58, 22), (55, 30), (58, 38), (55, 48), (48, 58), (35, 58), (22, 58)]
}

/// Grunts in wave `w`.
pub open spec fn wave_grunts(w: int) -> int {
    3 + w * 2
}

/// Archers in wave `w`.
pub open spec fn wave_archers(w: int) -> int {
    1 + w
}

/// Brutes in wave `w`: none before the second wave.
pub open spec fn wave_brutes(w: int) -> int {
    if w >= 2 {
        w - 1
    } else {
        0
    }
}

/// The size of wave `w`.
pub open spec fn wave_size(w: int) -> int {
    wave_grunts(w) + wave_archers(w) + wave_brutes(w)
}

/// The kind of the `k`-th enemy of wave `w`: grunts first, then archers, then brutes.
pub open spec fn wave_kind(w: int, k: int) -> EnemyType {
    if k < wave_grunts(w) {
        EnemyType::Grunt
    } else if k < wave_grunts(w) + wave_archers(w) {
        EnemyType::Archer
    } else {
        EnemyType::Brute
    }
}

/// The entry tile of the `k`-th enemy of wave `w`: wave `w` starts at ring
/// position `3w` and goes round the ring.
pub open spec fn wave_tile(w: int, k: int) -> (i32, i32) {
    spawn_ring()[(w * 3 % 10 + k) % 10]
}

/// The spawn ring as a value.
fn ring_tile(i: usize) -> (t: (i32, i32))
    requires
        i < 10,
    ensures
        t == spawn_ring()[i as int],
{
    if i == 0 {
        (55, 5)
    } else if i == 1 {
        (58, 8)
    } else if i == 2 {
        (55, 15)
    } else if i == 3 {
        (58, 22)
    } else if i == 4 {
        (55, 30)
    } else if i == 5 {
        (58, 38)
    } else if i == 6 {
        (55, 48)
    } else if i == 7 {
        (48, 58)
    } else if i == 8 {
        (35, 58)
    } else {
        (22, 58)
    }
}

impl Spawner {
    /// No wave yet, no enemy id handed out.
    pub fn new() -> (s: Self)
        ensures
            s.wave_number == 0,
            s.enemy_id_counter == 0,
    {
        Spawner { wave_number: 0, enemy_id_counter: 0 }
    }

    /// A fresh enemy id: one more than the last one handed out.
    pub fn next_enemy_id(&mut self) -> (id: usize)
        requires
            old(self).enemy_id_counter < usize::MAX,
        ensures
            id == old(self).enemy_id_counter + 1,
            final(self).enemy_id_counter == id,
            final(self).wave_number == old(self).wave_number,
    {
        self.enemy_id_counter = self.enemy_id_counter + 1;
        self.enemy_id_counter
    }

    /// The enemies that hold the map when a game starts, each with a fresh id.
    pub fn spawn_initial_enemies(&mut self) -> (r: Vec<EnemySpawn>)
        requires
            old(self).enemy_id_counter + 6 <= usize::MAX,
        ensures
            r.len() == 6,
            forall|k: int| #![trigger r@[k]] 0 <= k < 6 ==> r@[k].id == old(self).enemy_id_counter + 1 + k
                && r@[k].x == initial_layout()[k].0 && r@[k].y == initial_layout()[k].1
                && r@[k].enemy_type == initial_layout()[k].2,
            final(self).enemy_id_counter == old(self).enemy_id_counter + 6,
            final(self).wave_number == old(self).wave_number,
    {
        let mut r: Vec<EnemySpawn> = Vec::new();
        let id = self.next_enemy_id();
        r.push(EnemySpawn { id, x: 50, y: 10, enemy_type: EnemyType::Grunt });
        let id = self.next_enemy_id();
        r.push(EnemySpawn { id, x: 52, y: 12, enemy_type: EnemyType::Grunt });
        let id = self.next_enemy_id();
        r.push(EnemySpawn { id, x: 48, y: 14, enemy_type: EnemyType::Archer });
        let id = self.next_enemy_id();
        r.push(EnemySpawn { id, x: 55, y: 30, enemy_type: EnemyType::Grunt });
        let id = self.next_enemy_id();
        r.push(EnemySpawn { id, x: 50, y: 50, enemy_type: EnemyType::Brute });
        let id = self.next_enemy_id();
        r.push(EnemySpawn { id, x: 45, y: 55, enemy_type: EnemyType::Grunt });
        r
    }

    /// Adds `count` enemies of kind `t` to `out`, each with a fresh id, placed
    /// round the spawn ring from position `si`.
    fn add_group(&mut self, out: &mut Vec<EnemySpawn>, count: u32, t: EnemyType, si: &mut usize)
        requires
            *old(si) < 10,
            old(self).enemy_id_counter + count <= usize::MAX,
        ensures
            final(out)@.len() == old(out)@.len() + count,
            forall|k: int| 0 <= k < old(out)@.len() ==> #[trigger] final(out)@[k] == old(out)@[k],
            forall|k: int| #![trigger final(out)@[k]] old(out)@.len() <= k < final(out)@.len() ==> {
                let j = k - old(out)@.len();
                &&& final(out)@[k].id == old(self).enemy_id_counter + 1 + j
                &&& (final(out)@[k].x, final(out)@[k].y) == spawn_ring()[(*old(si) + j) % 10]
                &&& final(out)@[k].enemy_type == t
            },
            *final(si) == (*old(si) + count) % 10,
            final(self).enemy_id_counter == old(self).enemy_id_counter + count,
            final(self).wave_number == old(self).wave_number,
    {
        let ghost out0 = out@;
        let ghost si0 = *si;
        let ghost c0 = self.enemy_id_counter;
        let mut n: u32 = 0;
        while n < count
            invariant
                n <= count,
                c0 + count <= usize::MAX,
                si0 < 10,
                *si < 10,
                *si == (si0 + n) % 10,
                self.enemy_id_counter == c0 + n,
                self.wave_number == old(self).wave_number,
                out@.len() == out0.len() + n,
                forall|k: int| 0 <= k < out0.len() ==> #[trigger] out@[k] == out0[k],
                forall|k: int| #![trigger out@[k]] out0.len() <= k < out@.len() ==> {
                    let j = k - out0.len();
                    &&& out@[k].id == c0 + 1 + j
                    &&& (out@[k].x, out@[k].y) == spawn_ring()[(si0 + j) % 10]
                    &&& out@[k].enemy_type == t
                },
            decreases count - n,
        {
            let (x, y) = ring_tile(*si);
            *si = (*si + 1) % 10;
            let id = self.next_enemy_id();
            out.push(EnemySpawn { id, x, y, enemy_type: t });
            n = n + 1;
            proof {
                assert((si0 + n) % 10 == ((si0 + (n - 1)) % 10 + 1) % 10) by (nonlinear_arith);
            }
        }
    }

    /// Starts the next wave: the wave number goes up by one and wave `w`
    /// brings `3 + 2w` grunts, `1 + w` archers and, from the second wave on,
    /// `w - 1` brutes, in that order, each with a fresh id, entering round the
    /// spawn ring from position `3w`.
    pub fn spawn_wave(&mut self) -> (r: Vec<EnemySpawn>)
        requires
            old(self).wave_number < 2_147_483_646,
            old(self).enemy_id_counter + wave_size(old(self).wave_number + 1) <= usize::MAX,
        ensures
            final(self).wave_number == old(self).wave_number + 1,
            r.len() == wave_size(final(self).wave_number as int),
            forall|k: int| #![trigger r@[k]] 0 <= k < r.len() ==> {
                &&& r@[k].id == old(self).enemy_id_counter + 1 + k
                &&& (r@[k].x, r@[k].y) == wave_tile(final(self).wave_number as int, k)
                &&& r@[k].enemy_type == wave_kind(final(self).wave_number as int, k)
            },
            final(self).enemy_id_counter == old(self).enemy_id_counter + r.len(),
    {
        self.wave_number = self.wave_number + 1;
        let w = self.wave_number;
        let n_grunts = 3 + w * 2;
        let n_archers = 1 + w;
        let n_brutes = if w >= 2 { w - 1 } else { 0 };
        let mut si: usize = ((w as u64 * 3) % 10) as usize;
        let ghost si0 = si as int;
        let ghost c0 = self.enemy_id_counter as int;
        let mut r: Vec<EnemySpawn> = Vec::new();
        self.add_group(&mut r, n_grunts, EnemyType::Grunt, &mut si);
        let ghost r1 = r@;
        self.add_group(&mut r, n_archers, EnemyType::Archer, &mut si);
        let ghost r2 = r@;
        self.add_group(&mut r, n_brutes, EnemyType::Brute, &mut si);
        proof {
            let g = n_grunts as int;
            let a = n_archers as int;
            assert forall|k: int| #![trigger r@[k]] 0 <= k < r.len() implies {
                &&& r@[k].id == c0 + 1 + k
                &&& (r@[k].x, r@[k].y) == wave_tile(w as int, k)
                &&& r@[k].enemy_type == wave_kind(w as int, k)
            } by {
                assert(si0 == w * 3 % 10);
                if k < g {
                    assert(r@[k] == r2[k]);
                    assert(r2[k] == r1[k]);
                } else if k < g + a {
                    assert(r@[k] == r2[k]);
                    assert((si0 + g) % 10 < 10);
                    assert(((si0 + g) % 10 + (k - g)) % 10 == (si0 + k) % 10) by (nonlinear_arith)
                        requires
                            0 <= si0,
                            0 <= g <= k;
                } else {
                    assert(((si0 + g) % 10 + a) % 10 == (si0 + g + a) % 10) by (nonlinear_arith)
                        requires
                            0 <= si0,
                            0 <= g,
                            0 <= a;
                    assert(((si0 + g + a) % 10 + (k - g - a)) % 10 == (si0 + k) % 10) by (nonlinear_arith)
                        requires
                            0 <= si0,
                            0 <= g + a <= k;
                }
            }
        }
        r
    }
}


/// The make-up of wave `w`: `3 + 2w` grunts first, then `w + 1` archers,
/// then `w - 1` brutes from the second wave on (none before).
pub proof fn lemma_wave_makeup(w: int, k: int)
    requires
        1 <= w,
        0 <= k,
    ensures
        wave_size(w) == (if w >= 2 { 3 + 4 * w } else { 7int }),
        k < 3 + 2 * w ==> wave_kind(w, k) == EnemyType::Grunt,
        3 + 2 * w <= k < 4 + 3 * w ==> wave_kind(w, k) == EnemyType::Archer,
        4 + 3 * w <= k ==> wave_kind(w, k) == EnemyType::Brute,
{
}

/// Where waves enter: the `k`-th enemy of wave `w` comes in at position
/// `(3w + k) mod 10` of the ten entry tiles (55, 5), (58, 8), (55, 15),
/// (58, 22), (55, 30), (58, 38), (55, 48), (48, 58), (35, 58), (22, 58),
/// which lie along the map's east edge (x of 55 or 58) and south edge
/// (y of 58); the first enemy of wave `w` enters at position `3w mod 10`.
pub proof fn lemma_wave_entry(w: int, k: int)
    requires
        0 <= w,
        0 <= k,
    ensures
        wave_tile(w, k) == seq![
            (55i32, 5i32),
            (58i32, 8i32),
            (55i32, 15i32),
            (58i32, 22i32),
            (55i32, 30i32),
            (58i32, 38i32),
            (55i32, 48i32),
            (48i32, 58i32),
            (35i32, 58i32),
            (22i32, 58i32),
        ][(3 * w + k) % 10],
        wave_tile(w, 0) == wave_tile(w + 10, 0),
        (wave_tile(w, k).0 == 55 || wave_tile(w, k).0 == 58) && wave_tile(w, k).1 < 58 || wave_tile(w, k).1 == 58
            && wave_tile(w, k).0 <= 48,
{
    assert((w * 3 % 10 + k) % 10 == (3 * w + k) % 10) by (nonlinear_arith)
        requires
            0 <= w,
            0 <= k,
    ;
    assert(((w + 10) * 3 % 10) % 10 == (w * 3 % 10) % 10) by (nonlinear_arith)
        requires
            0 <= w,
    ;
    let r = (3 * w + k) % 10;
    assert(0 <= r < 10);
}

/// Every wave is at least three enemies larger than the one before.
pub proof fn lemma_waves_grow(w: int)
    requires
        w >= 1,
    ensures
        wave_size(w + 1) >= wave_size(w) + 3,
        wave_size(w) == 4 + 3 * w + wave_brutes(w),
{
}

/// Ids handed out by two successive batches never collide: the first batch
/// takes the `n1` ids after the counter, the second the `n2` after those.
pub proof fn lemma_batch_ids_disjoint(counter: int, n1: int, n2: int, k1: int, k2: int)
    requires
        0 <= k1 < n1,
        0 <= k2 < n2,
    ensures
        counter + 1 + k1 != (counter + n1) + 1 + k2,
        counter + 1 + k1 < (counter + n1) + 1 + k2,
{
}

} // verus!
