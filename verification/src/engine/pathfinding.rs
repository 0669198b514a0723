use vstd::prelude::*;
use crate::engine::map::{TileMap, Tile, in_map, tile_index, MAP_W, MAP_H};

verus! {

broadcast use {vstd::seq_lib::group_to_multiset_ensures, vstd::multiset::group_multiset_axioms};

/// An upper bound on the size of the open set, far above what a search on the map reaches.
const HEAP_LIMIT: usize = 1_000_000_000;

/// An entry of the open set: a tile and its estimated total cost.
#[derive(Clone, Copy)]
pub struct Node {
    pub cost: i32,
    pub pos: (i32, i32),
}

/// `h` with the entries at `a` and `b` exchanged.
pub open spec fn swap_entries(h: Seq<Node>, a: int, b: int) -> Seq<Node> {
    h.update(a, h[b]).update(b, h[a])
}

/// The open set after the entry at `pos` moves up past every parent that
/// costs more than it.
pub open spec fn sift_up_spec(h: Seq<Node>, pos: int) -> Seq<Node>
    decreases pos,
{
    if pos <= 0 {
        h
    } else {
        let up = (pos - 1) / 2;
        if h[pos].cost >= h[up].cost {
            h
        } else {
            sift_up_spec(swap_entries(h, pos, up), up)
        }
    }
}

/// The open set and the final place of the entry at `pos` after it sinks to
/// a leaf, always to the cheaper child (the right one on equal cost).
pub open spec fn sink_spec(h: Seq<Node>, pos: int) -> (Seq<Node>, int)
    decreases h.len() - pos,
{
    let end = h.len();
    let child = 2 * pos + 1;
    if 0 <= pos && end >= 2 && child <= end - 2 {
        let c = if h[child].cost >= h[child + 1].cost { child + 1 } else { child };
        sink_spec(swap_entries(h, pos, c), c)
    } else if child == end - 1 {
        (swap_entries(h, pos, child), child)
    } else {
        (h, pos)
    }
}

/// The open set after its root sinks to a leaf and comes back up.
pub open spec fn settle_root_spec(h: Seq<Node>) -> Seq<Node> {
    sift_up_spec(sink_spec(h, 0).0, sink_spec(h, 0).1)
}

/// The open set after `n` is added.
pub open spec fn push_spec(h: Seq<Node>, n: Node) -> Seq<Node> {
    sift_up_spec(h.push(n), h.len() as int)
}

/// The entry taken from a non-empty open set, and the open set after it:
/// the root goes, the last entry takes its place and settles.
pub open spec fn pop_spec(h: Seq<Node>) -> (Node, Seq<Node>) {
    let item = h.last();
    let rest = h.drop_last();
    if rest.len() > 0 {
        (h[0], settle_root_spec(rest.update(0, item)))
    } else {
        (item, rest)
    }
}

/// The index of the parent of entry `i` of a heap.
spec fn parent(i: int) -> int {
    (i - 1) / 2
}

/// The entry at `i` costs no less than its parent.
spec fn edge_ok(h: Seq<Node>, i: int) -> bool {
    h[parent(i)].cost <= h[i].cost
}

/// Every entry of `h` costs no less than its parent.
spec fn heap_ok(h: Seq<Node>) -> bool {
    forall|i: int| 0 < i < h.len() ==> #[trigger] edge_ok(h, i)
}

/// `h` is a heap but for the entry at `pos`, which may be cheaper than its
/// parent; the parent of `pos` costs no more than the children of `pos`.
spec fn heap_above(h: Seq<Node>, pos: int) -> bool {
    &&& forall|i: int| 0 < i < h.len() && i != pos ==> #[trigger] edge_ok(h, i)
    &&& forall|c: int| 0 < c < h.len() && parent(c) == pos && pos > 0 ==> h[parent(pos)].cost <= #[trigger] h[c].cost
}

/// `h` is a heap but for the entry at `pos`, which may cost more than its
/// children or less than its parent; the parent of `pos` costs no more than
/// the children of `pos`.
spec fn heap_around(h: Seq<Node>, pos: int) -> bool {
    &&& forall|i: int| 0 < i < h.len() && i != pos && parent(i) != pos ==> #[trigger] edge_ok(h, i)
    &&& forall|c: int| 0 < c < h.len() && parent(c) == pos && pos > 0 ==> h[parent(pos)].cost <= #[trigger] h[c].cost
}

/// The root of a heap is one of its cheapest entries.
proof fn lemma_root_cheapest(h: Seq<Node>, i: int)
    requires
        heap_ok(h),
        0 <= i < h.len(),
    ensures
        h[0].cost <= h[i].cost,
    decreases i,
{
    if i > 0 {
        assert(edge_ok(h, i));
        lemma_root_cheapest(h, parent(i));
    }
}

/// Exchanges two entries of the heap's storage.
fn swap_nodes(h: &mut Vec<Node>, a: usize, b: usize)
    requires
        a < old(h).len(),
        b < old(h).len(),
    ensures
        final(h)@ == old(h)@.update(a as int, old(h)@[b as int]).update(b as int, old(h)@[a as int]),
        final(h)@.to_multiset() == old(h)@.to_multiset(),
{
    let ghost s = h@;
    let na = h[a];
    let nb = h[b];
    h[a] = nb;
    h[b] = na;
    proof {
        let s1 = s.update(a as int, s[b as int]);
        assert(s1.to_multiset() == s.to_multiset().insert(s[b as int]).remove(s[a as int]));
        assert(h@.to_multiset() == s1.to_multiset().insert(s[a as int]).remove(s1[b as int]));
        assert(h@.to_multiset() =~= s.to_multiset());
    }
}

/// Moves the entry at `pos` up while it is cheaper than its parent; an entry
/// stops below a parent of equal cost.
fn sift_up(h: &mut Vec<Node>, pos: usize)
    requires
        pos < old(h).len(),
        heap_above(old(h)@, pos as int),
    ensures
        final(h)@.len() == old(h)@.len(),
        final(h)@.to_multiset() == old(h)@.to_multiset(),
        heap_ok(final(h)@),
        final(h)@ == sift_up_spec(old(h)@, pos as int),
{
    let ghost pos0 = pos as int;
    let mut at = pos;
    while at > 0
        invariant
            pos0 == pos as int,
            sift_up_spec(h@, at as int) == sift_up_spec(old(h)@, pos0),
            at < h@.len(),
            h@.len() == old(h)@.len(),
            h@.to_multiset() == old(h)@.to_multiset(),
            heap_above(h@, at as int),
        decreases at,
    {
        let up = (at - 1) / 2;
        if h[at].cost >= h[up].cost {
            proof {
                assert(sift_up_spec(h@, at as int) == h@);
                assert forall|i: int| 0 < i < h@.len() implies #[trigger] edge_ok(h@, i) by {
                    if i == at {
                    }
                }
            }
            return;
        }
        let ghost s = h@;
        swap_nodes(h, at, up);
        proof {
            let t = h@;
            let p = up as int;
            let q = at as int;
            assert forall|i: int| 0 < i < t.len() && i != p implies #[trigger] edge_ok(t, i) by {
                if i == q {
                } else if parent(i) == q {
                    assert(s[p].cost <= s[i].cost);
                } else if parent(i) == p {
                    assert(edge_ok(s, i));
                } else {
                    assert(edge_ok(s, i));
                }
            }
            assert forall|c: int| 0 < c < t.len() && parent(c) == p && p > 0 implies t[parent(p)].cost
                <= #[trigger] t[c].cost by {
                assert(edge_ok(s, p));
                if c != q {
                    assert(edge_ok(s, c));
                }
            }
        }
        at = up;
    }
    proof {
        assert forall|i: int| 0 < i < h@.len() implies #[trigger] edge_ok(h@, i) by {
        }
    }
}

/// Moves the entry at the root down to a leaf, always along the cheaper child
/// (the right one on equal cost), then back up to its place.
fn sift_down_to_bottom(h: &mut Vec<Node>)
    requires
        0 < old(h).len() < HEAP_LIMIT,
        heap_around(old(h)@, 0),
    ensures
        final(h)@.len() == old(h)@.len(),
        final(h)@.to_multiset() == old(h)@.to_multiset(),
        heap_ok(final(h)@),
        final(h)@ == settle_root_spec(old(h)@),
{
    let end = h.len();
    let mut pos: usize = 0;
    let mut child: usize = 1;
    while end >= 2 && child <= end - 2
        invariant
            sink_spec(h@, pos as int) == sink_spec(old(h)@, 0),
            end == h@.len(),
            1 <= end < HEAP_LIMIT,
            pos < end,
            child == 2 * pos + 1,
            h@.to_multiset() == old(h)@.to_multiset(),
            heap_around(h@, pos as int),
        decreases end - pos,
    {
        if h[child].cost >= h[child + 1].cost {
            child = child + 1;
        }
        let ghost s = h@;
        swap_nodes(h, pos, child);
        proof {
            lemma_sink_step(s, h@, pos as int, child as int);
        }
        pos = child;
        child = 2 * pos + 1;
    }
    if child == end - 1 {
        let ghost s = h@;
        swap_nodes(h, pos, child);
        proof {
            lemma_sink_step(s, h@, pos as int, child as int);
        }
        pos = child;
    }
    proof {
        let t = h@;
        let q = pos as int;
        assert forall|i: int| 0 < i < t.len() && i != q implies #[trigger] edge_ok(t, i) by {
            assert(parent(i) != q) by {
                if parent(i) == q {
                    assert(i >= 2 * q + 1);
                }
            }
        }
        assert forall|c: int| 0 < c < t.len() && parent(c) == q && q > 0 implies t[parent(q)].cost
            <= #[trigger] t[c].cost by {
            assert(c >= 2 * q + 1);
        }
    }
    sift_up(h, pos);
}

/// Swapping the sinking entry at `pos` with its cheaper child `c` keeps the
/// heap intact around the new place of the sinking entry.
proof fn lemma_sink_step(s: Seq<Node>, t: Seq<Node>, pos: int, c: int)
    requires
        0 <= pos < c < s.len(),
        parent(c) == pos,
        heap_around(s, pos),
        t == s.update(pos, s[c]).update(c, s[pos]),
        forall|d: int| 0 < d < s.len() && parent(d) == pos ==> s[c].cost <= #[trigger] s[d].cost,
    ensures
        heap_around(t, c),
{
    assert forall|i: int| 0 < i < t.len() && i != c && parent(i) != c implies #[trigger] edge_ok(t, i) by {
        if i == pos {
            assert(s[parent(pos)].cost <= s[c].cost);
        } else if parent(i) == pos {
            assert(s[c].cost <= s[i].cost);
        } else {
            assert(edge_ok(s, i));
        }
    }
    assert forall|d: int| 0 < d < t.len() && parent(d) == c && c > 0 implies t[parent(c)].cost
        <= #[trigger] t[d].cost by {
        assert(edge_ok(s, d));
    }
}

/// Adds an entry to the open set.
fn heap_push(h: &mut Vec<Node>, n: Node)
    requires
        heap_ok(old(h)@),
    ensures
        final(h)@.len() == old(h)@.len() + 1,
        final(h)@.to_multiset() == old(h)@.to_multiset().insert(n),
        heap_ok(final(h)@),
        final(h)@ == push_spec(old(h)@, n),
{
    let old_len = h.len();
    h.push(n);
    proof {
        let t = h@;
        assert forall|i: int| 0 < i < t.len() && i != old_len implies #[trigger] edge_ok(t, i) by {
            assert(edge_ok(old(h)@, i));
        }
    }
    sift_up(h, old_len);
}

/// Takes one of the cheapest entries out of the open set.
fn heap_pop(h: &mut Vec<Node>) -> (r: Option<Node>)
    requires
        old(h).len() < HEAP_LIMIT,
        heap_ok(old(h)@),
    ensures
        r is None <==> old(h)@.len() == 0,
        r is None ==> final(h)@ == old(h)@,
        r matches Some(n) ==> final(h)@.len() == old(h)@.len() - 1 && old(h)@.to_multiset()
            == final(h)@.to_multiset().insert(n),
        r matches Some(n) ==> forall|j: int| 0 <= j < final(h)@.len() ==> n.cost <= #[trigger] final(h)@[j].cost,
        heap_ok(final(h)@),
        old(h)@.len() > 0 ==> r == Some(pop_spec(old(h)@).0) && final(h)@ == pop_spec(old(h)@).1,
{
    match h.pop() {
        None => None,
        Some(item) => {
            if h.len() > 0 {
                let ghost rest = h@;
                let top = h[0];
                h[0] = item;
                proof {
                    let o = old(h)@;
                    assert(o == rest.push(item));
                    assert(h@.to_multiset() == rest.to_multiset().insert(item).remove(top));
                    assert(rest.to_multiset().count(top) > 0);
                    assert(o.to_multiset() =~= h@.to_multiset().insert(top));
                    assert forall|i: int| 0 < i < h@.len() && i != 0 && parent(i) != 0 implies #[trigger] edge_ok(h@, i) by {
                        assert(edge_ok(o, i));
                    }
                    assert forall|j: int| 0 <= j < o.len() implies top.cost <= #[trigger] o[j].cost by {
                        lemma_root_cheapest(o, j);
                    }
                }
                sift_down_to_bottom(h);
                proof {
                    assert forall|j: int| 0 <= j < h@.len() implies top.cost <= #[trigger] h@[j].cost by {
                        let x = h@[j];
                        assert(h@.to_multiset().count(x) > 0);
                        assert(old(h)@.to_multiset().count(x) > 0);
                        assert(old(h)@.contains(x));
                        let k = choose|k: int| 0 <= k < old(h)@.len() && old(h)@[k] == x;
                        assert(top.cost <= old(h)@[k].cost);
                    }
                }
                Some(top)
            } else {
                assert(old(h)@ == h@.push(item));
                Some(item)
            }
        }
    }
}

/// The value that stands for "no cost known yet".
pub const UNSEEN: i32 = 99_999;

/// The eight directions of a step, in the order in which the search tries them.
pub open spec fn dir(k: int) -> (int, int) {
    if k == 0 {
        (1, 0)
    } else if k == 1 {
        (-1, 0)
    } else if k == 2 {
        (0, 1)
    } else if k == 3 {
        (0, -1)
    } else if k == 4 {
        (1, 1)
    } else if k == 5 {
        (-1, 1)
    } else if k == 6 {
        (1, -1)
    } else {
        (-1, -1)
    }
}

/// The tile one step from `t` in direction `k`.
pub open spec fn neighbour(t: (i32, i32), k: int) -> (i32, i32) {
    ((t.0 + dir(k).0) as i32, (t.1 + dir(k).1) as i32)
}

/// Whether `b` is one king move away from `a`.
pub open spec fn is_step(a: (i32, i32), b: (i32, i32)) -> bool {
    &&& -1 <= b.0 - a.0 <= 1
    &&& -1 <= b.1 - a.1 <= 1
    &&& a != b
}

/// The cost of stepping onto terrain `t` in direction `k`: the terrain's
/// cost, times 1.41 rounded down for a diagonal step.
pub open spec fn step_cost(t: Tile, k: int) -> int {
    if k >= 4 {
        t.cost() * 141 / 100
    } else {
        t.cost()
    }
}

/// The `i`-th move of `p` is one king move onto walkable terrain.
pub open spec fn walk_step(map: &TileMap, p: Seq<(i32, i32)>, i: int) -> bool {
    is_step(p[i], p[i + 1]) && map.walkable_at(p[i + 1].0 as int, p[i + 1].1 as int)
}

/// A walk over the map: a non-empty sequence of tiles in which each tile is
/// one king move from the one before and every tile after the first is
/// walkable.
pub open spec fn is_walk(map: &TileMap, p: Seq<(i32, i32)>) -> bool {
    &&& p.len() >= 1
    &&& forall|i: int| 0 <= i < p.len() - 1 ==> #[trigger] walk_step(map, p, i)
}

/// No tile occurs twice in `p`.
pub open spec fn no_repeats(p: Seq<(i32, i32)>) -> bool {
    forall|a: int, b: int| 0 <= a < b < p.len() ==> p[a] != p[b]
}

/// Whether some walk leads from `start` to `goal`.
pub open spec fn reachable(map: &TileMap, start: (i32, i32), goal: (i32, i32)) -> bool {
    exists|p: Seq<(i32, i32)>| is_walk(map, p) && p[0] == start && p.last() == goal
}

/// The difference between `a` and `b` on the x axis and on the y axis.
pub open spec fn axis_gaps(a: (i32, i32), b: (i32, i32)) -> (int, int) {
    (if a.0 >= b.0 { a.0 - b.0 } else { b.0 - a.0 }, if a.1 >= b.1 { a.1 - b.1 } else { b.1 - a.1 })
}

/// The directions of the search, in the order it tries them: the four
/// straight moves east, west, south, north, then the diagonals south-east,
/// south-west, north-east, north-west.
pub proof fn lemma_direction_order()
    ensures
        dir(0) == (1int, 0int) && dir(1) == (-1int, 0int) && dir(2) == (0int, 1int) && dir(3) == (0int, -1int),
        dir(4) == (1int, 1int) && dir(5) == (-1int, 1int) && dir(6) == (1int, -1int) && dir(7) == (-1int, -1int),
{
}

/// What a step costs: a straight step costs the terrain's cost (road 1,
/// grass 2, sand 3); a diagonal step costs 1.41 times that, rounded down
/// (road 1, grass 2, sand 4).
pub proof fn lemma_step_costs(k: int)
    requires
        0 <= k < 8,
    ensures
        step_cost(Tile::Road, k) == 1,
        step_cost(Tile::Grass, k) == 2,
        step_cost(Tile::DarkGrass, k) == 2,
        step_cost(Tile::Sand, k) == (if k < 4 { 3int } else { 4int }),
        k < 4 <==> (dir(k).0 == 0 || dir(k).1 == 0),
{
}

/// The search's octile estimate of the cost from `a` to `b`: a straight
/// move for every step along the longer axis, plus 0.41 more (rounded down
/// over the whole) for every step that can be taken diagonally.
pub open spec fn estimate(a: (i32, i32), b: (i32, i32)) -> int {
    let (dx, dy) = axis_gaps(a, b);
    let longer = if dx >= dy { dx } else { dy };
    let shorter = if dx >= dy { dy } else { dx };
    longer + shorter * 41 / 100
}

/// The octile estimate lies between the Chebyshev distance (the larger axis
/// gap) and the Manhattan distance (the sum of the axis gaps).
pub proof fn lemma_estimate_octile(a: (i32, i32), b: (i32, i32))
    ensures
        (if axis_gaps(a, b).0 >= axis_gaps(a, b).1 { axis_gaps(a, b).0 } else { axis_gaps(a, b).1 })
            <= estimate(a, b) <= axis_gaps(a, b).0 + axis_gaps(a, b).1,
{
    let (dx, dy) = axis_gaps(a, b);
    let shorter = if dx >= dy { dy } else { dx };
    assert(0 <= shorter * 41 / 100 <= shorter) by (nonlinear_arith)
        requires
            shorter >= 0,
    ;
}

/// The octile estimate of the cost between two tiles.
fn heuristic(a: (i32, i32), b: (i32, i32)) -> (h: i32)
    requires
        -0x2000_0000 <= a.0 <= 0x2000_0000,
        -0x2000_0000 <= a.1 <= 0x2000_0000,
        -0x2000_0000 <= b.0 <= 0x2000_0000,
        -0x2000_0000 <= b.1 <= 0x2000_0000,
    ensures
        h == estimate(a, b),
        0 <= h <= axis_gaps(a, b).0 + axis_gaps(a, b).1,
{
    proof {
        lemma_estimate_octile(a, b);
    }
    let dx = if a.0 >= b.0 { a.0 - b.0 } else { b.0 - a.0 };
    let dy = if a.1 >= b.1 { a.1 - b.1 } else { b.1 - a.1 };
    let longer = if dx >= dy { dx } else { dy };
    let shorter = if dx >= dy { dy } else { dx };
    assert(shorter / 100 * 41 + shorter % 100 * 41 / 100 == shorter * 41 / 100) by (nonlinear_arith)
        requires
            0 <= shorter,
    ;
    assert(shorter / 100 * 41 <= shorter) by (nonlinear_arith)
        requires
            0 <= shorter,
    ;
    longer + (shorter / 100 * 41 + shorter % 100 * 41 / 100)
}

/// Direction `k` of the search.
fn direction(k: usize) -> (d: (i32, i32))
    requires
        k < 8,
    ensures
        d.0 == dir(k as int).0,
        d.1 == dir(k as int).1,
{
    if k == 0 {
        (1, 0)
    } else if k == 1 {
        (-1, 0)
    } else if k == 2 {
        (0, 1)
    } else if k == 3 {
        (0, -1)
    } else if k == 4 {
        (1, 1)
    } else if k == 5 {
        (-1, 1)
    } else if k == 6 {
        (1, -1)
    } else {
        (-1, -1)
    }
}

// ---------------------------------------------------------------------------
// Bookkeeping over the table of best known costs.

/// The sum of a sequence of costs.
spec fn cost_sum(s: Seq<i32>) -> int
    decreases s.len(),
{
    if s.len() == 0 {
        0
    } else {
        cost_sum(s.drop_last()) + s.last()
    }
}

/// How many tiles of a cost table have a known cost.
spec fn known_count(s: Seq<i32>) -> int
    decreases s.len(),
{
    if s.len() == 0 {
        0
    } else {
        known_count(s.drop_last()) + if s.last() < UNSEEN { 1int } else { 0int }
    }
}

proof fn lemma_cost_sum_update(s: Seq<i32>, i: int, v: i32)
    requires
        0 <= i < s.len(),
    ensures
        cost_sum(s.update(i, v)) == cost_sum(s) - s[i] + v,
        known_count(s.update(i, v)) == known_count(s) - (if s[i] < UNSEEN { 1int } else { 0int }) + (
        if v < UNSEEN { 1int } else { 0int }),
    decreases s.len(),
{
    let u = s.update(i, v);
    if i == s.len() - 1 {
        assert(u.drop_last() =~= s.drop_last());
    } else {
        assert(u.drop_last() =~= s.drop_last().update(i, v));
        lemma_cost_sum_update(s.drop_last(), i, v);
    }
}

proof fn lemma_cost_sum_bounds(s: Seq<i32>)
    requires
        forall|i: int| 0 <= i < s.len() ==> 0 <= #[trigger] s[i],
    ensures
        cost_sum(s) >= 0,
        0 <= known_count(s) <= s.len(),
    decreases s.len(),
{
    if s.len() > 0 {
        lemma_cost_sum_bounds(s.drop_last());
    }
}

/// Whether the cost table `gs` knows a cost for the on-map tile `t`.
spec fn found(gs: Seq<i32>, t: (i32, i32)) -> bool {
    in_map(t.0 as int, t.1 as int) && gs[tile_index(t.0 as int, t.1 as int)] < UNSEEN
}

/// Whether the search has reached `t`: it is the start, or a tile with a known cost.
spec fn seen(gs: Seq<i32>, start: (i32, i32), t: (i32, i32)) -> bool {
    t == start || found(gs, t)
}

/// The best known cost of reaching `t`.
pub open spec fn g_of(gs: Seq<i32>, start: (i32, i32), t: (i32, i32)) -> int {
    if t == start {
        0
    } else if in_map(t.0 as int, t.1 as int) {
        gs[tile_index(t.0 as int, t.1 as int) as int] as int
    } else {
        UNSEEN as int
    }
}

/// The entry that stands for `t` in the open set while its cost is current:
/// the start goes in with cost 0, every other tile with its best known cost
/// plus its estimate.
spec fn entry_of(gs: Seq<i32>, start: (i32, i32), goal: (i32, i32), t: (i32, i32)) -> Node {
    if t == start {
        Node { cost: 0, pos: t }
    } else {
        Node { cost: (g_of(gs, start, t) + estimate(t, goal)) as i32, pos: t }
    }
}

/// The open set holds the current entry of `t`.
spec fn fresh(h: Seq<Node>, gs: Seq<i32>, start: (i32, i32), goal: (i32, i32), t: (i32, i32)) -> bool {
    h.to_multiset().count(entry_of(gs, start, goal, t)) > 0
}

/// The step from `t` in direction `k` cannot improve on the best known cost.
spec fn relaxed(map: &TileMap, gs: Seq<i32>, start: (i32, i32), t: (i32, i32), k: int) -> bool {
    let n = neighbour(t, k);
    map.walkable_at(n.0 as int, n.1 as int) ==> g_of(gs, start, n) <= g_of(gs, start, t) + step_cost(
        map.tile_at(n.0 as int, n.1 as int),
        k,
    )
}

/// All steps from `t` have been relaxed.
spec fn expanded(map: &TileMap, gs: Seq<i32>, start: (i32, i32), t: (i32, i32)) -> bool {
    forall|k: int| 0 <= k < 8 ==> #[trigger] relaxed(map, gs, start, t, k)
}

/// The recorded predecessor of a found tile leads back towards the start.
spec fn linked(map: &TileMap, gs: Seq<i32>, cs: Seq<Option<(i32, i32)>>, start: (i32, i32), t: (i32, i32)) -> bool {
    &&& map.walkable_at(t.0 as int, t.1 as int)
    &&& t != start
    &&& match cs[tile_index(t.0 as int, t.1 as int)] {
        Some(p) => seen(gs, start, p) && is_step(p, t) && g_of(gs, start, p) < g_of(gs, start, t),
        None => false,
    }
}

/// A position that is the start or on the map.
spec fn tame(start: (i32, i32), t: (i32, i32)) -> bool {
    t == start || in_map(t.0 as int, t.1 as int)
}

/// What holds of the search between two steps.
spec fn search_inv(
    map: &TileMap,
    start: (i32, i32),
    goal: (i32, i32),
    gs: Seq<i32>,
    cs: Seq<Option<(i32, i32)>>,
    h: Seq<Node>,
) -> bool {
    &&& map.wf()
    &&& gs.len() == MAP_W * MAP_H
    &&& cs.len() == MAP_W * MAP_H
    &&& forall|i: int| 0 <= i < gs.len() ==> 1 <= #[trigger] gs[i] <= UNSEEN
    &&& known_count(gs) <= MAP_W * MAP_H
    &&& forall|t: (i32, i32)| #[trigger] found(gs, t) ==> g_of(gs, start, t) <= 4 * known_count(gs)
    &&& forall|t: (i32, i32)| #[trigger] found(gs, t) ==> linked(map, gs, cs, start, t)
    &&& forall|j: int| 0 <= j < h.len() ==> seen(gs, start, #[trigger] h[j].pos)
    &&& seen(gs, start, goal) ==> fresh(h, gs, start, goal, goal)
    &&& heap_ok(h)
}

/// `t` is either waiting in the open set or fully expanded.
spec fn covered(
    map: &TileMap,
    start: (i32, i32),
    goal: (i32, i32),
    gs: Seq<i32>,
    h: Seq<Node>,
    t: (i32, i32),
) -> bool {
    fresh(h, gs, start, goal, t) || expanded(map, gs, start, t)
}

/// What holds while the steps from `pos` are being relaxed, the first `k` of them done.
spec fn expanding(
    map: &TileMap,
    start: (i32, i32),
    goal: (i32, i32),
    gs: Seq<i32>,
    cs: Seq<Option<(i32, i32)>>,
    h: Seq<Node>,
    pos: (i32, i32),
    k: int,
) -> bool {
    &&& search_inv(map, start, goal, gs, cs, h)
    &&& seen(gs, start, pos)
    &&& pos != goal
    &&& forall|t: (i32, i32)| #[trigger] seen(gs, start, t) && t != pos ==> covered(map, start, goal, gs, h, t)
    &&& forall|j: int| 0 <= j < k ==> #[trigger] relaxed(map, gs, start, pos, j)
}

// ---------------------------------------------------------------------------
// The search, step by step, as the function of its inputs that it computes.

/// The search state `st` (the best known cost of each tile, the recorded
/// predecessor of each tile and the open set) after the step from `pos` in
/// direction `k` is relaxed.
pub open spec fn relax_spec(
    map: &TileMap,
    start: (i32, i32),
    goal: (i32, i32),
    st: (Seq<i32>, Seq<Option<(i32, i32)>>, Seq<Node>),
    pos: (i32, i32),
    k: int,
) -> (Seq<i32>, Seq<Option<(i32, i32)>>, Seq<Node>) {
    let next = neighbour(pos, k);
    if !map.walkable_at(next.0 as int, next.1 as int) {
        st
    } else {
        let tg = g_of(st.0, start, pos) + step_cost(map.tile_at(next.0 as int, next.1 as int), k);
        if tg < g_of(st.0, start, next) {
            let i = tile_index(next.0 as int, next.1 as int);
            (
                st.0.update(i, tg as i32),
                st.1.update(i, Some(pos)),
                push_spec(st.2, Node { cost: (tg + estimate(next, goal)) as i32, pos: next }),
            )
        } else {
            st
        }
    }
}

/// The state after the steps from `pos` in directions `k` to 7 are relaxed, in that order.
pub open spec fn expand_spec(
    map: &TileMap,
    start: (i32, i32),
    goal: (i32, i32),
    st: (Seq<i32>, Seq<Option<(i32, i32)>>, Seq<Node>),
    pos: (i32, i32),
    k: int,
) -> (Seq<i32>, Seq<Option<(i32, i32)>>, Seq<Node>)
    decreases 8 - k,
{
    if k >= 8 {
        st
    } else {
        expand_spec(map, start, goal, relax_spec(map, start, goal, st, pos, k), pos, k + 1)
    }
}

/// The predecessors recorded back from `cur`, up to and including the start
/// (at most `fuel` of them).
pub open spec fn trace_from(cs: Seq<Option<(i32, i32)>>, start: (i32, i32), cur: (i32, i32), fuel: nat) -> Seq<(i32, i32)>
    decreases fuel,
{
    if fuel == 0 {
        seq![]
    } else {
        match cs[tile_index(cur.0 as int, cur.1 as int)] {
            Some(p) => if p == start {
                seq![p]
            } else {
                seq![p] + trace_from(cs, start, p, (fuel - 1) as nat)
            },
            None => seq![],
        }
    }
}

/// The path read off the recorded predecessors, from the start to the goal.
pub open spec fn trace_path(cs: Seq<Option<(i32, i32)>>, start: (i32, i32), goal: (i32, i32)) -> Seq<(i32, i32)> {
    (seq![goal] + trace_from(cs, start, goal, (UNSEEN + 1) as nat)).reverse()
}

/// What the search returns from state `st` with at most `fuel` more entries
/// taken from the open set: nothing once the open set is empty; the traced
/// path once the goal is taken; otherwise it expands the taken tile and
/// goes on.
pub open spec fn run_spec(
    map: &TileMap,
    start: (i32, i32),
    goal: (i32, i32),
    st: (Seq<i32>, Seq<Option<(i32, i32)>>, Seq<Node>),
    fuel: nat,
) -> Seq<(i32, i32)>
    decreases fuel,
{
    if fuel == 0 || st.2.len() == 0 {
        seq![]
    } else {
        let node = pop_spec(st.2).0;
        let rest = pop_spec(st.2).1;
        if node.pos == goal {
            trace_path(st.1, start, goal)
        } else {
            run_spec(map, start, goal, expand_spec(map, start, goal, (st.0, st.1, rest), node.pos, 0), (fuel - 1) as nat)
        }
    }
}

/// The state the search starts from: no tile has a known cost or a
/// predecessor, and the open set holds the start at cost 0.
pub open spec fn search_start(start: (i32, i32)) -> (Seq<i32>, Seq<Option<(i32, i32)>>, Seq<Node>) {
    (
        Seq::new(3600, |i: int| UNSEEN),
        Seq::new(3600, |i: int| None::<(i32, i32)>),
        seq![Node { cost: 0, pos: start }],
    )
}

/// The path the A* search returns from `start` to `goal` on `map`: empty
/// when the goal cannot be walked on or is the start, else the run of the
/// search from its start state. The search takes the cheapest entry of its
/// open set (a binary heap), stops when that is the goal, and otherwise
/// relaxes the eight steps from it in the order of `dir`, recording a tile's
/// cost and predecessor and adding it to the open set at that cost plus
/// `estimate` whenever a step improves on its best known cost.
pub open spec fn search_result(map: &TileMap, start: (i32, i32), goal: (i32, i32)) -> Seq<(i32, i32)> {
    if !map.walkable_at(goal.0 as int, goal.1 as int) || start == goal {
        seq![]
    } else {
        run_spec(map, start, goal, search_start(start), (measure_limit() + 1) as nat)
    }
}

/// The largest value of the search's progress measure.
pub open spec fn measure_limit() -> int {
    2 * 3600 * (UNSEEN as int) + 1
}

/// The search's progress measure: it drops with every entry taken from the
/// open set and with every improved cost.
spec fn measure(gs: Seq<i32>, h: Seq<Node>) -> int {
    2 * cost_sum(gs) + h.len()
}

/// The best known cost of `t`, or the "unseen" mark.
fn lookup(g: &Vec<i32>, start: (i32, i32), t: (i32, i32)) -> (r: i32)
    requires
        g.len() == MAP_W * MAP_H,
    ensures
        r == g_of(g@, start, t),
{
    if t.0 == start.0 && t.1 == start.1 {
        0
    } else if TileMap::in_bounds(t.0, t.1) {
        g[TileMap::idx(t.0, t.1)]
    } else {
        UNSEEN
    }
}

/// Different tiles of the map sit at different positions of the tile vector.
proof fn lemma_index_injective(a: (i32, i32), b: (i32, i32))
    requires
        in_map(a.0 as int, a.1 as int),
        in_map(b.0 as int, b.1 as int),
        a != b,
    ensures
        tile_index(a.0 as int, a.1 as int) != tile_index(b.0 as int, b.1 as int),
{
    let (ax, ay, bx, by) = (a.0 as int, a.1 as int, b.0 as int, b.1 as int);
    assert(ax != bx || ay != by);
    if ay == by {
    } else if ay < by {
        assert(ay * MAP_W + MAP_W <= by * MAP_W) by (nonlinear_arith)
            requires
                ay < by,
        ;
    } else {
        assert(by * MAP_W + MAP_W <= ay * MAP_W) by (nonlinear_arith)
            requires
                by < ay,
        ;
    }
}

proof fn lemma_step_cost_bounds(t: Tile, k: int)
    requires
        t.is_walkable(),
    ensures
        1 <= step_cost(t, k) <= 4,
{
}

/// The cost of the single king move from `a` onto its neighbour `b`.
spec fn direct_cost(map: &TileMap, a: (i32, i32), b: (i32, i32)) -> int {
    step_cost(map.tile_at(b.0 as int, b.1 as int), if a.0 != b.0 && a.1 != b.1 { 4 } else { 0 })
}

/// When the goal is a neighbour of the start, the goal's known cost, once
/// there is one, is that of the direct move, and its predecessor is the start.
spec fn adjacent_settled(
    map: &TileMap,
    start: (i32, i32),
    goal: (i32, i32),
    gs: Seq<i32>,
    cs: Seq<Option<(i32, i32)>>,
) -> bool {
    is_step(start, goal) && found(gs, goal) ==> g_of(gs, start, goal) == direct_cost(map, start, goal)
        && cs[tile_index(goal.0 as int, goal.1 as int)] == Some(start)
}

/// A move onto walkable terrain never costs more than one more than any
/// other move onto the same terrain.
proof fn lemma_step_cost_spread(t: Tile, j: int, k: int)
    requires
        t.is_walkable(),
    ensures
        step_cost(t, j) <= 1 + step_cost(t, k),
{
    match t {
        Tile::Road => {},
        Tile::Grass => {},
        Tile::DarkGrass => {},
        Tile::Sand => {},
        _ => {},
    }
}

/// Relaxes the step from `pos` in direction `k`: if it gives `neighbour(pos, k)`
/// a better cost, records the cost and the predecessor and adds the
/// neighbour to the open set.
fn relax(
    map: &TileMap,
    start: (i32, i32),
    goal: (i32, i32),
    pos: (i32, i32),
    k: usize,
    g: &mut Vec<i32>,
    came: &mut Vec<Option<(i32, i32)>>,
    open: &mut Vec<Node>,
)
    requires
        k < 8,
        tame(start, pos),
        i32::MIN < start.0 < i32::MAX,
        i32::MIN < start.1 < i32::MAX,
        map.walkable_at(goal.0 as int, goal.1 as int),
        expanding(map, start, goal, old(g)@, old(came)@, old(open)@, pos, k as int),
        measure(old(g)@, old(open)@) <= measure_limit(),
        adjacent_settled(map, start, goal, old(g)@, old(came)@),
        is_step(start, goal) ==> found(old(g)@, goal) || pos == start,
    ensures
        expanding(map, start, goal, final(g)@, final(came)@, final(open)@, pos, k + 1),
        measure(final(g)@, final(open)@) <= measure(old(g)@, old(open)@),
        adjacent_settled(map, start, goal, final(g)@, final(came)@),
        is_step(start, goal) ==> found(final(g)@, goal) || pos == start,
        (final(g)@, final(came)@, final(open)@) == relax_spec(map, start, goal, (old(g)@, old(came)@, old(open)@), pos, k as int),
{
    let ghost gs0 = g@;
    let ghost cs0 = came@;
    let ghost h0 = open@;
    let d = direction(k);
    let next = (pos.0 + d.0, pos.1 + d.1);
    assert(next == neighbour(pos, k as int));
    if !map.walkable(next.0, next.1) {
        assert(relaxed(map, g@, start, pos, k as int));
        return;
    }
    let tc = match map.get_tile(next.0, next.1) {
        Some(t) => t.move_cost(),
        None => 2,
    };
    proof {
        lemma_step_cost_bounds(map.tile_at(next.0 as int, next.1 as int), k as int);
        lemma_cost_sum_bounds(gs0);
    }
    let mc = if d.0 != 0 && d.1 != 0 { tc * 141 / 100 } else { tc };
    assert(mc == step_cost(map.tile_at(next.0 as int, next.1 as int), k as int));
    let gpos = lookup(g, start, pos);
    assert(0 <= gpos <= 4 * known_count(gs0)) by {
        if pos != start {
            assert(found(gs0, pos));
        }
    }
    let tg = gpos + mc;
    let gnext = lookup(g, start, next);
    if tg < gnext {
        let i = TileMap::idx(next.0, next.1);
        proof {
            lemma_cost_sum_update(gs0, i as int, tg);
        }
        came[i] = Some(pos);
        g[i] = tg;
        let cost = tg + heuristic(next, goal);
        heap_push(open, Node { cost, pos: next });
        proof {
            lemma_relax_update(map, start, goal, pos, k as int, gs0, cs0, h0, g@, came@, open@, next, tg, cost);
            lemma_improved_costs(start, gs0, cs0, h0, g@, came@, open@, pos, next, tg, cost);
            if is_step(start, goal) {
                let gi = tile_index(goal.0 as int, goal.1 as int);
                if next == goal {
                    let gt = map.tile_at(goal.0 as int, goal.1 as int);
                    lemma_step_cost_spread(gt, if start.0 != goal.0 && start.1 != goal.1 { 4 } else { 0 }, k as int);
                    if pos != start {
                        assert(found(gs0, pos));
                    }
                    assert(pos == start);
                    assert(tg == direct_cost(map, start, goal));
                    assert(came@[gi] == Some(pos));
                } else {
                    lemma_index_injective(next, goal);
                    assert(came@[gi] == cs0[gi]);
                    assert(found(g@, goal) <==> found(gs0, goal));
                }
            }
        }
    } else {
        assert(relaxed(map, g@, start, pos, k as int));
    }
}

/// The tables after an improvement of the cost of `next` to `tg`, reached from `pos`.
spec fn improved(
    start: (i32, i32),
    gs0: Seq<i32>,
    cs0: Seq<Option<(i32, i32)>>,
    h0: Seq<Node>,
    gs: Seq<i32>,
    cs: Seq<Option<(i32, i32)>>,
    h: Seq<Node>,
    pos: (i32, i32),
    next: (i32, i32),
    tg: i32,
    cost: i32,
) -> bool {
    let i = tile_index(next.0 as int, next.1 as int);
    &&& in_map(next.0 as int, next.1 as int)
    &&& next != start
    &&& gs == gs0.update(i, tg)
    &&& cs == cs0.update(i, Some(pos))
    &&& h.to_multiset() == h0.to_multiset().insert(Node { cost, pos: next })
    &&& h.len() == h0.len() + 1
    &&& heap_ok(h)
}

proof fn lemma_improved_costs(
    start: (i32, i32),
    gs0: Seq<i32>,
    cs0: Seq<Option<(i32, i32)>>,
    h0: Seq<Node>,
    gs: Seq<i32>,
    cs: Seq<Option<(i32, i32)>>,
    h: Seq<Node>,
    pos: (i32, i32),
    next: (i32, i32),
    tg: i32,
    cost: i32,
)
    requires
        gs0.len() == MAP_W * MAP_H,
        improved(start, gs0, cs0, h0, gs, cs, h, pos, next, tg, cost),
        tg < g_of(gs0, start, next),
    ensures
        forall|t: (i32, i32)| t != next ==> #[trigger] g_of(gs, start, t) == g_of(gs0, start, t),
        forall|t: (i32, i32)| #[trigger] g_of(gs, start, t) <= g_of(gs0, start, t),
        g_of(gs, start, next) == tg,
        forall|t: (i32, i32)| #[trigger] seen(gs, start, t) <==> seen(gs0, start, t) || (t == next && tg < UNSEEN),
        forall|t: (i32, i32)| t != next ==> (#[trigger] found(gs, t) <==> found(gs0, t)),
{
    let i = tile_index(next.0 as int, next.1 as int);
    assert forall|t: (i32, i32)| t != next implies #[trigger] g_of(gs, start, t) == g_of(gs0, start, t) by {
        if t != start && in_map(t.0 as int, t.1 as int) {
            lemma_index_injective(t, next);
        }
    }
    assert forall|t: (i32, i32)| t != next implies (#[trigger] found(gs, t) <==> found(gs0, t)) by {
        if in_map(t.0 as int, t.1 as int) {
            lemma_index_injective(t, next);
        }
    }
    assert forall|t: (i32, i32)| #[trigger] g_of(gs, start, t) <= g_of(gs0, start, t) by {
        if t != next {
            assert(g_of(gs, start, t) == g_of(gs0, start, t));
        }
    }
    assert forall|t: (i32, i32)| #[trigger] seen(gs, start, t) <==> seen(gs0, start, t) || (t == next && tg < UNSEEN) by {
        if t != next {
            assert(g_of(gs, start, t) == g_of(gs0, start, t));
            assert(found(gs, t) <==> found(gs0, t));
        }
    }
}

proof fn lemma_improved_search_inv(
    map: &TileMap,
    start: (i32, i32),
    goal: (i32, i32),
    gs0: Seq<i32>,
    cs0: Seq<Option<(i32, i32)>>,
    h0: Seq<Node>,
    gs: Seq<i32>,
    cs: Seq<Option<(i32, i32)>>,
    h: Seq<Node>,
    pos: (i32, i32),
    next: (i32, i32),
    tg: i32,
    cost: i32,
)
    requires
        search_inv(map, start, goal, gs0, cs0, h0),
        improved(start, gs0, cs0, h0, gs, cs, h, pos, next, tg, cost),
        seen(gs0, start, pos),
        is_step(pos, next),
        map.walkable_at(next.0 as int, next.1 as int),
        g_of(gs0, start, pos) < tg < g_of(gs0, start, next),
        tg <= g_of(gs0, start, pos) + 4,
        g_of(gs0, start, pos) <= 4 * known_count(gs0),
        cost == g_of(gs, start, next) + estimate(next, goal),
    ensures
        search_inv(map, start, goal, gs, cs, h),
        fresh(h, gs, start, goal, next),
{
    let i = tile_index(next.0 as int, next.1 as int);
    lemma_improved_costs(start, gs0, cs0, h0, gs, cs, h, pos, next, tg, cost);
    lemma_cost_sum_update(gs0, i, tg);
    lemma_cost_sum_bounds(gs0);
    assert forall|j: int| 0 <= j < gs.len() implies 1 <= #[trigger] gs[j] <= UNSEEN by {
        if j != i {
            assert(gs[j] == gs0[j]);
        }
    }
    lemma_cost_sum_bounds(gs);
    assert(known_count(gs) >= known_count(gs0));
    assert(gs0[i] < UNSEEN ==> tg <= 4 * known_count(gs)) by {
        if gs0[i] < UNSEEN {
            assert(found(gs0, next));
        }
    }
    assert forall|t: (i32, i32)| #[trigger] found(gs, t) implies g_of(gs, start, t) <= 4 * known_count(gs) by {
        if t != next {
            assert(found(gs0, t));
        }
    }
    assert forall|t: (i32, i32)| #[trigger] found(gs, t) implies linked(map, gs, cs, start, t) by {
        if t != next {
            assert(found(gs0, t));
            assert(linked(map, gs0, cs0, start, t));
            lemma_index_injective(t, next);
            let p = cs0[tile_index(t.0 as int, t.1 as int)]->Some_0;
            assert(seen(gs0, start, p));
            assert(seen(gs, start, p));
            assert(g_of(gs, start, p) <= g_of(gs0, start, p));
        } else {
            assert(cs[i] == Some(pos));
            assert(seen(gs, start, pos));
            assert(g_of(gs, start, pos) <= g_of(gs0, start, pos));
        }
    }
    assert(entry_of(gs, start, goal, next) == Node { cost, pos: next });
    assert(h.to_multiset().count(Node { cost, pos: next }) > 0);
    assert forall|j: int| 0 <= j < h.len() implies seen(gs, start, #[trigger] h[j].pos) by {
        assert(h.to_multiset().count(h[j]) > 0);
        if h[j] != (Node { cost, pos: next }) {
            assert(h0.to_multiset().count(h[j]) > 0);
            assert(h0.contains(h[j]));
            let j0 = choose|j0: int| 0 <= j0 < h0.len() && h0[j0] == h[j];
            assert(seen(gs0, start, h0[j0].pos));
        }
    }
    assert(seen(gs, start, goal) ==> fresh(h, gs, start, goal, goal)) by {
        if seen(gs, start, goal) && goal != next {
            assert(seen(gs0, start, goal));
            assert(entry_of(gs, start, goal, goal) == entry_of(gs0, start, goal, goal));
        }
    }
}

proof fn lemma_improved_covered(
    map: &TileMap,
    start: (i32, i32),
    goal: (i32, i32),
    gs0: Seq<i32>,
    cs0: Seq<Option<(i32, i32)>>,
    h0: Seq<Node>,
    gs: Seq<i32>,
    cs: Seq<Option<(i32, i32)>>,
    h: Seq<Node>,
    pos: (i32, i32),
    k: int,
    next: (i32, i32),
    tg: i32,
    cost: i32,
)
    requires
        gs0.len() == MAP_W * MAP_H,
        improved(start, gs0, cs0, h0, gs, cs, h, pos, next, tg, cost),
        tg < g_of(gs0, start, next),
        tg < UNSEEN,
        fresh(h, gs, start, goal, next),
        pos != next,
        next == neighbour(pos, k),
        tg == g_of(gs0, start, pos) + step_cost(map.tile_at(next.0 as int, next.1 as int), k),
        forall|t: (i32, i32)| #[trigger] seen(gs0, start, t) && t != pos ==> covered(map, start, goal, gs0, h0, t),
        forall|j: int| 0 <= j < k ==> #[trigger] relaxed(map, gs0, start, pos, j),
    ensures
        forall|t: (i32, i32)| #[trigger] seen(gs, start, t) && t != pos ==> covered(map, start, goal, gs, h, t),
        forall|j: int| 0 <= j < k + 1 ==> #[trigger] relaxed(map, gs, start, pos, j),
{
    lemma_improved_costs(start, gs0, cs0, h0, gs, cs, h, pos, next, tg, cost);
    assert forall|t: (i32, i32)| #[trigger] seen(gs, start, t) && t != pos implies covered(map, start, goal, gs, h, t) by {
        if t != next {
            assert(seen(gs0, start, t));
            assert(covered(map, start, goal, gs0, h0, t));
            if fresh(h0, gs0, start, goal, t) {
                assert(entry_of(gs, start, goal, t) == entry_of(gs0, start, goal, t));
                assert(fresh(h, gs, start, goal, t));
            } else {
                assert forall|j: int| 0 <= j < 8 implies #[trigger] relaxed(map, gs, start, t, j) by {
                    assert(relaxed(map, gs0, start, t, j));
                    assert(g_of(gs, start, neighbour(t, j)) <= g_of(gs0, start, neighbour(t, j)));
                }
            }
        }
    }
    assert forall|j: int| 0 <= j < k + 1 implies #[trigger] relaxed(map, gs, start, pos, j) by {
        if j < k {
            assert(relaxed(map, gs0, start, pos, j));
            assert(g_of(gs, start, neighbour(pos, j)) <= g_of(gs0, start, neighbour(pos, j)));
        }
    }
}

proof fn lemma_relax_update(
    map: &TileMap,
    start: (i32, i32),
    goal: (i32, i32),
    pos: (i32, i32),
    k: int,
    gs0: Seq<i32>,
    cs0: Seq<Option<(i32, i32)>>,
    h0: Seq<Node>,
    gs: Seq<i32>,
    cs: Seq<Option<(i32, i32)>>,
    h: Seq<Node>,
    next: (i32, i32),
    tg: i32,
    cost: i32,
)
    requires
        0 <= k < 8,
        expanding(map, start, goal, gs0, cs0, h0, pos, k),
        improved(start, gs0, cs0, h0, gs, cs, h, pos, next, tg, cost),
        next == neighbour(pos, k),
        is_step(pos, next),
        map.walkable_at(next.0 as int, next.1 as int),
        tg == g_of(gs0, start, pos) + step_cost(map.tile_at(next.0 as int, next.1 as int), k),
        1 <= step_cost(map.tile_at(next.0 as int, next.1 as int), k) <= 4,
        tg < g_of(gs0, start, next),
        g_of(gs0, start, pos) <= 4 * known_count(gs0),
        cost == tg + estimate(next, goal),
        measure(gs0, h0) <= measure_limit(),
    ensures
        expanding(map, start, goal, gs, cs, h, pos, k + 1),
        measure(gs, h) <= measure(gs0, h0),
{
    lemma_improved_costs(start, gs0, cs0, h0, gs, cs, h, pos, next, tg, cost);
    lemma_improved_search_inv(map, start, goal, gs0, cs0, h0, gs, cs, h, pos, next, tg, cost);
    lemma_improved_covered(map, start, goal, gs0, cs0, h0, gs, cs, h, pos, k, next, tg, cost);
    lemma_cost_sum_update(gs0, tile_index(next.0 as int, next.1 as int), tg);
    assert(seen(gs, start, pos));
}

/// A king move from `a` to `b` is one of the eight search directions.
proof fn lemma_step_direction(a: (i32, i32), b: (i32, i32)) -> (k: int)
    requires
        is_step(a, b),
    ensures
        0 <= k < 8,
        neighbour(a, k) == b,
{
    let dx = b.0 - a.0;
    let dy = b.1 - a.1;
    let k = if dx == 1 && dy == 0 {
        0
    } else if dx == -1 && dy == 0 {
        1
    } else if dx == 0 && dy == 1 {
        2
    } else if dx == 0 && dy == -1 {
        3
    } else if dx == 1 && dy == 1 {
        4
    } else if dx == -1 && dy == 1 {
        5
    } else if dx == 1 && dy == -1 {
        6
    } else {
        7
    };
    assert(neighbour(a, k) == b);
    k
}

/// Once every reached tile is expanded and the goal was never reached, no
/// walk leads from the start to the goal.
proof fn lemma_closed_unreachable(
    map: &TileMap,
    start: (i32, i32),
    goal: (i32, i32),
    gs: Seq<i32>,
    cs: Seq<Option<(i32, i32)>>,
    h: Seq<Node>,
)
    requires
        search_inv(map, start, goal, gs, cs, h),
        forall|t: (i32, i32)| #[trigger] seen(gs, start, t) ==> expanded(map, gs, start, t),
        !seen(gs, start, goal),
    ensures
        !reachable(map, start, goal),
{
    lemma_cost_sum_bounds(gs);
    if reachable(map, start, goal) {
        let p = choose|p: Seq<(i32, i32)>| is_walk(map, p) && p[0] == start && p.last() == goal;
        lemma_walk_seen(map, start, goal, gs, cs, h, p, p.len() - 1);
    }
}

/// Every tile of a walk from the start stays within the reached tiles, once
/// every reached tile is expanded.
proof fn lemma_walk_seen(
    map: &TileMap,
    start: (i32, i32),
    goal: (i32, i32),
    gs: Seq<i32>,
    cs: Seq<Option<(i32, i32)>>,
    h: Seq<Node>,
    p: Seq<(i32, i32)>,
    i: int,
)
    requires
        search_inv(map, start, goal, gs, cs, h),
        forall|t: (i32, i32)| #[trigger] seen(gs, start, t) ==> expanded(map, gs, start, t),
        known_count(gs) <= MAP_W * MAP_H,
        is_walk(map, p),
        p[0] == start,
        0 <= i < p.len(),
    ensures
        seen(gs, start, p[i]),
    decreases i,
{
    if i > 0 {
        lemma_walk_seen(map, start, goal, gs, cs, h, p, i - 1);
        assert(walk_step(map, p, i - 1));
        let a = p[i - 1];
        let b = p[i];
        let k = lemma_step_direction(a, b);
        assert(expanded(map, gs, start, a));
        assert(relaxed(map, gs, start, a, k));
        lemma_step_cost_bounds(map.tile_at(b.0 as int, b.1 as int), k);
        if a != start {
            assert(found(gs, a));
        }
        assert(g_of(gs, start, b) < UNSEEN);
    }
}

/// Taking an entry for `node.pos` out of the open set leaves every other
/// reached tile covered.
proof fn lemma_after_pop(
    map: &TileMap,
    start: (i32, i32),
    goal: (i32, i32),
    gs: Seq<i32>,
    cs: Seq<Option<(i32, i32)>>,
    h0: Seq<Node>,
    h: Seq<Node>,
    node: Node,
)
    requires
        search_inv(map, start, goal, gs, cs, h0),
        forall|t: (i32, i32)| #[trigger] seen(gs, start, t) ==> covered(map, start, goal, gs, h0, t),
        h0.to_multiset() == h.to_multiset().insert(node),
        h.len() == h0.len() - 1,
        heap_ok(h),
    ensures
        seen(gs, start, node.pos),
        forall|t: (i32, i32)| #[trigger] seen(gs, start, t) && t != node.pos ==> covered(map, start, goal, gs, h, t),
        node.pos != goal ==> search_inv(map, start, goal, gs, cs, h),
{
    assert(h0.to_multiset().count(node) > 0);
    assert(h0.contains(node));
    let j0 = choose|j0: int| 0 <= j0 < h0.len() && h0[j0] == node;
    assert(seen(gs, start, h0[j0].pos));
    assert forall|t: (i32, i32)| #[trigger] seen(gs, start, t) && t != node.pos implies covered(map, start, goal, gs, h, t) by {
        assert(covered(map, start, goal, gs, h0, t));
        if fresh(h0, gs, start, goal, t) {
            assert(entry_of(gs, start, goal, t) != node);
        }
    }
    assert forall|j: int| 0 <= j < h.len() implies seen(gs, start, #[trigger] h[j].pos) by {
        assert(h.to_multiset().count(h[j]) > 0);
        assert(h0.to_multiset().count(h[j]) > 0);
        assert(h0.contains(h[j]));
        let j1 = choose|j1: int| 0 <= j1 < h0.len() && h0[j1] == h[j];
        assert(seen(gs, start, h0[j1].pos));
    }
    if seen(gs, start, goal) && node.pos != goal {
        assert(entry_of(gs, start, goal, goal) != node);
    }
}

/// An empty open set means no walk leads from the start to the goal.
proof fn lemma_exhausted(
    map: &TileMap,
    start: (i32, i32),
    goal: (i32, i32),
    gs: Seq<i32>,
    cs: Seq<Option<(i32, i32)>>,
    h0: Seq<Node>,
)
    requires
        search_inv(map, start, goal, gs, cs, h0),
        forall|t: (i32, i32)| #[trigger] seen(gs, start, t) ==> covered(map, start, goal, gs, h0, t),
        h0.len() == 0,
    ensures
        !reachable(map, start, goal),
{
    assert forall|t: (i32, i32)| #[trigger] seen(gs, start, t) implies expanded(map, gs, start, t) by {
        assert(covered(map, start, goal, gs, h0, t));
        assert(h0.to_multiset().count(entry_of(gs, start, goal, t)) == 0);
    }
    if seen(gs, start, goal) {
        assert(h0.to_multiset().count(entry_of(gs, start, goal, goal)) == 0);
    }
    lemma_closed_unreachable(map, start, goal, gs, cs, h0);
}

/// Finds a path from `start` to `goal` by A* search over walkable tiles with
/// king moves, terrain-weighted step costs (diagonals cost 1.41 times the
/// terrain cost, rounded down) and the estimate of `estimate`. The path runs
/// from `start` to `goal`, both included; it is empty when `goal` is not
/// walkable, when `start` is `goal`, or when no walk leads there. A walkable
/// goal next to the start is reached by the single direct move: no detour
/// costs less. The path is exactly `search_result(map, start, goal)`.
pub fn find_path(map: &TileMap, start: (i32, i32), goal: (i32, i32)) -> (path: Vec<(i32, i32)>)
    requires
        in_map(goal.0 as int, goal.1 as int) ==> map.wf(),
        map.walkable_at(goal.0 as int, goal.1 as int) && start != goal ==> i32::MIN < start.0 < i32::MAX
            && i32::MIN < start.1 < i32::MAX,
    ensures
        path.len() == 0 <==> (!map.walkable_at(goal.0 as int, goal.1 as int) || start == goal
            || !reachable(map, start, goal)),
        path.len() > 0 ==> is_walk(map, path@) && path@[0] == start && path@.last() == goal,
        no_repeats(path@),
        is_step(start, goal) && map.walkable_at(goal.0 as int, goal.1 as int) ==> path@ == seq![start, goal],
        path@ == search_result(map, start, goal),
{
    if !map.walkable(goal.0, goal.1) || (start.0 == goal.0 && start.1 == goal.1) {
        return Vec::new();
    }
    let mut open: Vec<Node> = Vec::new();
    let mut came: Vec<Option<(i32, i32)>> = Vec::new();
    let mut g: Vec<i32> = Vec::new();
    let mut n: usize = 0;
    assert(heap_ok(open@));
    while n < 3600
        invariant
            n <= 3600,
            g.len() == n,
            came.len() == n,
            forall|j: int| 0 <= j < n ==> #[trigger] g@[j] == UNSEEN,
            forall|j: int| 0 <= j < n ==> #[trigger] came@[j] == None::<(i32, i32)>,
            cost_sum(g@) == n * UNSEEN,
            known_count(g@) == 0,
        decreases 3600 - n,
    {
        proof {
            assert(g@.push(UNSEEN).drop_last() == g@);
        }
        g.push(UNSEEN);
        came.push(None);
        n = n + 1;
    }
    heap_push(&mut open, Node { cost: 0, pos: start });
    proof {
        assert forall|t: (i32, i32)| !found(g@, t) by {}
        assert(entry_of(g@, start, goal, start) == Node { cost: 0, pos: start });
        assert(open@.to_multiset().count(Node { cost: 0, pos: start }) > 0);
        assert(open@[0] == Node { cost: 0, pos: start }) by {
            assert(open@.to_multiset().count(open@[0]) > 0);
        }
        assert(search_inv(map, start, goal, g@, came@, open@));
        assert(adjacent_settled(map, start, goal, g@, came@));
        assert(open@.len() == 1);
        assert(g@ =~= search_start(start).0);
        assert(came@ =~= search_start(start).1);
        assert(open@ =~= search_start(start).2);
    }
    let ghost mut fuel: nat = (measure_limit() + 1) as nat;
    loop
        invariant
            map.wf(),
            map.walkable_at(goal.0 as int, goal.1 as int),
            start != goal,
            i32::MIN < start.0 < i32::MAX,
            i32::MIN < start.1 < i32::MAX,
            search_inv(map, start, goal, g@, came@, open@),
            forall|t: (i32, i32)| #[trigger] seen(g@, start, t) ==> covered(map, start, goal, g@, open@, t),
            0 <= measure(g@, open@) <= measure_limit(),
            adjacent_settled(map, start, goal, g@, came@),
            is_step(start, goal) ==> found(g@, goal) || forall|j: int|
                0 <= j < open@.len() ==> (#[trigger] open@[j]).pos == start,
            fuel > measure(g@, open@),
            run_spec(map, start, goal, (g@, came@, open@), fuel) == search_result(map, start, goal),
        decreases measure(g@, open@),
    {
        let ghost gs0 = g@;
        let ghost cs0 = came@;
        let ghost h0 = open@;
        proof {
            lemma_cost_sum_bounds(g@);
        }
        let popped = heap_pop(&mut open);
        match popped {
            None => {
                proof {
                    lemma_exhausted(map, start, goal, g@, came@, h0);
                    if is_step(start, goal) {
                        let p = seq![start, goal];
                        assert(walk_step(map, p, 0));
                        assert(is_walk(map, p));
                        assert(p[0] == start && p.last() == goal);
                        assert(reachable(map, start, goal));
                    }
                }
                return Vec::new();
            },
            Some(node) => {
                let pos = node.pos;
                proof {
                    lemma_after_pop(map, start, goal, g@, came@, h0, open@, node);
                    if is_step(start, goal) && !found(g@, goal) {
                        assert(h0.to_multiset().count(node) > 0);
                        assert(h0.contains(node));
                        let j0 = choose|j0: int| 0 <= j0 < h0.len() && h0[j0] == node;
                        assert(h0[j0].pos == start);
                    }
                    if pos == goal {
                        assert(found(g@, goal));
                    }
                }
                if pos.0 == goal.0 && pos.1 == goal.1 {
                    return trace_back(map, start, goal, &g, &came, Ghost(h0));
                }
                let ghost popped_st = (g@, came@, open@);
                let mut k: usize = 0;
                while k < 8
                    invariant
                        expand_spec(map, start, goal, (g@, came@, open@), pos, k as int) == expand_spec(
                            map,
                            start,
                            goal,
                            popped_st,
                            pos,
                            0,
                        ),
                        0 <= k <= 8,
                        tame(start, pos),
                        i32::MIN < start.0 < i32::MAX,
                        i32::MIN < start.1 < i32::MAX,
                        map.walkable_at(goal.0 as int, goal.1 as int),
                        start != goal,
                        expanding(map, start, goal, g@, came@, open@, pos, k as int),
                        measure(g@, open@) < measure(gs0, h0),
                        measure(gs0, h0) <= measure_limit(),
                        adjacent_settled(map, start, goal, g@, came@),
                        is_step(start, goal) ==> found(g@, goal) || pos == start,
                    decreases 8 - k,
                {
                    relax(map, start, goal, pos, k, &mut g, &mut came, &mut open);
                    k = k + 1;
                }
                proof {
                    lemma_cost_sum_bounds(g@);
                    assert(expanded(map, g@, start, pos));
                    assert forall|t: (i32, i32)| #[trigger] seen(g@, start, t) implies covered(map, start, goal, g@, open@, t) by {
                        if t == pos {
                            assert(expanded(map, g@, start, pos));
                        }
                    }
                    if is_step(start, goal) && !found(g@, goal) {
                        let kg = lemma_step_direction(start, goal);
                        assert(relaxed(map, g@, start, start, kg));
                        lemma_step_cost_bounds(map.tile_at(goal.0 as int, goal.1 as int), kg);
                        assert(false);
                    }
                    assert((g@, came@, open@) == expand_spec(map, start, goal, popped_st, pos, 0));
                    fuel = (fuel - 1) as nat;
                }
            },
        }
    }
}

/// The `i`-th tile of a reversed walk is walkable and one king move from the next one.
spec fn back_step(map: &TileMap, rev: Seq<(i32, i32)>, i: int) -> bool {
    is_step(rev[i + 1], rev[i]) && map.walkable_at(rev[i].0 as int, rev[i].1 as int)
}

/// Follows the recorded predecessors back from the goal to the start and
/// returns the walk from the start to the goal.
fn trace_back(
    map: &TileMap,
    start: (i32, i32),
    goal: (i32, i32),
    g: &Vec<i32>,
    came: &Vec<Option<(i32, i32)>>,
    h: Ghost<Seq<Node>>,
) -> (path: Vec<(i32, i32)>)
    requires
        search_inv(map, start, goal, g@, came@, h@),
        seen(g@, start, goal),
        start != goal,
        map.walkable_at(goal.0 as int, goal.1 as int),
        is_step(start, goal) ==> came@[tile_index(goal.0 as int, goal.1 as int)] == Some(start),
    ensures
        path.len() > 0,
        is_walk(map, path@),
        path@[0] == start,
        path@.last() == goal,
        reachable(map, start, goal),
        no_repeats(path@),
        is_step(start, goal) ==> path@ == seq![start, goal],
        path@ == trace_path(came@, start, goal),
{
    let mut rev: Vec<(i32, i32)> = Vec::new();
    rev.push(goal);
    let mut cur = goal;
    let ghost mut fuel: nat = (UNSEEN + 1) as nat;
    proof {
        assert(g_of(g@, start, goal) <= UNSEEN) by {
            assert(found(g@, goal));
        }
    }
    loop
        invariant_except_break
            cur != start,
            is_step(start, goal) ==> rev@.len() == 1,
            fuel > g_of(g@, start, cur),
            rev@ + trace_from(came@, start, cur, fuel) == seq![goal] + trace_from(came@, start, goal, (UNSEEN + 1) as nat),
        invariant
            search_inv(map, start, goal, g@, came@, h@),
            is_step(start, goal) ==> came@[tile_index(goal.0 as int, goal.1 as int)] == Some(start),
            seen(g@, start, cur),
            rev@.len() >= 1,
            rev@[0] == goal,
            rev@.last() == cur,
            forall|i: int| 0 <= i < rev@.len() - 1 ==> #[trigger] back_step(map, rev@, i),
            forall|i: int, j: int|
                0 <= i < j < rev@.len() ==> g_of(g@, start, #[trigger] rev@[j]) < g_of(
                    g@,
                    start,
                    #[trigger] rev@[i],
                ),
        ensures
            cur == start,
            is_step(start, goal) ==> rev@ == seq![goal, start],
            rev@ == seq![goal] + trace_from(came@, start, goal, (UNSEEN + 1) as nat),
        decreases g_of(g@, start, cur),
    {
        assert(found(g@, cur));
        assert(linked(map, g@, came@, start, cur));
        let link = came[TileMap::idx(cur.0, cur.1)];
        match link {
            Some(p) => {
                let ghost r0 = rev@;
                rev.push(p);
                proof {
                    assert forall|i: int| 0 <= i < rev@.len() - 1 implies #[trigger] back_step(map, rev@, i) by {
                        if i < r0.len() - 1 {
                            assert(back_step(map, r0, i));
                        }
                    }
                    assert forall|i: int, j: int| 0 <= i < j < rev@.len() implies g_of(g@, start, #[trigger] rev@[j])
                        < g_of(g@, start, #[trigger] rev@[i]) by {
                        if j < r0.len() {
                            assert(rev@[j] == r0[j] && rev@[i] == r0[i]);
                        } else if i < r0.len() - 1 {
                            assert(rev@[i] == r0[i]);
                            assert(g_of(g@, start, r0[r0.len() - 1]) < g_of(g@, start, r0[i]));
                        }
                    }
                }
                proof {
                    if is_step(start, goal) {
                        assert(r0.len() == 1);
                        assert(cur == goal);
                        assert(p == start);
                        assert(rev@ =~= seq![goal, start]);
                    }
                }
                proof {
                    assert(found(g@, cur));
                    assert(trace_from(came@, start, cur, fuel) == (if p == start {
                        seq![p]
                    } else {
                        seq![p] + trace_from(came@, start, p, (fuel - 1) as nat)
                    }));
                    if p == start {
                        assert(rev@ =~= r0 + trace_from(came@, start, cur, fuel));
                    } else {
                        assert(rev@ + trace_from(came@, start, p, (fuel - 1) as nat) =~= r0 + trace_from(
                            came@,
                            start,
                            cur,
                            fuel,
                        ));
                    }
                    fuel = (fuel - 1) as nat;
                }
                cur = p;
                if cur.0 == start.0 && cur.1 == start.1 {
                    break;
                }
            },
            None => {
                break;
            },
        }
    }
    let mut path: Vec<(i32, i32)> = Vec::new();
    let mut i = rev.len();
    while i > 0
        invariant
            i <= rev@.len(),
            path@.len() == rev@.len() - i,
            forall|j: int| 0 <= j < path@.len() ==> #[trigger] path@[j] == rev@[rev@.len() - 1 - j],
        decreases i,
    {
        i = i - 1;
        path.push(rev[i]);
    }
    proof {
        let n = rev@.len();
        assert forall|j: int| 0 <= j < path@.len() - 1 implies #[trigger] walk_step(map, path@, j) by {
            assert(path@[j] == rev@[n - 1 - j]);
            assert(path@[j + 1] == rev@[n - 1 - (j + 1)]);
            assert(back_step(map, rev@, n - 2 - j));
        }
        assert(is_walk(map, path@));
        assert forall|a: int, b: int| 0 <= a < b < path@.len() implies path@[a] != path@[b] by {
            assert(path@[a] == rev@[n - 1 - a]);
            assert(path@[b] == rev@[n - 1 - b]);
            assert(g_of(g@, start, rev@[n - 1 - a]) < g_of(g@, start, rev@[n - 1 - b]));
        }
        assert(path@[0] == start);
        assert(path@.last() == goal);
        if is_step(start, goal) {
            assert(path@ =~= seq![start, goal]);
        }
        assert(path@ =~= rev@.reverse());
    }
    path
}

} // verus!
