use vstd::prelude::*;

verus! {

/// Absolute value of an integer, in spec.
pub open spec fn abs_int(v: int) -> int {
    if v < 0 { -v } else { v }
}

/// Manhattan distance between two tiles, in spec.
pub open spec fn manhattan(a: (int, int), b: (int, int)) -> int {
    abs_int(a.0 - b.0) + abs_int(a.1 - b.1)
}

/// Manhattan distance between two tiles.
pub fn distance(a: (i32, i32), b: (i32, i32)) -> (d: i32)
    requires
        i32::MIN < a.0 - b.0 <= i32::MAX,
        i32::MIN < a.1 - b.1 <= i32::MAX,
        manhattan((a.0 as int, a.1 as int), (b.0 as int, b.1 as int)) <= i32::MAX,
    ensures
        d == manhattan((a.0 as int, a.1 as int), (b.0 as int, b.1 as int)),
{
    let dx = a.0 - b.0;
    let dy = a.1 - b.1;
    let ax = if dx < 0 { -dx } else { dx };
    let ay = if dy < 0 { -dy } else { dy };
    ax + ay
}


/// Manhattan distance is a metric: zero exactly between equal tiles,
/// symmetric, and never longer than a detour through a third tile.
pub proof fn lemma_manhattan_metric(a: (int, int), b: (int, int), c: (int, int))
    ensures
        manhattan(a, b) >= 0,
        manhattan(a, b) == 0 <==> a == b,
        manhattan(a, b) == manhattan(b, a),
        manhattan(a, c) <= manhattan(a, b) + manhattan(b, c),
{
}

} // verus!
