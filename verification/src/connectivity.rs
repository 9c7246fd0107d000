//! Floor connectivity: a flood fill over floor tiles reaches exactly the
//! coordinates joined by a chain of side-adjacent floor tiles, so
//! reachability is stated here as the existence of such a chain.

use vstd::prelude::*;
use crate::map::TileMap;

verus! {

/// The two coordinates are side by side: one step apart horizontally or
/// vertically.
pub open spec fn step_adjacent(p: (int, int), q: (int, int)) -> bool {
    (p.0 == q.0 && (q.1 == p.1 + 1 || q.1 == p.1 - 1)) || (p.1 == q.1 && (q.0 == p.0 + 1 || q.0
        == p.0 - 1))
}

/// A walk over the map: non-empty, every coordinate an in-bounds floor
/// tile, and consecutive coordinates side-adjacent.
pub open spec fn is_floor_path(m: TileMap, path: Seq<(int, int)>) -> bool {
    &&& path.len() >= 1
    &&& forall|k: int| 0 <= k < path.len() ==> m.is_floor_at(#[trigger] path[k].0, path[k].1)
    &&& forall|k: int| 0 <= k < path.len() - 1 ==> step_adjacent(#[trigger] path[k], path[k + 1])
}

/// A floor-only flood fill starting at `a` reaches `b`.
pub open spec fn floor_connected(m: TileMap, a: (int, int), b: (int, int)) -> bool {
    exists|path: Seq<(int, int)>| is_floor_path(m, path) && path.first() == a && path.last() == b
}

/// A floor tile is connected to itself.
pub proof fn lemma_connected_refl(m: TileMap, a: (int, int))
    requires
        m.is_floor_at(a.0, a.1),
    ensures
        floor_connected(m, a, a),
{
    let path = seq![a];
    assert(is_floor_path(m, path) && path.first() == a && path.last() == a);
}

/// Connectivity is symmetric: the reversed chain joins `b` to `a`.
pub proof fn lemma_connected_sym(m: TileMap, a: (int, int), b: (int, int))
    requires
        floor_connected(m, a, b),
    ensures
        floor_connected(m, b, a),
{
    let path = choose|path: Seq<(int, int)>|
        is_floor_path(m, path) && path.first() == a && path.last() == b;
    let n = path.len() as int;
    let rev = Seq::new(path.len(), |i: int| path[n - 1 - i]);
    assert forall|k: int| 0 <= k < rev.len() - 1 implies step_adjacent(
        #[trigger] rev[k],
        rev[k + 1],
    ) by {
        assert(step_adjacent(path[n - 2 - k], path[n - 1 - k]));
    }
    assert(is_floor_path(m, rev) && rev.first() == b && rev.last() == a);
}

/// Connectivity is transitive: the chains concatenate.
pub proof fn lemma_connected_trans(m: TileMap, a: (int, int), b: (int, int), c: (int, int))
    requires
        floor_connected(m, a, b),
        floor_connected(m, b, c),
    ensures
        floor_connected(m, a, c),
{
    let p1 = choose|path: Seq<(int, int)>|
        is_floor_path(m, path) && path.first() == a && path.last() == b;
    let p2 = choose|path: Seq<(int, int)>|
        is_floor_path(m, path) && path.first() == b && path.last() == c;
    if p2.len() == 1 {
        assert(is_floor_path(m, p1) && p1.first() == a && p1.last() == c);
    } else {
        let joined = p1 + p2.skip(1);
        assert forall|k: int| 0 <= k < joined.len() - 1 implies step_adjacent(
            #[trigger] joined[k],
            joined[k + 1],
        ) by {
            if k < p1.len() - 1 {
                assert(step_adjacent(p1[k], p1[k + 1]));
            } else if k == p1.len() - 1 {
                assert(joined[k] == p1.last());
                assert(joined[k + 1] == p2[1]);
                assert(step_adjacent(p2[0], p2[1]));
            } else {
                let j = k - p1.len() + 1;
                assert(joined[k] == p2[j]);
                assert(joined[k + 1] == p2[j + 1]);
                assert(step_adjacent(p2[j], p2[j + 1]));
            }
        }
        assert(joined.last() == p2[p2.len() - 1]);
        assert(is_floor_path(m, joined) && joined.first() == a && joined.last() == c);
    }
}

/// Turning walls into floor never breaks a connection: any chain in the
/// old map is a chain in the new one.
pub proof fn lemma_connected_monotone(m1: TileMap, m2: TileMap, a: (int, int), b: (int, int))
    requires
        floor_connected(m1, a, b),
        forall|x: int, y: int| m1.is_floor_at(x, y) ==> m2.is_floor_at(x, y),
    ensures
        floor_connected(m2, a, b),
{
    let path = choose|path: Seq<(int, int)>|
        is_floor_path(m1, path) && path.first() == a && path.last() == b;
    assert(is_floor_path(m2, path));
}

/// A connection extends by one adjacent floor tile.
pub proof fn lemma_connected_step(m: TileMap, a: (int, int), b: (int, int), c: (int, int))
    requires
        floor_connected(m, a, b),
        step_adjacent(b, c),
        m.is_floor_at(c.0, c.1),
    ensures
        floor_connected(m, a, c),
{
    let path = choose|path: Seq<(int, int)>|
        is_floor_path(m, path) && path.first() == a && path.last() == b;
    let extended = path.push(c);
    assert forall|k: int| 0 <= k < extended.len() - 1 implies step_adjacent(
        #[trigger] extended[k],
        extended[k + 1],
    ) by {
        if k < path.len() - 1 {
            assert(step_adjacent(path[k], path[k + 1]));
        }
    }
    assert(is_floor_path(m, extended) && extended.first() == a && extended.last() == c);
}

/// A row of floor tiles joins its two ends.
pub proof fn lemma_horizontal_run_connected(m: TileMap, x_lo: int, x_hi: int, y: int)
    requires
        x_lo <= x_hi,
        forall|a: int| x_lo <= a <= x_hi ==> m.is_floor_at(a, y),
    ensures
        floor_connected(m, (x_lo, y), (x_hi, y)),
    decreases x_hi - x_lo,
{
    if x_lo == x_hi {
        lemma_connected_refl(m, (x_lo, y));
    } else {
        lemma_horizontal_run_connected(m, x_lo, x_hi - 1, y);
        lemma_connected_step(m, (x_lo, y), (x_hi - 1, y), (x_hi, y));
    }
}

/// A column of floor tiles joins its two ends.
pub proof fn lemma_vertical_run_connected(m: TileMap, y_lo: int, y_hi: int, x: int)
    requires
        y_lo <= y_hi,
        forall|b: int| y_lo <= b <= y_hi ==> m.is_floor_at(x, b),
    ensures
        floor_connected(m, (x, y_lo), (x, y_hi)),
    decreases y_hi - y_lo,
{
    if y_lo == y_hi {
        lemma_connected_refl(m, (x, y_lo));
    } else {
        lemma_vertical_run_connected(m, y_lo, y_hi - 1, x);
        lemma_connected_step(m, (x, y_lo), (x, y_hi - 1), (x, y_hi));
    }
}

} // verus!
