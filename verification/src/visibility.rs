//! Line-of-sight and field-of-view computation.
//!
//! A point sees another when it lies within the sight radius and no wall
//! stands strictly between them on the discrete segment that joins them.
//! The segment is always walked from the lexicographically smaller
//! endpoint, so sight is symmetric by construction: A sees B exactly when
//! B sees A, whatever the map holds.

use vstd::prelude::*;
use vstd::arithmetic::div_mod::{
    lemma_div_is_ordered, lemma_div_pos_is_pos, lemma_fundamental_div_mod_converse_div,
};
use crate::components::Position;
use crate::map::{max_int, TileMap};

verus! {

broadcast use vstd::seq_lib::lemma_seq_contains_after_push;

/// The squared Euclidean distance between two points.
pub open spec fn dist2(ax: int, ay: int, bx: int, by: int) -> int {
    (bx - ax) * (bx - ax) + (by - ay) * (by - ay)
}

/// Row-major order on points: `(ax, ay)` comes no later than `(bx, by)`.
pub open spec fn lex_le(ax: int, ay: int, bx: int, by: int) -> bool {
    ay < by || (ay == by && ax <= bx)
}

/// The absolute value of an integer.
pub open spec fn abs_int(v: int) -> int {
    if v >= 0 {
        v
    } else {
        -v
    }
}

/// After `i` of `n` equal steps across a total advance of `d >= 0`, the
/// advance so far, rounded to the nearest whole tile.
pub open spec fn step_toward(d: int, n: int, i: int) -> int {
    (2 * i * d + n) / (2 * n)
}

/// The number of steps of the discrete segment: the larger coordinate
/// distance.
pub open spec fn seg_n(ax: int, ay: int, bx: int, by: int) -> int {
    max_int(abs_int(bx - ax), abs_int(by - ay))
}

/// One coordinate of the `i`-th point of a discrete segment starting at
/// `p0` and advancing by `d` over `n` steps.
pub open spec fn seg_coord(p0: int, d: int, n: int, i: int) -> int {
    if d >= 0 {
        p0 + step_toward(d, n, i)
    } else {
        p0 - step_toward(-d, n, i)
    }
}

/// No wall stands strictly between the two points, walking the segment
/// from `(ax, ay)` to `(bx, by)`.
pub open spec fn ordered_clear(m: TileMap, ax: int, ay: int, bx: int, by: int) -> bool {
    forall|i: int|
        0 < i < seg_n(ax, ay, bx, by) ==> !m.spec_opaque(
            #[trigger] seg_coord(ax, bx - ax, seg_n(ax, ay, bx, by), i),
            seg_coord(ay, by - ay, seg_n(ax, ay, bx, by), i),
        )
}

/// No wall stands strictly between the two points. The segment is walked
/// from the lexicographically smaller endpoint, making this symmetric in
/// its two points.
pub open spec fn sight_clear(m: TileMap, ax: int, ay: int, bx: int, by: int) -> bool {
    if lex_le(ax, ay, bx, by) {
        ordered_clear(m, ax, ay, bx, by)
    } else {
        ordered_clear(m, bx, by, ax, ay)
    }
}

/// `(x, y)` is visible from `(ox, oy)` within the given sight radius:
/// near enough, with no wall strictly between them.
pub open spec fn spec_visible(m: TileMap, ox: int, oy: int, range: int, x: int, y: int) -> bool {
    dist2(ox, oy, x, y) <= range * range && sight_clear(m, ox, oy, x, y)
}

/// Sight is symmetric: a wall-free segment from A to B is one from B
/// to A, on any map.
pub proof fn lemma_sight_symmetric(m: TileMap, ax: int, ay: int, bx: int, by: int)
    ensures
        sight_clear(m, ax, ay, bx, by) == sight_clear(m, bx, by, ax, ay),
{
    if lex_le(ax, ay, bx, by) && lex_le(bx, by, ax, ay) {
        assert(ax == bx && ay == by);
    }
}

/// Visibility is symmetric: B is visible from A within a radius exactly
/// when A is visible from B within that radius, on any map.
pub proof fn lemma_visibility_symmetric(
    m: TileMap,
    range: int,
    ax: int,
    ay: int,
    bx: int,
    by: int,
)
    ensures
        spec_visible(m, ax, ay, range, bx, by) == spec_visible(m, bx, by, range, ax, ay),
{
    lemma_sight_symmetric(m, ax, ay, bx, by);
    assert(dist2(ax, ay, bx, by) == dist2(bx, by, ax, ay)) by (nonlinear_arith);
}

/// Walking one segment, two maps with the same tiles agree on clearness.
proof fn lemma_ordered_clear_same(m1: TileMap, m2: TileMap, ax: int, ay: int, bx: int, by: int)
    requires
        m1.tiles == m2.tiles,
        m1.width == m2.width,
        m1.height == m2.height,
    ensures
        ordered_clear(m1, ax, ay, bx, by) == ordered_clear(m2, ax, ay, bx, by),
{
    let n = seg_n(ax, ay, bx, by);
    if ordered_clear(m1, ax, ay, bx, by) {
        assert forall|i: int| 0 < i < n implies !m2.spec_opaque(
            #[trigger] seg_coord(ax, bx - ax, n, i),
            seg_coord(ay, by - ay, n, i),
        ) by {
            assert(!m1.spec_opaque(seg_coord(ax, bx - ax, n, i), seg_coord(ay, by - ay, n, i)));
        }
    }
    if ordered_clear(m2, ax, ay, bx, by) {
        assert forall|i: int| 0 < i < n implies !m1.spec_opaque(
            #[trigger] seg_coord(ax, bx - ax, n, i),
            seg_coord(ay, by - ay, n, i),
        ) by {
            assert(!m2.spec_opaque(seg_coord(ax, bx - ax, n, i), seg_coord(ay, by - ay, n, i)));
        }
    }
}

/// Visibility depends only on the tiles and the dimensions of the map,
/// never on its fog-of-war flags or room list.
pub proof fn lemma_visible_same_tiles(
    m1: TileMap,
    m2: TileMap,
    ox: int,
    oy: int,
    range: int,
    x: int,
    y: int,
)
    requires
        m1.tiles == m2.tiles,
        m1.width == m2.width,
        m1.height == m2.height,
    ensures
        spec_visible(m1, ox, oy, range, x, y) == spec_visible(m2, ox, oy, range, x, y),
{
    lemma_ordered_clear_same(m1, m2, ox, oy, x, y);
    lemma_ordered_clear_same(m1, m2, x, y, ox, oy);
}

/// Every point sees its own tile: the distance is zero and no tile
/// stands strictly between a point and itself.
pub proof fn lemma_origin_visible(m: TileMap, ox: int, oy: int, range: int)
    requires
        0 <= range,
    ensures
        spec_visible(m, ox, oy, range, ox, oy),
{
    assert(dist2(ox, oy, ox, oy) == 0);
    assert(0 <= range * range) by (nonlinear_arith)
        requires
            0 <= range,
    ;
}

/// A visible point lies inside the square box of the sight radius.
pub proof fn lemma_visible_in_box(m: TileMap, ox: int, oy: int, range: int, x: int, y: int)
    requires
        0 <= range,
        spec_visible(m, ox, oy, range, x, y),
    ensures
        ox - range <= x <= ox + range,
        oy - range <= y <= oy + range,
{
    assert(ox - range <= x <= ox + range && oy - range <= y <= oy + range) by (nonlinear_arith)
        requires
            dist2(ox, oy, x, y) <= range * range,
            0 <= range,
    ;
}

/// The rounded advance stays between zero and the total advance.
proof fn lemma_step_bounds(d: int, n: int, i: int)
    requires
        0 <= d <= n,
        0 < n,
        0 <= i <= n,
    ensures
        0 <= step_toward(d, n, i) <= d,
{
    assert(0 <= 2 * i * d + n && 2 * i * d + n <= 2 * n * d + n && 2 * n * d + n == d * (2 * n)
        + n) by (nonlinear_arith)
        requires
            0 <= d,
            0 < n,
            0 <= i <= n,
    ;
    lemma_div_pos_is_pos(2 * i * d + n, 2 * n);
    lemma_div_is_ordered(2 * i * d + n, 2 * n * d + n, 2 * n);
    lemma_fundamental_div_mod_converse_div(2 * n * d + n, 2 * n, d, n);
}

/// Decide whether no wall stands strictly between the two points.
#[verifier::loop_isolation(false)]
pub fn line_clear(map: &TileMap, ax: i32, ay: i32, bx: i32, by: i32) -> (r: bool)
    requires
        map.wf(),
        -100000 <= ax <= 100000,
        -100000 <= ay <= 100000,
        -100000 <= bx <= 100000,
        -100000 <= by <= 100000,
    ensures
        r == sight_clear(*map, ax as int, ay as int, bx as int, by as int),
{
    let (px, py, qx, qy): (i32, i32, i32, i32) = if ay < by || (ay == by && ax <= bx) {
        (ax, ay, bx, by)
    } else {
        (bx, by, ax, ay)
    };
    proof {
        assert(sight_clear(*map, ax as int, ay as int, bx as int, by as int) == ordered_clear(
            *map,
            px as int,
            py as int,
            qx as int,
            qy as int,
        ));
    }
    let dx: i64 = qx as i64 - px as i64;
    let dy: i64 = qy as i64 - py as i64;
    let adx: u64 = if dx >= 0 {
        dx as u64
    } else {
        (-dx) as u64
    };
    let ady: u64 = dy as u64;
    let n: u64 = if adx > ady {
        adx
    } else {
        ady
    };
    proof {
        assert(n as int == seg_n(px as int, py as int, qx as int, qy as int));
    }
    let mut i: u64 = 1;
    while i < n
        invariant
            1 <= i,
            n >= 1 ==> i <= n,
            forall|j: int|
                0 < j < i ==> !map.spec_opaque(
                    #[trigger] seg_coord(px as int, dx as int, n as int, j),
                    seg_coord(py as int, dy as int, n as int, j),
                ),
        decreases n - i,
    {
        proof {
            lemma_step_bounds(adx as int, n as int, i as int);
            lemma_step_bounds(ady as int, n as int, i as int);
            vstd::arithmetic::mul::lemma_mul_upper_bound(
                2 * i as int,
                800000,
                adx as int,
                400000,
            );
            vstd::arithmetic::mul::lemma_mul_upper_bound(
                2 * i as int,
                800000,
                ady as int,
                400000,
            );
        }
        let off_x: u64 = (2 * i * adx + n) / (2 * n);
        let off_y: u64 = (2 * i * ady + n) / (2 * n);
        let cx: i64 = if dx >= 0 {
            px as i64 + off_x as i64
        } else {
            px as i64 - off_x as i64
        };
        let cy: i64 = py as i64 + off_y as i64;
        proof {
            assert(cx as int == seg_coord(px as int, dx as int, n as int, i as int));
            assert(cy as int == seg_coord(py as int, dy as int, n as int, i as int));
        }
        let cxi: i32 = cx as i32;
        let cyi: i32 = cy as i32;
        if map.in_bounds(cxi, cyi) {
            let idx = map.xy_idx(cxi, cyi);
            if map.is_opaque(idx) {
                proof {
                    assert(map.spec_opaque(
                        seg_coord(px as int, dx as int, n as int, i as int),
                        seg_coord(py as int, dy as int, n as int, i as int),
                    ));
                }
                return false;
            }
        }
        i = i + 1;
    }
    true
}

/// Compute the set of points visible from `origin` within the sight
/// radius. The result is a function of the origin, the radius and the
/// map's tiles alone, and may reach outside the map near its edges; the
/// caller clamps it to the map before storing it.
#[verifier::loop_isolation(false)]
pub fn field_of_view(map: &TileMap, origin: Position, range: i32) -> (r: Vec<Position>)
    requires
        map.wf(),
        map.spec_in_bounds(origin.x as int, origin.y as int),
        1 <= range <= 4096,
    ensures
        forall|p: Position|
            r@.contains(p) <==> spec_visible(
                *map,
                origin.x as int,
                origin.y as int,
                range as int,
                p.x as int,
                p.y as int,
            ),
{
    let mut result: Vec<Position> = Vec::new();
    let mut dy: i32 = -range;
    proof {
        assert forall|p: Position|
            spec_visible(
                *map,
                origin.x as int,
                origin.y as int,
                range as int,
                p.x as int,
                p.y as int,
            ) && p.y < origin.y + dy implies false by {
            lemma_visible_in_box(
                *map,
                origin.x as int,
                origin.y as int,
                range as int,
                p.x as int,
                p.y as int,
            );
        }
    }
    while dy <= range
        invariant
            -range <= dy <= range + 1,
            forall|p: Position|
                #[trigger] result@.contains(p) ==> spec_visible(
                    *map,
                    origin.x as int,
                    origin.y as int,
                    range as int,
                    p.x as int,
                    p.y as int,
                ),
            forall|p: Position|
                spec_visible(
                    *map,
                    origin.x as int,
                    origin.y as int,
                    range as int,
                    p.x as int,
                    p.y as int,
                ) && p.y < origin.y + dy ==> #[trigger] result@.contains(p),
        decreases range + 1 - dy,
    {
        let mut dx: i32 = -range;
        proof {
            assert forall|p: Position|
                spec_visible(
                    *map,
                    origin.x as int,
                    origin.y as int,
                    range as int,
                    p.x as int,
                    p.y as int,
                ) && p.y == origin.y + dy && p.x < origin.x + dx implies
                #[trigger] result@.contains(p) by {
                lemma_visible_in_box(
                    *map,
                    origin.x as int,
                    origin.y as int,
                    range as int,
                    p.x as int,
                    p.y as int,
                );
            }
        }
        while dx <= range
            invariant
                -range <= dx <= range + 1,
                -range <= dy <= range,
                forall|p: Position|
                    #[trigger] result@.contains(p) ==> spec_visible(
                        *map,
                        origin.x as int,
                        origin.y as int,
                        range as int,
                        p.x as int,
                        p.y as int,
                    ),
                forall|p: Position|
                    spec_visible(
                        *map,
                        origin.x as int,
                        origin.y as int,
                        range as int,
                        p.x as int,
                        p.y as int,
                    ) && (p.y < origin.y + dy || (p.y == origin.y + dy && p.x < origin.x + dx))
                        ==> #[trigger] result@.contains(p),
            decreases range + 1 - dx,
        {
            let px: i32 = origin.x + dx;
            let py: i32 = origin.y + dy;
            proof {
                assert(0 <= (dx as int) * (dx as int) <= 16777216 && 0 <= (dy as int) * (dy
                    as int) <= 16777216) by (nonlinear_arith)
                    requires
                        -4096 <= dx <= 4096,
                        -4096 <= dy <= 4096,
                ;
                assert(0 <= (range as int) * (range as int) <= 16777216) by (nonlinear_arith)
                    requires
                        1 <= range <= 4096,
                ;
            }
            let d2: i64 = (dx as i64) * (dx as i64) + (dy as i64) * (dy as i64);
            let r2: i64 = (range as i64) * (range as i64);
            if d2 <= r2 && line_clear(map, origin.x, origin.y, px, py) {
                result.push(Position { x: px, y: py });
            }
            proof {
                let p0 = Position { x: px, y: py };
                assert forall|p: Position|
                    spec_visible(
                        *map,
                        origin.x as int,
                        origin.y as int,
                        range as int,
                        p.x as int,
                        p.y as int,
                    ) && (p.y < origin.y + dy || (p.y == origin.y + dy && p.x < origin.x + dx
                        + 1)) implies #[trigger] result@.contains(p) by {
                    if p.y == origin.y + dy && p.x == origin.x + dx {
                        assert(p == p0);
                        assert(result@.contains(p0));
                    }
                }
            }
            dx = dx + 1;
        }
        proof {
            assert forall|p: Position|
                spec_visible(
                    *map,
                    origin.x as int,
                    origin.y as int,
                    range as int,
                    p.x as int,
                    p.y as int,
                ) && p.y < origin.y + dy + 1 implies #[trigger] result@.contains(p) by {
                lemma_visible_in_box(
                    *map,
                    origin.x as int,
                    origin.y as int,
                    range as int,
                    p.x as int,
                    p.y as int,
                );
            }
        }
        dy = dy + 1;
    }
    proof {
        assert forall|p: Position|
            spec_visible(
                *map,
                origin.x as int,
                origin.y as int,
                range as int,
                p.x as int,
                p.y as int,
            ) implies #[trigger] result@.contains(p) by {
            lemma_visible_in_box(
                *map,
                origin.x as int,
                origin.y as int,
                range as int,
                p.x as int,
                p.y as int,
            );
        }
    }
    result
}

/// Keep only the points that lie inside the map.
#[verifier::loop_isolation(false)]
pub fn clamp_to_map(map: &TileMap, pts: &Vec<Position>) -> (r: Vec<Position>)
    ensures
        forall|p: Position|
            #[trigger] r@.contains(p) <==> pts@.contains(p) && map.spec_in_bounds(
                p.x as int,
                p.y as int,
            ),
{
    let mut result: Vec<Position> = Vec::new();
    let mut k: usize = 0;
    while k < pts.len()
        invariant
            k <= pts.len(),
            forall|p: Position|
                #[trigger] result@.contains(p) ==> pts@.contains(p) && map.spec_in_bounds(
                    p.x as int,
                    p.y as int,
                ),
            forall|j: int|
                0 <= j < k && map.spec_in_bounds(pts@[j].x as int, pts@[j].y as int)
                    ==> result@.contains(#[trigger] pts@[j]),
        decreases pts.len() - k,
    {
        let p = pts[k];
        if map.in_bounds(p.x, p.y) {
            result.push(p);
            proof {
                assert(pts@.contains(pts@[k as int]));
            }
        }
        k = k + 1;
    }
    proof {
        assert forall|p: Position|
            pts@.contains(p) && map.spec_in_bounds(p.x as int, p.y as int) implies
            #[trigger] result@.contains(p) by {
            let j = choose|j: int| 0 <= j < pts@.len() && pts@[j] == p;
            assert(result@.contains(pts@[j]));
        }
    }
    result
}

} // verus!
