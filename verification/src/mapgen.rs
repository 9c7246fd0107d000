//! The level generator: up to `max_rooms` random rooms are placed inside
//! the map, candidates that would touch an already accepted room are
//! rejected, and each accepted room is joined to the previous one by an
//! L-shaped corridor. The resulting map keeps a solid wall border, its
//! rooms pairwise separate, and every room centre reachable from every
//! other over floor tiles.

use vstd::prelude::*;
use crate::connectivity::{
    floor_connected, lemma_connected_monotone, lemma_connected_refl, lemma_connected_sym,
    lemma_connected_trans, lemma_horizontal_run_connected, lemma_vertical_run_connected,
};
use crate::map::{max_int, min_int, TileMap, TileType, MAP_HEIGHT, MAP_WIDTH};
use crate::map::filled;
use crate::rect::Rect;
use crate::rng::{rng_new, rng_range, rng_roll_dice, rng_seeded};

verus! {

/// Smallest room extent the generator draws, border included.
pub const MIN_ROOM_SIZE: i32 = 6;

/// One past the largest room extent the generator draws.
pub const MAX_ROOM_SIZE: i32 = 10;

/// Everything the generator keeps true of the map it is building.
///
/// Reading the clauses in order: the map is well formed with the fixed
/// dimensions; the border is all wall; accepted rooms are pairwise
/// non-intersecting, drawn within the sampled size range, carved to floor
/// over their interiors, with their centres on floor and every centre
/// joined over floor to the centre of the last accepted room; floor exists
/// only inside room interiors until a corridor has been carved (which
/// happens only once a second room is accepted); and nothing has been
/// revealed or made visible yet.
pub open spec fn gen_wf(map: TileMap) -> bool {
    &&& map.wf()
    &&& map.width == MAP_WIDTH
    &&& map.height == MAP_HEIGHT
    &&& forall|x: int, y: int|
        map.spec_in_bounds(x, y) && (x == 0 || x == map.width - 1 || y == 0 || y == map.height - 1)
            ==> #[trigger] map.tile(x, y) == TileType::Wall
    &&& forall|i: int, j: int|
        0 <= i < j < map.rooms.len() ==> !(#[trigger] map.rooms[i]).spec_intersect(
            #[trigger] map.rooms[j],
        )
    &&& forall|i: int|
        0 <= i < map.rooms.len() ==> MIN_ROOM_SIZE <= (#[trigger] map.rooms[i]).x2
            - map.rooms[i].x1 < MAX_ROOM_SIZE && MIN_ROOM_SIZE <= map.rooms[i].y2 - map.rooms[i].y1
            < MAX_ROOM_SIZE
    &&& forall|i: int, x: int, y: int|
        0 <= i < map.rooms.len() && #[trigger] map.rooms[i].in_interior(x, y) ==> map.tile(x, y)
            == TileType::Floor
    &&& forall|i: int|
        0 <= i < map.rooms.len() ==> map.is_floor_at(
            (#[trigger] map.rooms[i]).spec_center().0,
            map.rooms[i].spec_center().1,
        )
    &&& forall|i: int|
        0 <= i < map.rooms.len() ==> floor_connected(
            map,
            (#[trigger] map.rooms[i]).spec_center(),
            map.rooms[map.rooms.len() - 1].spec_center(),
        )
    &&& forall|x: int, y: int|
        map.spec_in_bounds(x, y) && #[trigger] map.tile(x, y) == TileType::Floor ==> (exists|i: int|
            0 <= i < map.rooms.len() && (#[trigger] map.rooms[i]).in_interior(x, y))
            || map.rooms.len() >= 2
    &&& forall|i: int|
        0 <= i < map.tiles.len() ==> !(#[trigger] map.revealed_tiles[i]) && !map.visible_tiles[i]
}

/// A sampled candidate room: inside the map interior with margin, and of
/// the sampled extent.
pub open spec fn candidate_ok(r: Rect) -> bool {
    &&& 0 <= r.x1
    &&& MIN_ROOM_SIZE <= r.x2 - r.x1 < MAX_ROOM_SIZE
    &&& r.x2 + 3 <= MAP_WIDTH
    &&& 0 <= r.y1
    &&& MIN_ROOM_SIZE <= r.y2 - r.y1 < MAX_ROOM_SIZE
    &&& r.y2 + 3 <= MAP_HEIGHT
}

/// A row of floor joins any two points on it, whichever order their
/// columns come in.
proof fn lemma_row_connects(m: TileMap, xa: int, xb: int, y: int)
    requires
        forall|a: int| min_int(xa, xb) <= a <= max_int(xa, xb) ==> m.is_floor_at(a, y),
    ensures
        floor_connected(m, (xa, y), (xb, y)),
{
    if xa <= xb {
        lemma_horizontal_run_connected(m, xa, xb, y);
    } else {
        lemma_horizontal_run_connected(m, xb, xa, y);
        lemma_connected_sym(m, (xb, y), (xa, y));
    }
}

/// A column of floor joins any two points on it, whichever order their
/// rows come in.
proof fn lemma_column_connects(m: TileMap, ya: int, yb: int, x: int)
    requires
        forall|b: int| min_int(ya, yb) <= b <= max_int(ya, yb) ==> m.is_floor_at(x, b),
    ensures
        floor_connected(m, (x, ya), (x, yb)),
{
    if ya <= yb {
        lemma_vertical_run_connected(m, ya, yb, x);
    } else {
        lemma_vertical_run_connected(m, yb, ya, x);
        lemma_connected_sym(m, (x, yb), (x, ya));
    }
}

/// Carve an L-shaped corridor of floor between two in-bounds points that
/// keep one tile of margin to the border, flipping a coin for whether the
/// horizontal or the vertical leg comes first. Existing floor is kept, the
/// border stays wall, and afterwards the two points are joined over floor.
pub(crate) fn connect_to_previous(
    map: &mut TileMap,
    prev_center: (i32, i32),
    new_center: (i32, i32),
    rng: &mut bracket_lib::prelude::RandomNumberGenerator,
)
    requires
        old(map).wf(),
        1 <= prev_center.0 <= old(map).width - 2,
        1 <= prev_center.1 <= old(map).height - 2,
        1 <= new_center.0 <= old(map).width - 2,
        1 <= new_center.1 <= old(map).height - 2,
        forall|x: int, y: int|
            old(map).spec_in_bounds(x, y) && (x == 0 || x == old(map).width - 1 || y == 0 || y
                == old(map).height - 1) ==> #[trigger] old(map).tile(x, y) == TileType::Wall,
    ensures
        final(map).wf(),
        final(map).width == old(map).width,
        final(map).height == old(map).height,
        final(map).rooms == old(map).rooms,
        final(map).revealed_tiles == old(map).revealed_tiles,
        final(map).visible_tiles == old(map).visible_tiles,
        final(map).tiles.len() == old(map).tiles.len(),
        forall|x: int, y: int|
            old(map).is_floor_at(x, y) ==> #[trigger] final(map).is_floor_at(x, y),
        floor_connected(
            *final(map),
            (prev_center.0 as int, prev_center.1 as int),
            (new_center.0 as int, new_center.1 as int),
        ),
        forall|x: int, y: int|
            final(map).spec_in_bounds(x, y) && (x == 0 || x == final(map).width - 1 || y == 0 || y
                == final(map).height - 1) ==> #[trigger] final(map).tile(x, y) == TileType::Wall,
{
    let ghost m0: TileMap = *map;
    let coin = rng_roll_dice(rng, 1, 2);
    if coin == 1 {
        map.apply_horizontal_tunnel(prev_center.0, new_center.0, prev_center.1);
        map.apply_vertical_tunnel(prev_center.1, new_center.1, new_center.0);
    } else {
        map.apply_vertical_tunnel(prev_center.1, new_center.1, prev_center.0);
        map.apply_horizontal_tunnel(prev_center.0, new_center.0, new_center.1);
    }
    proof {
        let pc = (prev_center.0 as int, prev_center.1 as int);
        let nc = (new_center.0 as int, new_center.1 as int);
        assert forall|x: int, y: int| m0.is_floor_at(x, y) implies #[trigger] map.is_floor_at(
            x,
            y,
        ) by {}
        if coin == 1 {
            lemma_row_connects(*map, pc.0, nc.0, pc.1);
            lemma_column_connects(*map, pc.1, nc.1, nc.0);
            lemma_connected_trans(*map, pc, (nc.0, pc.1), nc);
        } else {
            lemma_column_connects(*map, pc.1, nc.1, pc.0);
            lemma_row_connects(*map, pc.0, nc.0, nc.1);
            lemma_connected_trans(*map, pc, (pc.0, nc.1), nc);
        }
        assert forall|x: int, y: int|
            map.spec_in_bounds(x, y) && (x == 0 || x == map.width - 1 || y == 0 || y == map.height
                - 1) implies #[trigger] map.tile(x, y) == TileType::Wall by {
            assert(m0.tile(x, y) == TileType::Wall);
        }
    }
}

/// The state between carving a candidate room and appending it to the
/// room list: every clause of [`gen_wf`] holds of the accepted rooms, the
/// candidate is carved and clear of them, and floor may additionally lie
/// in the candidate's interior or, once at least one room was already
/// accepted (so a corridor may have been carved), anywhere.
pub(crate) open spec fn gen_mid(map: TileMap, new_room: Rect) -> bool {
    &&& map.wf()
    &&& map.width == MAP_WIDTH
    &&& map.height == MAP_HEIGHT
    &&& candidate_ok(new_room)
    &&& forall|x: int, y: int|
        map.spec_in_bounds(x, y) && (x == 0 || x == map.width - 1 || y == 0 || y == map.height - 1)
            ==> #[trigger] map.tile(x, y) == TileType::Wall
    &&& forall|i: int, j: int|
        0 <= i < j < map.rooms.len() ==> !(#[trigger] map.rooms[i]).spec_intersect(
            #[trigger] map.rooms[j],
        )
    &&& forall|j: int|
        0 <= j < map.rooms.len() ==> !new_room.spec_intersect(#[trigger] map.rooms[j])
    &&& forall|i: int|
        0 <= i < map.rooms.len() ==> MIN_ROOM_SIZE <= (#[trigger] map.rooms[i]).x2
            - map.rooms[i].x1 < MAX_ROOM_SIZE && MIN_ROOM_SIZE <= map.rooms[i].y2 - map.rooms[i].y1
            < MAX_ROOM_SIZE
    &&& forall|i: int, x: int, y: int|
        0 <= i < map.rooms.len() && #[trigger] map.rooms[i].in_interior(x, y) ==> map.tile(x, y)
            == TileType::Floor
    &&& forall|x: int, y: int| new_room.in_interior(x, y) ==> #[trigger] map.tile(x, y) == TileType::Floor
    &&& forall|i: int|
        0 <= i < map.rooms.len() ==> map.is_floor_at(
            (#[trigger] map.rooms[i]).spec_center().0,
            map.rooms[i].spec_center().1,
        )
    &&& forall|i: int|
        0 <= i < map.rooms.len() ==> floor_connected(
            map,
            (#[trigger] map.rooms[i]).spec_center(),
            map.rooms[map.rooms.len() - 1].spec_center(),
        )
    &&& forall|x: int, y: int|
        map.spec_in_bounds(x, y) && #[trigger] map.tile(x, y) == TileType::Floor ==> (exists|i: int|
            0 <= i < map.rooms.len() && (#[trigger] map.rooms[i]).in_interior(x, y))
            || new_room.in_interior(x, y) || map.rooms.len() >= 1
    &&& forall|i: int|
        0 <= i < map.tiles.len() ==> !(#[trigger] map.revealed_tiles[i]) && !map.visible_tiles[i]
}

/// Carve the interior of an accepted candidate.
#[verifier::rlimit(100)]
pub(crate) fn carve_candidate(map: &mut TileMap, new_room: Rect)
    requires
        gen_wf(*old(map)),
        candidate_ok(new_room),
        forall|j: int|
            0 <= j < old(map).rooms.len() ==> !new_room.spec_intersect(
                #[trigger] old(map).rooms[j],
            ),
    ensures
        gen_mid(*final(map), new_room),
        final(map).rooms == old(map).rooms,
{
    let ghost m_pre = *map;
    map.apply_room_to_map(&new_room);
    proof {
        assert forall|a: int, b: int| m_pre.is_floor_at(a, b) implies map.is_floor_at(a, b) by {}
        assert forall|i: int| 0 <= i < map.rooms.len() implies floor_connected(
            *map,
            (#[trigger] map.rooms[i]).spec_center(),
            map.rooms[map.rooms.len() - 1].spec_center(),
        ) by {
            lemma_connected_monotone(
                m_pre,
                *map,
                map.rooms[i].spec_center(),
                map.rooms[map.rooms.len() - 1].spec_center(),
            );
        }
    }
}

/// Join a freshly carved candidate to the last accepted room by a
/// corridor; afterwards every accepted room centre is joined over floor
/// to the candidate's centre.
#[verifier::rlimit(100)]
pub(crate) fn join_candidate(
    map: &mut TileMap,
    new_room: Rect,
    rng: &mut bracket_lib::prelude::RandomNumberGenerator,
)
    requires
        gen_mid(*old(map), new_room),
        old(map).rooms.len() > 0,
    ensures
        gen_mid(*final(map), new_room),
        final(map).rooms == old(map).rooms,
        forall|i: int|
            0 <= i < final(map).rooms.len() ==> floor_connected(
                *final(map),
                (#[trigger] final(map).rooms[i]).spec_center(),
                new_room.spec_center(),
            ),
{
    let ghost m_room = *map;
    let new_center = new_room.center();
    proof {
        assert(new_room.x1 + 1 <= new_center.0 <= new_room.x2 - 1);
        assert(new_room.y1 + 1 <= new_center.1 <= new_room.y2 - 1);
    }
    let prev: Rect = map.rooms[map.rooms.len() - 1];
    let prev_center = prev.center();
    proof {
        assert(prev.x1 + 1 <= prev_center.0 <= prev.x2 - 1);
        assert(prev.y1 + 1 <= prev_center.1 <= prev.y2 - 1);
    }
    connect_to_previous(map, prev_center, new_center, rng);
    proof {
        let pc = (prev_center.0 as int, prev_center.1 as int);
        let nc = (new_center.0 as int, new_center.1 as int);
        assert(nc == new_room.spec_center());
        assert(pc == map.rooms[map.rooms.len() - 1].spec_center());
        assert forall|i: int| 0 <= i < map.rooms.len() implies floor_connected(
            *map,
            (#[trigger] map.rooms[i]).spec_center(),
            nc,
        ) by {
            lemma_connected_monotone(m_room, *map, map.rooms[i].spec_center(), pc);
            lemma_connected_trans(*map, map.rooms[i].spec_center(), pc, nc);
        }
        assert forall|i: int, x: int, y: int|
            0 <= i < map.rooms.len() && #[trigger] map.rooms[i].in_interior(x, y) implies map.tile(
            x,
            y,
        ) == TileType::Floor by {
            assert(m_room.is_floor_at(x, y));
            assert(map.is_floor_at(x, y));
        }
        assert forall|x: int, y: int| new_room.in_interior(x, y) implies #[trigger] map.tile(
            x,
            y,
        ) == TileType::Floor by {
            assert(m_room.is_floor_at(x, y));
            assert(map.is_floor_at(x, y));
        }
        assert forall|i: int| 0 <= i < map.rooms.len() implies map.is_floor_at(
            (#[trigger] map.rooms[i]).spec_center().0,
            map.rooms[i].spec_center().1,
        ) by {
            assert(m_room.is_floor_at(
                map.rooms[i].spec_center().0,
                map.rooms[i].spec_center().1,
            ));
        }
    }
}

/// Append a carved, joined candidate to the room list, restoring the
/// generator invariant.
#[verifier::rlimit(100)]
pub(crate) fn push_candidate(map: &mut TileMap, new_room: Rect)
    requires
        gen_mid(*old(map), new_room),
        forall|i: int|
            0 <= i < old(map).rooms.len() ==> floor_connected(
                *old(map),
                (#[trigger] old(map).rooms[i]).spec_center(),
                new_room.spec_center(),
            ),
    ensures
        gen_wf(*final(map)),
        final(map).rooms@ == old(map).rooms@.push(new_room),
{
    proof {
        assert(new_room.x1 + 1 <= new_room.spec_center().0 <= new_room.x2 - 1);
        assert(new_room.y1 + 1 <= new_room.spec_center().1 <= new_room.y2 - 1);
        assert(new_room.in_interior(new_room.spec_center().0, new_room.spec_center().1));
        assert(map.is_floor_at(new_room.spec_center().0, new_room.spec_center().1));
        lemma_connected_refl(*map, new_room.spec_center());
    }
    let ghost m_room = *map;
    let ghost n_old = map.rooms.len() as int;
    map.rooms.push(new_room);
    proof {
        let nc = new_room.spec_center();
        assert(map.rooms[map.rooms.len() - 1] == new_room);
        assert forall|x: int, y: int| #[trigger] map.tile(x, y) == m_room.tile(x, y) by {}
        assert forall|i: int, j: int|
            0 <= i < j < map.rooms.len() implies !(#[trigger] map.rooms[i]).spec_intersect(
            #[trigger] map.rooms[j],
        ) by {
            assert(map.rooms[i] == m_room.rooms[i]);
            if j == n_old {
                assert(!new_room.spec_intersect(m_room.rooms[i]));
            } else {
                assert(map.rooms[j] == m_room.rooms[j]);
            }
        }
        assert forall|i: int|
            0 <= i < map.rooms.len() implies MIN_ROOM_SIZE <= (#[trigger] map.rooms[i]).x2
            - map.rooms[i].x1 < MAX_ROOM_SIZE && MIN_ROOM_SIZE <= map.rooms[i].y2
            - map.rooms[i].y1 < MAX_ROOM_SIZE by {
            if i < n_old {
                assert(map.rooms[i] == m_room.rooms[i]);
            } else {
                assert(map.rooms[i] == new_room);
            }
        }
        assert forall|i: int, x: int, y: int|
            0 <= i < map.rooms.len() && #[trigger] map.rooms[i].in_interior(x, y) implies map.tile(
            x,
            y,
        ) == TileType::Floor by {
            if i < n_old {
                assert(map.rooms[i] == m_room.rooms[i]);
                assert(m_room.tile(x, y) == TileType::Floor);
            } else {
                assert(map.rooms[i] == new_room);
                assert(m_room.tile(x, y) == TileType::Floor);
            }
        }
        assert forall|i: int| 0 <= i < map.rooms.len() implies map.is_floor_at(
            (#[trigger] map.rooms[i]).spec_center().0,
            map.rooms[i].spec_center().1,
        ) by {
            if i < n_old {
                assert(map.rooms[i] == m_room.rooms[i]);
                assert(m_room.is_floor_at(
                    map.rooms[i].spec_center().0,
                    map.rooms[i].spec_center().1,
                ));
            } else {
                assert(map.rooms[i] == new_room);
                assert(m_room.is_floor_at(nc.0, nc.1));
            }
        }
        assert forall|i: int| 0 <= i < map.rooms.len() implies floor_connected(
            *map,
            (#[trigger] map.rooms[i]).spec_center(),
            map.rooms[map.rooms.len() - 1].spec_center(),
        ) by {
            if i < n_old {
                assert(map.rooms[i] == m_room.rooms[i]);
            }
        }
        assert forall|a: int, b: int|
            map.spec_in_bounds(a, b) && #[trigger] map.tile(a, b) == TileType::Floor implies (
        exists|i: int|
            0 <= i < map.rooms.len() && (#[trigger] map.rooms[i]).in_interior(a, b))
            || map.rooms.len() >= 2 by {
            if map.rooms.len() < 2 {
                assert(n_old == 0);
                assert(m_room.tile(a, b) == map.tile(a, b));
                assert(new_room.in_interior(a, b));
                assert(map.rooms[0].in_interior(a, b));
            }
        }
    }
}

/// Accept a candidate room that intersects no accepted room: carve its
/// interior, join its centre to the centre of the previously accepted
/// room (when there is one), and append it to the room list.
pub(crate) fn accept_room(
    map: &mut TileMap,
    new_room: Rect,
    rng: &mut bracket_lib::prelude::RandomNumberGenerator,
)
    requires
        gen_wf(*old(map)),
        candidate_ok(new_room),
        forall|j: int|
            0 <= j < old(map).rooms.len() ==> !new_room.spec_intersect(
                #[trigger] old(map).rooms[j],
            ),
    ensures
        gen_wf(*final(map)),
        final(map).rooms@ == old(map).rooms@.push(new_room),
{
    carve_candidate(map, new_room);
    if map.rooms.len() != 0 {
        join_candidate(map, new_room, rng);
    }
    push_candidate(map, new_room);
}

impl TileMap {
    /// Generate a map of random rooms joined by corridors. With a seed the
    /// layout is a function of the seed alone; without one it differs from
    /// call to call.
    #[verifier::loop_isolation(false)]
    #[verifier::rlimit(100)]
    #[verifier::spinoff_prover]
    pub fn new_map_rooms_and_corridors(max_rooms: usize, seed: Option<u64>) -> (map: TileMap)
        ensures
            gen_wf(map),
            map.rooms.len() <= max_rooms,
            max_rooms >= 1 ==> map.rooms.len() >= 1,
            forall|i: int, j: int|
                0 <= i < map.rooms.len() && 0 <= j < map.rooms.len() ==> floor_connected(
                    map,
                    (#[trigger] map.rooms[i]).spec_center(),
                    (#[trigger] map.rooms[j]).spec_center(),
                ),
            map.rooms.len() == 1 ==> forall|x: int, y: int|
                map.spec_in_bounds(x, y) ==> ((#[trigger] map.tile(x, y) == TileType::Floor)
                    <==> map.rooms[0].in_interior(x, y)),
    {
        let mut map = TileMap {
            tiles: filled(MAP_WIDTH * MAP_HEIGHT, TileType::Wall),
            rooms: Vec::new(),
            width: MAP_WIDTH,
            height: MAP_HEIGHT,
            revealed_tiles: filled(MAP_WIDTH * MAP_HEIGHT, false),
            visible_tiles: filled(MAP_WIDTH * MAP_HEIGHT, false),
        };
        proof {
            assert forall|x: int, y: int| map.spec_in_bounds(x, y) implies #[trigger] map.tile(
                x,
                y,
            ) == TileType::Wall by {
                crate::map::lemma_idx_in_range(map.width as int, map.height as int, x, y);
            }
        }
        let mut rng = match seed {
            Some(s) => rng_seeded(s),
            None => rng_new(),
        };
        let mut count: usize = 0;
        while count < max_rooms
            invariant
                gen_wf(map),
                count <= max_rooms,
                map.rooms.len() <= count,
                count >= 1 ==> map.rooms.len() >= 1,
            decreases max_rooms - count,
        {
            let w = rng_range(&mut rng, MIN_ROOM_SIZE, MAX_ROOM_SIZE);
            let h = rng_range(&mut rng, MIN_ROOM_SIZE, MAX_ROOM_SIZE);
            let x = rng_range(&mut rng, 0, 79 - w - 1);
            let y = rng_range(&mut rng, 0, 49 - h - 1);
            let new_room = Rect::new(x, y, w, h);

            let mut ok = true;
            let mut ri: usize = 0;
            while ri < map.rooms.len()
                invariant
                    ri <= map.rooms.len(),
                    ok <==> forall|j: int|
                        0 <= j < ri ==> !new_room.spec_intersect(#[trigger] map.rooms[j]),
                decreases map.rooms.len() - ri,
            {
                if new_room.intersect(&map.rooms[ri]) {
                    ok = false;
                }
                ri = ri + 1;
            }

            if ok {
                accept_room(&mut map, new_room, &mut rng);
            }
            count = count + 1;
        }
        proof {
            assert forall|i: int, j: int|
                0 <= i < map.rooms.len() && 0 <= j < map.rooms.len() implies floor_connected(
                map,
                (#[trigger] map.rooms[i]).spec_center(),
                (#[trigger] map.rooms[j]).spec_center(),
            ) by {
                let last = map.rooms[map.rooms.len() - 1].spec_center();
                lemma_connected_sym(map, map.rooms[j].spec_center(), last);
                lemma_connected_trans(
                    map,
                    map.rooms[i].spec_center(),
                    last,
                    map.rooms[j].spec_center(),
                );
            }
        }
        map
    }

    /// Where the player first stands: the centre of the first accepted
    /// room, or the centre of the map when no room was accepted.
    pub fn initial_player_position(&self) -> (p: (i32, i32))
        requires
            self.wf(),
        ensures
            self.rooms.len() > 0 ==> (p.0 as int, p.1 as int) == self.rooms[0].spec_center(),
            self.rooms.len() == 0 ==> p.0 == self.width / 2 && p.1 == self.height / 2,
            self.spec_in_bounds(p.0 as int, p.1 as int),
    {
        if self.rooms.len() > 0 {
            self.rooms[0].center()
        } else {
            ((self.width / 2) as i32, (self.height / 2) as i32)
        }
    }
}

} // verus!
