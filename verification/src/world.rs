//! The game state and the per-turn orchestration: movement intents,
//! recomputation of stale viewsheds, folding the player's view into the
//! map's fog-of-war flags, and hostile reaction events.

use vstd::prelude::*;
use crate::components::{Monster, Name, Player, Position, Viewshed};
use crate::map::{TileMap, TileType};
use crate::visibility::{
    clamp_to_map, field_of_view, lemma_visible_same_tiles, spec_visible,
};

verus! {

broadcast use vstd::seq_lib::lemma_seq_contains_after_push;

/// An entity: a position plus the optional components it carries.
pub struct Entity {
    pub pos: Position,
    pub viewshed: Option<Viewshed>,
    pub player: Option<Player>,
    pub monster: Option<Monster>,
    pub name: Option<Name>,
}

impl Entity {
    /// The entity is controlled by the player.
    pub open spec fn is_player(self) -> bool {
        self.player is Some
    }

    /// The entity is hostile.
    pub open spec fn is_monster(self) -> bool {
        self.monster is Some
    }

    /// The entity has a viewshed that must be recomputed.
    pub open spec fn is_dirty(self) -> bool {
        self.viewshed matches Some(v) && v.dirty
    }

    /// The entity fits the map: its position is inside it and its sight
    /// radius, if any, is positive and bounded.
    pub open spec fn wf(self, m: TileMap) -> bool {
        &&& m.spec_in_bounds(self.pos.x as int, self.pos.y as int)
        &&& (self.viewshed matches Some(v) ==> 1 <= v.range <= 4096)
    }
}

/// Marks which turn of the tick cycle comes next: accepting input or
/// running the systems.
#[derive(Clone, Copy, PartialEq, Eq, Structural, Debug)]
pub enum RunState {
    Paused,
    Running,
}

/// A reaction reported during a turn: a hostile entity, named by its
/// index and its label, saw the player.
pub struct ReactionEvent {
    pub entity: usize,
    pub name: String,
}

/// The whole game state: the map, the entities, and whose turn it is.
pub struct State {
    pub map: TileMap,
    pub entities: Vec<Entity>,
    pub run_state: RunState,
}

/// The stored viewshed holds exactly the in-map tiles visible from `pos`
/// within `range`, and is marked fresh.
pub open spec fn viewshed_fresh(m: TileMap, pos: Position, range: i32, vs: Viewshed) -> bool {
    &&& vs.range == range
    &&& !vs.dirty
    &&& forall|p: Position|
        #[trigger] vs.visible_tiles@.contains(p) <==> (spec_visible(
            m,
            pos.x as int,
            pos.y as int,
            range as int,
            p.x as int,
            p.y as int,
        ) && m.spec_in_bounds(p.x as int, p.y as int))
}

/// How one entity comes out of the visibility pass: a stale viewshed is
/// replaced by the freshly computed one and everything else is kept; an
/// entity without a stale viewshed is untouched.
pub open spec fn entity_processed(m: TileMap, pre: Entity, post: Entity) -> bool {
    if pre.is_dirty() {
        &&& post.pos == pre.pos
        &&& post.player == pre.player
        &&& post.monster == pre.monster
        &&& post.name == pre.name
        &&& pre.viewshed matches Some(pv) && (post.viewshed matches Some(v) && viewshed_fresh(
            m,
            pre.pos,
            pv.range,
            v,
        ))
    } else {
        post == pre
    }
}

/// The map's fog-of-war flags after folding in the player's fresh view
/// from `pos` with radius `range`: a tile is visible exactly when the
/// player now sees it, and revealed when it was revealed before or is
/// visible now. Tiles, rooms and dimensions are untouched.
pub open spec fn map_folded(pre: TileMap, post: TileMap, pos: Position, range: i32) -> bool {
    &&& post.tiles == pre.tiles
    &&& post.rooms == pre.rooms
    &&& post.width == pre.width
    &&& post.height == pre.height
    &&& post.revealed_tiles.len() == pre.revealed_tiles.len()
    &&& post.visible_tiles.len() == pre.visible_tiles.len()
    &&& forall|x: int, y: int|
        post.spec_in_bounds(x, y) ==> (#[trigger] post.visible_at(x, y) <==> spec_visible(
            pre,
            pos.x as int,
            pos.y as int,
            range as int,
            x,
            y,
        ))
    &&& forall|x: int, y: int|
        post.spec_in_bounds(x, y) ==> (#[trigger] post.revealed_at(x, y) <==> (pre.revealed_at(x, y)
            || spec_visible(pre, pos.x as int, pos.y as int, range as int, x, y)))
}

/// The fog-of-war flags are untouched.
pub open spec fn map_flags_unchanged(pre: TileMap, post: TileMap) -> bool {
    &&& post.tiles == pre.tiles
    &&& post.rooms == pre.rooms
    &&& post.width == pre.width
    &&& post.height == pre.height
    &&& post.revealed_tiles == pre.revealed_tiles
    &&& post.visible_tiles == pre.visible_tiles
}

/// Revealed tiles are never taken back.
pub open spec fn reveal_monotone(pre: TileMap, post: TileMap) -> bool {
    &&& post.revealed_tiles.len() == pre.revealed_tiles.len()
    &&& forall|i: int|
        0 <= i < pre.revealed_tiles.len() ==> (pre.revealed_tiles[i]
            ==> #[trigger] post.revealed_tiles[i])
}

/// Some entity has the player marker and a stale viewshed.
pub open spec fn has_dirty_player(s: Seq<Entity>) -> bool {
    exists|i: int| 0 <= i < s.len() && (#[trigger] s[i]).is_player() && s[i].is_dirty()
}

/// The index of the player entity with a stale viewshed.
pub open spec fn dirty_player_index(s: Seq<Entity>) -> int {
    choose|i: int| 0 <= i < s.len() && (#[trigger] s[i]).is_player() && s[i].is_dirty()
}

/// Decide whether the vector holds the given position.
pub fn contains_pos(v: &Vec<Position>, p: Position) -> (b: bool)
    ensures
        b == v@.contains(p),
{
    let mut k: usize = 0;
    while k < v.len()
        invariant
            k <= v.len(),
            forall|j: int| 0 <= j < k ==> v@[j] != p,
        decreases v.len() - k,
    {
        if v[k] == p {
            proof {
                assert(v@.contains(p));
            }
            return true;
        }
        k = k + 1;
    }
    false
}

/// Compute the fog-of-war flags that fold the given view into the map:
/// a fresh visible flag per tile, true exactly on the view, and a
/// revealed flag that keeps every revealed tile and adds the view.
#[verifier::loop_isolation(false)]
fn player_view_flags(map: &TileMap, view: &Vec<Position>) -> (r: (Vec<bool>, Vec<bool>))
    requires
        map.wf(),
    ensures
        r.0.len() == map.tiles.len(),
        r.1.len() == map.tiles.len(),
        forall|x: int, y: int| #![all_triggers]
            map.spec_in_bounds(x, y) ==> (r.0[map.spec_idx(x, y)] <==> view@.contains(
                Position { x: x as i32, y: y as i32 },
            )),
        forall|x: int, y: int| #![all_triggers]
            map.spec_in_bounds(x, y) ==> (r.1[map.spec_idx(x, y)] <==> (map.revealed_at(x, y)
                || view@.contains(Position { x: x as i32, y: y as i32 }))),
        forall|i: int| 0 <= i < r.0.len() ==> (r.0[i] ==> #[trigger] r.1[i]),
        forall|i: int| 0 <= i < r.1.len() ==> (map.revealed_tiles[i] ==> #[trigger] r.1[i]),
{
    let mut new_visible: Vec<bool> = Vec::new();
    let mut new_revealed: Vec<bool> = Vec::new();
    let mut y: i32 = 0;
    while y < map.height as i32
        invariant
            0 <= y <= map.height,
            new_visible.len() == y * map.width,
            new_revealed.len() == y * map.width,
            forall|a: int, b: int| #![all_triggers]
                map.spec_in_bounds(a, b) && b < y ==> (new_visible[map.spec_idx(a, b)]
                    <==> view@.contains(Position { x: a as i32, y: b as i32 })),
            forall|a: int, b: int| #![all_triggers]
                map.spec_in_bounds(a, b) && b < y ==> (new_revealed[map.spec_idx(a, b)] <==> (
                map.revealed_at(a, b) || view@.contains(Position { x: a as i32, y: b as i32 }))),
            forall|i: int|
                0 <= i < new_visible.len() ==> (new_visible[i] ==> #[trigger] new_revealed[i]),
            forall|i: int|
                0 <= i < new_revealed.len() ==> (map.revealed_tiles[i]
                    ==> #[trigger] new_revealed[i]),
        decreases map.height - y,
    {
        let mut x: i32 = 0;
        while x < map.width as i32
            invariant
                0 <= y < map.height,
                0 <= x <= map.width,
                new_visible.len() == y * map.width + x,
                new_revealed.len() == y * map.width + x,
                forall|a: int, b: int| #![all_triggers]
                    map.spec_in_bounds(a, b) && (b < y || (b == y && a < x)) ==> (
                    new_visible[map.spec_idx(a, b)] <==> view@.contains(
                        Position { x: a as i32, y: b as i32 },
                    )),
                forall|a: int, b: int| #![all_triggers]
                    map.spec_in_bounds(a, b) && (b < y || (b == y && a < x)) ==> (
                    new_revealed[map.spec_idx(a, b)] <==> (map.revealed_at(a, b)
                        || view@.contains(Position { x: a as i32, y: b as i32 }))),
                forall|i: int|
                    0 <= i < new_visible.len() ==> (new_visible[i] ==> #[trigger] new_revealed[i]),
                forall|i: int|
                    0 <= i < new_revealed.len() ==> (map.revealed_tiles[i]
                        ==> #[trigger] new_revealed[i]),
            decreases map.width - x,
        {
            proof {
                crate::map::lemma_idx_in_range(
                    map.width as int,
                    map.height as int,
                    x as int,
                    y as int,
                );
            }
            let p = Position { x, y };
            let vis = contains_pos(view, p);
            let idx = map.xy_idx(x, y);
            new_visible.push(vis);
            new_revealed.push(map.revealed_tiles[idx] || vis);
            proof {
                assert forall|a: int, b: int| #![all_triggers]
                    map.spec_in_bounds(a, b) && (b < y || (b == y && a < x + 1)) implies (
                new_visible[map.spec_idx(a, b)] <==> view@.contains(
                    Position { x: a as i32, y: b as i32 },
                )) && (new_revealed[map.spec_idx(a, b)] <==> (map.revealed_at(a, b)
                    || view@.contains(Position { x: a as i32, y: b as i32 }))) by {
                    crate::map::lemma_idx_in_range(map.width as int, map.height as int, a, b);
                    if !(a == x as int && b == y as int) {
                        crate::map::lemma_idx_ordered(map.width as int, a, b, x as int, y as int);
                    }
                }
            }
            x = x + 1;
        }
        proof {
            assert((y as int + 1) * map.width as int == y as int * map.width as int
                + map.width as int) by (nonlinear_arith);
        }
        y = y + 1;
    }
    proof {
        vstd::arithmetic::mul::lemma_mul_is_commutative(map.height as int, map.width as int);
    }
    (new_visible, new_revealed)
}


/// The dirty flag of each entity, in order.
pub open spec fn dirty_flags(s: Seq<Entity>) -> Seq<bool> {
    Seq::new(s.len(), |i: int| s[i].is_dirty())
}

/// The position the player-fold works from: the position of the dirty
/// player entity.
pub open spec fn player_fold_pos(s: Seq<Entity>) -> Position {
    s[dirty_player_index(s)].pos
}

/// The sight radius the player-fold works with.
pub open spec fn player_fold_range(s: Seq<Entity>) -> i32 {
    match s[dirty_player_index(s)].viewshed {
        Some(v) => v.range,
        None => 0,
    }
}

/// A hostile entity whose viewshed was freshly recomputed reacts when the
/// player's position lies in it and the entity has a name to shout with.
pub open spec fn reacts(e: Entity, was_dirty: bool, ppos: Position) -> bool {
    &&& was_dirty
    &&& e.is_monster()
    &&& !e.is_player()
    &&& e.name is Some
    &&& e.viewshed matches Some(v) && v.visible_tiles@.contains(ppos)
}

/// The reaction events of a turn, in entity order: one per reacting
/// hostile entity, carrying its index and its name.
pub open spec fn reaction_events(ents: Seq<Entity>, dirty: Seq<bool>, ppos: Position) -> Seq<
    ReactionEvent,
>
    decreases ents.len(),
{
    if ents.len() == 0 {
        Seq::empty()
    } else {
        let prefix = reaction_events(ents.drop_last(), dirty.take(ents.len() - 1), ppos);
        if reacts(ents.last(), dirty[ents.len() - 1], ppos) {
            match ents.last().name {
                Some(nm) => prefix.push(
                    ReactionEvent { entity: (ents.len() - 1) as usize, name: nm.name },
                ),
                None => prefix,
            }
        } else {
            prefix
        }
    }
}

/// The system that recomputes stale viewsheds and folds the player's
/// fresh view into the map's fog-of-war flags.
pub struct VisibilitySytem {}

impl VisibilitySytem {
    /// Process every entity in order: each stale viewshed is recomputed
    /// against the map's tiles and clamped to the map; when the stale
    /// viewshed belongs to the player, the map's visible set is reset to
    /// the fresh view and the revealed set is extended by it. Returns the
    /// new map, the entities, and which of them were stale.
    #[verifier::loop_isolation(false)]
    #[verifier::rlimit(100)]
    pub fn run(&self, map: TileMap, entities: Vec<Entity>) -> (r: (TileMap, Vec<Entity>, Vec<bool>))
        requires
            map.wf(),
            forall|i: int|
                0 <= i < entities.len() ==> (#[trigger] entities[i]).wf(map),
            forall|i: int, j: int|
                0 <= i < entities.len() && 0 <= j < entities.len() && (
                #[trigger] entities[i]).is_player() && (#[trigger] entities[j]).is_player() ==> i
                    == j,
        ensures
            r.0.wf(),
            r.0.tiles == map.tiles,
            r.0.rooms == map.rooms,
            r.0.width == map.width,
            r.0.height == map.height,
            r.1.len() == entities.len(),
            r.2.len() == entities.len(),
            forall|i: int| 0 <= i < entities.len() ==> r.2[i] == (#[trigger] entities[i]).is_dirty(),
            forall|i: int|
                0 <= i < entities.len() ==> entity_processed(
                    map,
                    #[trigger] entities[i],
                    r.1[i],
                ),
            has_dirty_player(entities@) ==> map_folded(
                map,
                r.0,
                player_fold_pos(entities@),
                player_fold_range(entities@),
            ),
            !has_dirty_player(entities@) ==> map_flags_unchanged(map, r.0),
            reveal_monotone(map, r.0),
    {
        let ghost m0: TileMap = map;
        let ghost ents0: Seq<Entity> = entities@;
        let mut work = entities;
        let mut out: Vec<Entity> = Vec::new();
        let mut flags: Vec<bool> = Vec::new();
        let mut m = map;
        while work.len() > 0
            invariant
                out.len() + work.len() == ents0.len(),
                flags.len() == out.len(),
                work@ == ents0.skip(out.len() as int),
                forall|i: int|
                    0 <= i < out.len() ==> entity_processed(m0, ents0[i], #[trigger] out[i]),
                forall|i: int| 0 <= i < out.len() ==> #[trigger] flags[i] == ents0[i].is_dirty(),
                m.wf(),
                m.tiles == m0.tiles,
                m.rooms == m0.rooms,
                m.width == m0.width,
                m.height == m0.height,
                (exists|i: int|
                    0 <= i < out.len() && (#[trigger] ents0[i]).is_player() && ents0[i].is_dirty())
                    ==> map_folded(m0, m, player_fold_pos(ents0), player_fold_range(ents0)),
                !(exists|i: int|
                    0 <= i < out.len() && (#[trigger] ents0[i]).is_player() && ents0[i].is_dirty())
                    ==> map_flags_unchanged(m0, m),
                reveal_monotone(m0, m),
            decreases work.len(),
        {
            let ghost k = out.len() as int;
            let e = work.remove(0);
            proof {
                assert(e == ents0[k]);
                assert(work@ =~= ents0.skip(k + 1));
                assert(ents0[k].wf(m0));
            }
            let dirty = match &e.viewshed {
                Some(vs) => vs.dirty,
                None => false,
            };
            if dirty {
                let range = match &e.viewshed {
                    Some(vs) => vs.range,
                    None => 1,
                };
                let raw = field_of_view(&m, e.pos, range);
                let fresh = clamp_to_map(&m, &raw);
                proof {
                    assert forall|p: Position| #[trigger] fresh@.contains(p) <==> (spec_visible(
                        m0,
                        e.pos.x as int,
                        e.pos.y as int,
                        range as int,
                        p.x as int,
                        p.y as int,
                    ) && m0.spec_in_bounds(p.x as int, p.y as int)) by {
                        lemma_visible_same_tiles(
                            m,
                            m0,
                            e.pos.x as int,
                            e.pos.y as int,
                            range as int,
                            p.x as int,
                            p.y as int,
                        );
                    }
                }
                let is_player = match &e.player {
                    Some(_) => true,
                    None => false,
                };
                if is_player {
                    proof {
                        assert(!(exists|i: int|
                            0 <= i < out.len() && (#[trigger] ents0[i]).is_player()
                                && ents0[i].is_dirty()));
                        assert(map_flags_unchanged(m0, m));
                        assert(has_dirty_player(ents0));
                        assert(dirty_player_index(ents0) == k);
                    }
                    let ghost m_pre: TileMap = m;
                    let view_flags = player_view_flags(&m, &fresh);
                    let (new_visible, new_revealed) = view_flags;
                    m.visible_tiles = new_visible;
                    m.revealed_tiles = new_revealed;
                    proof {
                        assert forall|x: int, y: int| #![all_triggers]
                            m.spec_in_bounds(x, y) implies (m.visible_at(x, y)
                            <==> spec_visible(
                            m0,
                            e.pos.x as int,
                            e.pos.y as int,
                            range as int,
                            x,
                            y,
                        )) && (m.revealed_at(x, y) <==> (m0.revealed_at(x, y)
                            || spec_visible(
                            m0,
                            e.pos.x as int,
                            e.pos.y as int,
                            range as int,
                            x,
                            y,
                        ))) by {
                            crate::map::lemma_idx_in_range(m.width as int, m.height as int, x, y);
                            assert(m_pre.spec_in_bounds(x, y));
                            assert(m.visible_tiles[m_pre.spec_idx(x, y)] <==> fresh@.contains(
                                Position { x: x as i32, y: y as i32 },
                            ));
                            assert(m.revealed_tiles[m_pre.spec_idx(x, y)] <==> (
                            m_pre.revealed_at(x, y) || fresh@.contains(
                                Position { x: x as i32, y: y as i32 },
                            )));
                            assert(m.spec_idx(x, y) == m_pre.spec_idx(x, y));
                            assert(fresh@.contains(Position { x: x as i32, y: y as i32 })
                                <==> (spec_visible(
                                m0,
                                e.pos.x as int,
                                e.pos.y as int,
                                range as int,
                                x,
                                y,
                            ) && m0.spec_in_bounds(x, y)));
                        }
                        assert(player_fold_pos(ents0) == e.pos);
                        assert(player_fold_range(ents0) == range);
                        assert(m.revealed_tiles.len() == m0.revealed_tiles.len());
                        assert(m.visible_tiles.len() == m0.visible_tiles.len());
                        assert(map_folded(m0, m, player_fold_pos(ents0), player_fold_range(ents0)));
                    }
                }
                let e2 = Entity {
                    pos: e.pos,
                    viewshed: Some(Viewshed { visible_tiles: fresh, range, dirty: false }),
                    player: e.player,
                    monster: e.monster,
                    name: e.name,
                };
                proof {
                    assert(entity_processed(m0, ents0[k], e2));
                }
                out.push(e2);
                flags.push(true);
            } else {
                proof {
                    assert(entity_processed(m0, ents0[k], e));
                }
                out.push(e);
                flags.push(false);
            }
        }
        proof {
            assert(out.len() == ents0.len());
            if has_dirty_player(ents0) {
                let i = dirty_player_index(ents0);
                assert(0 <= i < out.len() && ents0[i].is_player() && ents0[i].is_dirty());
            }
        }
        (m, out, flags)
    }
}

/// The system that reports which hostile entities can see the player.
pub struct MonsterAISystem {}

impl MonsterAISystem {
    /// Walk the entities in order and report, for each hostile entity
    /// whose viewshed was freshly recomputed this turn and now holds the
    /// player's position, a reaction event with its index and its name.
    #[verifier::loop_isolation(false)]
    pub fn run(
        &self,
        entities: &Vec<Entity>,
        was_dirty: &Vec<bool>,
        player_pos: Position,
    ) -> (events: Vec<ReactionEvent>)
        requires
            was_dirty.len() == entities.len(),
        ensures
            events@ == reaction_events(entities@, was_dirty@, player_pos),
    {
        let mut events: Vec<ReactionEvent> = Vec::new();
        let mut i: usize = 0;
        while i < entities.len()
            invariant
                i <= entities.len(),
                events@ == reaction_events(entities@.take(i as int), was_dirty@.take(i as int), player_pos),
            decreases entities.len() - i,
        {
            let e = &entities[i];
            let sees_player = match &e.viewshed {
                Some(vs) => contains_pos(&vs.visible_tiles, player_pos),
                None => false,
            };
            let is_monster = match &e.monster {
                Some(_) => true,
                None => false,
            };
            let is_player = match &e.player {
                Some(_) => true,
                None => false,
            };
            if was_dirty[i] && is_monster && !is_player && sees_player {
                match &e.name {
                    Some(nm) => {
                        events.push(ReactionEvent { entity: i, name: nm.name.clone() });
                    },
                    None => {},
                }
            }
            proof {
                assert(entities@.take(i + 1).drop_last() =~= entities@.take(i as int));
                assert(was_dirty@.take(i + 1).take(i as int) =~= was_dirty@.take(i as int));
                assert(entities@.take(i + 1).last() == entities@[i as int]);
            }
            i = i + 1;
        }
        proof {
            assert(entities@.take(entities.len() as int) =~= entities@);
            assert(was_dirty@.take(entities.len() as int) =~= was_dirty@);
        }
        events
    }
}


impl State {
    /// The map is well formed and every entity stands inside it with a
    /// sensible sight radius.
    pub open spec fn wf(self) -> bool {
        &&& self.map.wf()
        &&& forall|i: int|
            0 <= i < self.entities.len() ==> (#[trigger] self.entities[i]).wf(self.map)
    }

    /// Exactly one entity carries the player marker.
    pub open spec fn unique_player(self) -> bool {
        &&& exists|i: int|
            0 <= i < self.entities.len() && (#[trigger] self.entities[i]).is_player()
        &&& forall|i: int, j: int|
            0 <= i < self.entities.len() && 0 <= j < self.entities.len() && (
            #[trigger] self.entities[i]).is_player() && (#[trigger] self.entities[j]).is_player()
                ==> i == j
    }

    /// The index of the player entity.
    pub open spec fn player_index(self) -> int {
        choose|i: int| 0 <= i < self.entities.len() && (#[trigger] self.entities[i]).is_player()
    }

    /// The player's current position.
    pub open spec fn player_pos(self) -> Position {
        self.entities[self.player_index()].pos
    }

    /// No viewshed is stale.
    pub open spec fn all_clean(self) -> bool {
        forall|i: int| 0 <= i < self.entities.len() ==> !(#[trigger] self.entities[i]).is_dirty()
    }

    /// The position of the player entity.
    pub fn player_position(&self) -> (p: Position)
        requires
            self.unique_player(),
        ensures
            p == self.player_pos(),
    {
        let mut k: usize = 0;
        while k < self.entities.len()
            invariant
                k <= self.entities.len(),
                self.unique_player(),
                forall|j: int| 0 <= j < k ==> !(#[trigger] self.entities[j]).is_player(),
            decreases self.entities.len() - k,
        {
            let is_player = match &self.entities[k].player {
                Some(_) => true,
                None => false,
            };
            if is_player {
                proof {
                    assert(self.player_index() == k as int);
                }
                return self.entities[k].pos;
            }
            k = k + 1;
        }
        proof {
            let i = self.player_index();
            assert(false);
        }
        vstd::pervasive::unreached()
    }

    /// Run one turn of orchestration: recompute every stale viewshed,
    /// fold the player's fresh view into the map when the player's
    /// viewshed was stale, and report which hostile entities now see the
    /// player. A turn with no stale viewshed changes nothing and reports
    /// nothing.
    pub fn advance_turn(&mut self) -> (events: Vec<ReactionEvent>)
        requires
            old(self).wf(),
            old(self).unique_player(),
        ensures
            final(self).wf(),
            final(self).unique_player(),
            final(self).all_clean(),
            advance_rel(*old(self), *final(self), events@),
    {
        let ppos = self.player_position();
        let mut m = TileMap {
            tiles: Vec::new(),
            rooms: Vec::new(),
            width: 1,
            height: 1,
            revealed_tiles: Vec::new(),
            visible_tiles: Vec::new(),
        };
        core::mem::swap(&mut m, &mut self.map);
        let mut ents: Vec<Entity> = Vec::new();
        core::mem::swap(&mut ents, &mut self.entities);
        let vis = VisibilitySytem {};
        let (m2, ents2, was_dirty) = vis.run(m, ents);
        self.map = m2;
        self.entities = ents2;
        let ai = MonsterAISystem {};
        let events = ai.run(&self.entities, &was_dirty, ppos);
        proof {
            let pre = *old(self);
            assert(was_dirty@ =~= dirty_flags(pre.entities@));
            assert forall|i: int| 0 <= i < self.entities.len() implies (
            #[trigger] self.entities[i]).wf(self.map) by {
                assert(entity_processed(pre.map, pre.entities[i], self.entities[i]));
                assert(pre.entities[i].wf(pre.map));
            }
            assert forall|i: int| 0 <= i < self.entities.len() implies (
            #[trigger] self.entities[i]).is_player() == pre.entities[i].is_player() by {
                assert(entity_processed(pre.map, pre.entities[i], self.entities[i]));
            }
            assert(final(self).unique_player()) by {
                let w = choose|i: int|
                    0 <= i < pre.entities.len() && (#[trigger] pre.entities[i]).is_player();
                assert(self.entities[w].is_player());
            }
            assert forall|i: int| 0 <= i < self.entities.len() implies !(
            #[trigger] self.entities[i]).is_dirty() by {
                assert(entity_processed(pre.map, pre.entities[i], self.entities[i]));
            }
        }
        events
    }
}

/// What one orchestration turn does to the whole state: each entity is
/// processed against the old map, the fog-of-war flags are folded for a
/// stale player and untouched otherwise, revealed tiles are kept, and
/// the events are exactly the reactions of the freshly recomputed
/// hostile viewsheds against the player's position.
pub open spec fn advance_rel(pre: State, post: State, events: Seq<ReactionEvent>) -> bool {
    &&& post.run_state == pre.run_state
    &&& post.entities.len() == pre.entities.len()
    &&& forall|i: int|
        0 <= i < pre.entities.len() ==> entity_processed(
            pre.map,
            #[trigger] pre.entities[i],
            post.entities[i],
        )
    &&& post.map.tiles == pre.map.tiles
    &&& post.map.rooms == pre.map.rooms
    &&& post.map.width == pre.map.width
    &&& post.map.height == pre.map.height
    &&& has_dirty_player(pre.entities@) ==> map_folded(
        pre.map,
        post.map,
        player_fold_pos(pre.entities@),
        player_fold_range(pre.entities@),
    )
    &&& !has_dirty_player(pre.entities@) ==> map_flags_unchanged(pre.map, post.map)
    &&& reveal_monotone(pre.map, post.map)
    &&& events == reaction_events(post.entities@, dirty_flags(pre.entities@), pre.player_pos())
}

/// With all-false dirty flags no entity reacts.
proof fn lemma_no_dirty_no_events(ents: Seq<Entity>, dirty: Seq<bool>, ppos: Position)
    requires
        dirty.len() == ents.len(),
        forall|i: int| 0 <= i < dirty.len() ==> !dirty[i],
    ensures
        reaction_events(ents, dirty, ppos) == Seq::<ReactionEvent>::empty(),
    decreases ents.len(),
{
    if ents.len() > 0 {
        lemma_no_dirty_no_events(ents.drop_last(), dirty.take(ents.len() - 1), ppos);
    }
}

/// Two states look the same to every observer: same map, same entities,
/// same turn marker.
pub open spec fn observed_eq(a: State, b: State) -> bool {
    &&& a.map.tiles == b.map.tiles
    &&& a.map.rooms == b.map.rooms
    &&& a.map.width == b.map.width
    &&& a.map.height == b.map.height
    &&& a.map.revealed_tiles == b.map.revealed_tiles
    &&& a.map.visible_tiles == b.map.visible_tiles
    &&& a.entities@ == b.entities@
    &&& a.run_state == b.run_state
}

/// Running a turn twice in a row without movement in between is
/// idempotent: the first turn leaves every viewshed clean, so the second
/// changes nothing observable and reports no reaction.
pub proof fn lemma_advance_turn_idempotent(
    s1: State,
    s2: State,
    s3: State,
    ev1: Seq<ReactionEvent>,
    ev2: Seq<ReactionEvent>,
)
    requires
        advance_rel(s1, s2, ev1),
        advance_rel(s2, s3, ev2),
    ensures
        s2.all_clean(),
        observed_eq(s3, s2),
        ev2 == Seq::<ReactionEvent>::empty(),
{
    assert forall|i: int| 0 <= i < s2.entities.len() implies !(
    #[trigger] s2.entities[i]).is_dirty() by {
        assert(entity_processed(s1.map, s1.entities[i], s2.entities[i]));
    }
    assert forall|i: int| 0 <= i < s2.entities.len() implies #[trigger] s3.entities[i]
        == s2.entities[i] by {
        assert(entity_processed(s2.map, s2.entities[i], s3.entities[i]));
        assert(!s2.entities[i].is_dirty());
    }
    assert(s3.entities@ =~= s2.entities@);
    assert(!has_dirty_player(s2.entities@));
    assert forall|i: int| 0 <= i < dirty_flags(s2.entities@).len() implies !dirty_flags(
        s2.entities@,
    )[i] by {}
    lemma_no_dirty_no_events(s3.entities@, dirty_flags(s2.entities@), s2.player_pos());
}

/// Reveal monotonicity composes: across any chain of turns, a tile once
/// revealed stays revealed.
pub proof fn lemma_reveal_monotone_trans(m1: TileMap, m2: TileMap, m3: TileMap)
    requires
        reveal_monotone(m1, m2),
        reveal_monotone(m2, m3),
    ensures
        reveal_monotone(m1, m3),
{
}


/// The move is allowed: the entity exists and the destination tile is
/// inside the map and not a wall.
pub open spec fn move_accepted(s: State, entity: int, dx: int, dy: int) -> bool {
    &&& 0 <= entity < s.entities.len()
    &&& s.map.spec_in_bounds(s.entities[entity].pos.x + dx, s.entities[entity].pos.y + dy)
    &&& s.map.tile(s.entities[entity].pos.x + dx, s.entities[entity].pos.y + dy)
        != TileType::Wall
}

/// A moved entity: shifted by the delta, viewshed marked stale with its
/// tiles and radius kept, everything else unchanged.
pub open spec fn moved_entity(pre: Entity, post: Entity, dx: int, dy: int) -> bool {
    &&& post.pos.x == pre.pos.x + dx
    &&& post.pos.y == pre.pos.y + dy
    &&& post.player == pre.player
    &&& post.monster == pre.monster
    &&& post.name == pre.name
    &&& match (pre.viewshed, post.viewshed) {
        (Option::None, Option::None) => true,
        (Option::Some(a), Option::Some(b)) => b.range == a.range && b.visible_tiles
            == a.visible_tiles && b.dirty,
        _ => false,
    }
}

/// What a movement intent does: the map and every other entity are
/// untouched; an accepted move shifts the entity and marks its viewshed
/// stale; a rejected one leaves the entity exactly as it was.
pub open spec fn move_rel(pre: State, post: State, entity: int, dx: int, dy: int) -> bool {
    &&& post.map == pre.map
    &&& post.run_state == pre.run_state
    &&& post.entities.len() == pre.entities.len()
    &&& forall|j: int|
        0 <= j < pre.entities.len() && j != entity ==> #[trigger] post.entities[j]
            == pre.entities[j]
    &&& (!move_accepted(pre, entity, dx, dy) && 0 <= entity < pre.entities.len()
        ==> post.entities[entity] == pre.entities[entity])
    &&& (move_accepted(pre, entity, dx, dy) ==> moved_entity(
        pre.entities[entity],
        post.entities[entity],
        dx,
        dy,
    ))
}

impl State {
    /// Try to move an entity by a delta. The move is accepted exactly
    /// when the destination lies inside the map and is not a wall; then
    /// the entity moves and its viewshed is marked stale. A rejected
    /// intent changes nothing at all, and in particular does not mark
    /// the viewshed stale.
    pub fn request_move(&mut self, entity: usize, dx: i32, dy: i32) -> (moved: bool)
        requires
            old(self).wf(),
            -1000000 <= dx <= 1000000,
            -1000000 <= dy <= 1000000,
        ensures
            final(self).wf(),
            move_rel(*old(self), *final(self), entity as int, dx as int, dy as int),
            moved == move_accepted(*old(self), entity as int, dx as int, dy as int),
            old(self).unique_player() ==> final(self).unique_player(),
    {
        if entity >= self.entities.len() {
            return false;
        }
        let pos = self.entities[entity].pos;
        let dest_x = pos.x + dx;
        let dest_y = pos.y + dy;
        if !self.map.in_bounds(dest_x, dest_y) {
            return false;
        }
        let idx = self.map.xy_idx(dest_x, dest_y);
        if self.map.tiles[idx] == TileType::Wall {
            return false;
        }
        let mut e = self.entities.remove(entity);
        e.pos = Position { x: dest_x, y: dest_y };
        e.viewshed = match e.viewshed {
            Option::None => Option::None,
            Option::Some(vs) => Option::Some(
                Viewshed { visible_tiles: vs.visible_tiles, range: vs.range, dirty: true },
            ),
        };
        self.entities.insert(entity, e);
        proof {
            let pre = *old(self);
            assert forall|j: int|
                0 <= j < pre.entities.len() && j != entity as int implies
                #[trigger] self.entities[j] == pre.entities[j] by {
                if j < entity as int {
                    assert(self.entities@[j] == pre.entities@.remove(entity as int).insert(
                        entity as int,
                        self.entities@[entity as int],
                    )[j]);
                }
            }
            assert(moved_entity(
                pre.entities[entity as int],
                self.entities[entity as int],
                dx as int,
                dy as int,
            ));
            assert forall|i: int| 0 <= i < self.entities.len() implies (
            #[trigger] self.entities[i]).wf(self.map) by {
                if i != entity as int {
                    assert(self.entities[i] == pre.entities[i]);
                }
            }
            if pre.unique_player() {
                let w = choose|i: int|
                    0 <= i < pre.entities.len() && (#[trigger] pre.entities[i]).is_player();
                assert(self.entities[w].is_player());
                assert forall|i: int, j: int|
                    0 <= i < self.entities.len() && 0 <= j < self.entities.len() && (
                #[trigger] self.entities[i]).is_player() && (
                #[trigger] self.entities[j]).is_player() implies i == j by {
                    assert(pre.entities[i].is_player());
                    assert(pre.entities[j].is_player());
                }
            }
        }
        true
    }

    /// Advance the tick cycle one step. On a running turn the systems
    /// run once and the game pauses for input. On a paused turn, a
    /// movement input moves the player and sets the game running; no
    /// input leaves everything untouched.
    pub fn tick_step(&mut self, input: Option<(i32, i32)>) -> (events: Vec<ReactionEvent>)
        requires
            old(self).wf(),
            old(self).unique_player(),
            input matches Some(d) ==> -1000000 <= d.0 <= 1000000 && -1000000 <= d.1 <= 1000000,
        ensures
            final(self).wf(),
            final(self).unique_player(),
            old(self).run_state == RunState::Running ==> advance_rel(
                State { run_state: RunState::Paused, ..*old(self) },
                *final(self),
                events@,
            ) && final(self).run_state == RunState::Paused && final(self).all_clean(),
            old(self).run_state == RunState::Paused && input is None ==> *final(self) == *old(self)
                && events@ == Seq::<ReactionEvent>::empty(),
            old(self).run_state == RunState::Paused ==> (input matches Some(d) ==> move_rel(
                State { run_state: RunState::Running, ..*old(self) },
                *final(self),
                old(self).player_index(),
                d.0 as int,
                d.1 as int,
            ) && final(self).run_state == RunState::Running && events@ == Seq::<
                ReactionEvent,
            >::empty()),
    {
        match self.run_state {
            RunState::Running => {
                let events = self.advance_turn();
                self.run_state = RunState::Paused;
                proof {
                    assert(self.unique_player());
                    assert(advance_rel(
                        State { run_state: RunState::Paused, ..*old(self) },
                        *self,
                        events@,
                    ));
                }
                events
            },
            RunState::Paused => {
                match input {
                    Option::None => Vec::new(),
                    Option::Some((dx, dy)) => {
                        let player = self.find_player();
                        self.request_move(player, dx, dy);
                        self.run_state = RunState::Running;
                        Vec::new()
                    },
                }
            },
        }
    }

    /// The index of the player entity.
    pub fn find_player(&self) -> (idx: usize)
        requires
            self.unique_player(),
        ensures
            idx as int == self.player_index(),
            idx < self.entities.len(),
            self.entities[idx as int].is_player(),
    {
        let mut k: usize = 0;
        while k < self.entities.len()
            invariant
                k <= self.entities.len(),
                self.unique_player(),
                forall|j: int| 0 <= j < k ==> !(#[trigger] self.entities[j]).is_player(),
            decreases self.entities.len() - k,
        {
            let is_player = match &self.entities[k].player {
                Some(_) => true,
                None => false,
            };
            if is_player {
                proof {
                    assert(self.player_index() == k as int);
                }
                return k;
            }
            k = k + 1;
        }
        proof {
            let i = self.player_index();
            assert(false);
        }
        vstd::pervasive::unreached()
    }

    /// Start a new game: generate a map, place the player at the first
    /// room's centre (or the map's centre when no room was accepted)
    /// with a stale viewshed, and put one named hostile at the centre of
    /// every further room, each with a stale viewshed of its own. The
    /// game starts on a running turn.
    #[verifier::loop_isolation(false)]
    pub fn new_game(max_rooms: usize, seed: Option<u64>) -> (s: State)
        ensures
            s.wf(),
            s.unique_player(),
            crate::mapgen::gen_wf(s.map),
            s.map.rooms.len() <= max_rooms,
            max_rooms >= 1 ==> s.map.rooms.len() >= 1,
            s.run_state == RunState::Running,
            s.entities.len() == (if s.map.rooms.len() > 0 {
                s.map.rooms.len() as int
            } else {
                1
            }),
            s.entities[0].is_player(),
            !s.entities[0].is_monster(),
            s.entities[0].is_dirty(),
            s.map.rooms.len() > 0 ==> (s.entities[0].pos.x as int, s.entities[0].pos.y as int)
                == s.map.rooms[0].spec_center(),
            forall|i: int|
                1 <= i < s.entities.len() ==> (#[trigger] s.entities[i]).is_monster() && !
                s.entities[i].is_player() && s.entities[i].is_dirty() && s.entities[i].name is Some
                    && (s.entities[i].pos.x as int, s.entities[i].pos.y as int)
                    == s.map.rooms[i].spec_center(),
    {
        let map = TileMap::new_map_rooms_and_corridors(max_rooms, seed);
        let spawn = map.initial_player_position();
        let mut entities: Vec<Entity> = Vec::new();
        entities.push(
            Entity {
                pos: Position { x: spawn.0, y: spawn.1 },
                viewshed: Some(Viewshed { visible_tiles: Vec::new(), range: 8, dirty: true }),
                player: Some(Player {}),
                monster: None,
                name: None,
            },
        );
        let mut rng = crate::rng::rng_new();
        let mut i: usize = 1;
        while map.rooms.len() > 0 && i < map.rooms.len()
            invariant
                map.wf(),
                crate::mapgen::gen_wf(map),
                1 <= i,
                map.rooms.len() > 0 ==> i <= map.rooms.len(),
                map.rooms.len() == 0 ==> i == 1,
                entities.len() == i,
                entities[0].is_player(),
                !entities[0].is_monster(),
                entities[0].is_dirty(),
                entities[0].wf(map),
                map.rooms.len() > 0 ==> (entities[0].pos.x as int, entities[0].pos.y as int)
                    == map.rooms[0].spec_center(),
                map.rooms.len() == 0 ==> entities[0].pos.x == map.width / 2 && entities[0].pos.y
                    == map.height / 2,
                forall|j: int|
                    1 <= j < i ==> (#[trigger] entities[j]).is_monster() && !entities[
                        j
                    ].is_player() && entities[j].is_dirty() && entities[j].name is Some && (
                    entities[j].pos.x as int, entities[j].pos.y as int)
                        == map.rooms[j].spec_center(),
                forall|j: int| 1 <= j < i ==> (#[trigger] entities[j]).wf(map),
            decreases map.rooms.len() - i,
        {
            let room = map.rooms[i];
            let centre = room.center();
            proof {
                assert(room.x1 + 1 <= centre.0 <= room.x2 - 1);
                assert(room.y1 + 1 <= centre.1 <= room.y2 - 1);
            }
            let roll = crate::rng::rng_roll_dice(&mut rng, 1, 2);
            let label: String = if roll == 1 {
                "Goblin".to_owned()
            } else {
                "Orc".to_owned()
            };
            entities.push(
                Entity {
                    pos: Position { x: centre.0, y: centre.1 },
                    viewshed: Some(
                        Viewshed { visible_tiles: Vec::new(), range: 8, dirty: true },
                    ),
                    player: None,
                    monster: Some(Monster {}),
                    name: Some(Name { name: label }),
                },
            );
            i = i + 1;
        }
        State { map, entities, run_state: RunState::Running }
    }
}

} // verus!
