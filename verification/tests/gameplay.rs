use roguelike_core::components::{Monster, Name, Player, Position, Viewshed};
use roguelike_core::map::{TileMap, TileType};
use roguelike_core::visibility::{clamp_to_map, field_of_view, line_clear};
use roguelike_core::world::{contains_pos, Entity, RunState, State};

/// A map with a solid wall border and floor everywhere inside.
fn open_map(width: usize, height: usize) -> TileMap {
    let mut tiles = vec![TileType::Floor; width * height];
    for x in 0..width {
        tiles[x] = TileType::Wall;
        tiles[(height - 1) * width + x] = TileType::Wall;
    }
    for y in 0..height {
        tiles[y * width] = TileType::Wall;
        tiles[y * width + width - 1] = TileType::Wall;
    }
    TileMap {
        tiles,
        rooms: Vec::new(),
        width,
        height,
        revealed_tiles: vec![false; width * height],
        visible_tiles: vec![false; width * height],
    }
}

fn player_at(x: i32, y: i32, dirty: bool) -> Entity {
    Entity {
        pos: Position { x, y },
        viewshed: Some(Viewshed { visible_tiles: Vec::new(), range: 8, dirty }),
        player: Some(Player {}),
        monster: None,
        name: None,
    }
}

fn monster_at(x: i32, y: i32, name: &str) -> Entity {
    Entity {
        pos: Position { x, y },
        viewshed: Some(Viewshed { visible_tiles: Vec::new(), range: 8, dirty: true }),
        player: None,
        monster: Some(Monster {}),
        name: Some(Name { name: name.to_owned() }),
    }
}

#[test]
fn visibility_is_symmetric_with_clear_line() {
    let map = open_map(12, 12);
    let a = Position { x: 3, y: 3 };
    let b = Position { x: 6, y: 6 };
    let from_a = field_of_view(&map, a, 8);
    let from_b = field_of_view(&map, b, 8);
    assert!(from_a.contains(&b));
    assert!(from_b.contains(&a));
}

#[test]
fn visibility_is_symmetric_with_a_wall_between() {
    let mut map = open_map(12, 12);
    // a wall column between the two points
    for y in 1..11 {
        map.tiles[y * 12 + 5] = TileType::Wall;
    }
    let a = Position { x: 2, y: 6 };
    let b = Position { x: 9, y: 6 };
    let from_a = field_of_view(&map, a, 10);
    let from_b = field_of_view(&map, b, 10);
    assert_eq!(from_a.contains(&b), from_b.contains(&a));
    assert!(!from_a.contains(&b));
}

#[test]
fn line_of_sight_is_blocked_by_walls_only() {
    let mut map = open_map(12, 12);
    assert!(line_clear(&map, 2, 6, 9, 6));
    map.tiles[6 * 12 + 5] = TileType::Wall;
    assert!(!line_clear(&map, 2, 6, 9, 6));
    assert!(!line_clear(&map, 9, 6, 2, 6));
}

#[test]
fn field_of_view_is_clamped_by_the_caller() {
    let map = TileMap {
        tiles: vec![TileType::Floor; 144],
        rooms: Vec::new(),
        width: 12,
        height: 12,
        revealed_tiles: vec![false; 144],
        visible_tiles: vec![false; 144],
    };
    let raw = field_of_view(&map, Position { x: 1, y: 1 }, 8);
    assert!(raw.iter().any(|p| p.x < 0 || p.y < 0));
    let clamped = clamp_to_map(&map, &raw);
    assert!(clamped.iter().all(|p| {
        p.x >= 0 && (p.x as usize) < map.width && p.y >= 0 && (p.y as usize) < map.height
    }));
    assert!(clamped.iter().any(|p| *p == Position { x: 3, y: 3 }));
}

#[test]
fn contains_pos_scans_the_vector() {
    let v = vec![Position { x: 1, y: 2 }, Position { x: 3, y: 4 }];
    assert!(contains_pos(&v, Position { x: 3, y: 4 }));
    assert!(!contains_pos(&v, Position { x: 4, y: 3 }));
}

#[test]
fn blocked_move_is_rejected_and_does_not_dirty_the_viewshed() {
    let mut map = open_map(12, 12);
    map.tiles[5 * 12 + 5] = TileType::Wall;
    let mut state = State {
        map,
        entities: vec![player_at(4, 5, false)],
        run_state: RunState::Paused,
    };
    let moved = state.request_move(0, 1, 0);
    assert!(!moved);
    assert_eq!(state.entities[0].pos, Position { x: 4, y: 5 });
    assert!(!state.entities[0].viewshed.as_ref().unwrap().dirty);
}

#[test]
fn accepted_move_shifts_the_entity_and_dirties_its_viewshed() {
    let map = open_map(12, 12);
    let mut state = State {
        map,
        entities: vec![player_at(4, 5, false)],
        run_state: RunState::Paused,
    };
    let moved = state.request_move(0, 1, 0);
    assert!(moved);
    assert_eq!(state.entities[0].pos, Position { x: 5, y: 5 });
    assert!(state.entities[0].viewshed.as_ref().unwrap().dirty);
}

#[test]
fn move_with_bad_entity_index_changes_nothing() {
    let map = open_map(12, 12);
    let mut state = State {
        map,
        entities: vec![player_at(4, 5, false)],
        run_state: RunState::Paused,
    };
    assert!(!state.request_move(3, 1, 0));
    assert_eq!(state.entities[0].pos, Position { x: 4, y: 5 });
}

#[test]
fn advance_turn_twice_changes_nothing_the_second_time() {
    let mut state = State {
        map: open_map(12, 12),
        entities: vec![player_at(3, 3, true), monster_at(9, 9, "Orc")],
        run_state: RunState::Running,
    };
    let _ = state.advance_turn();
    let revealed = state.map.revealed_tiles.clone();
    let visible = state.map.visible_tiles.clone();
    let view = state.entities[0].viewshed.as_ref().unwrap().visible_tiles.clone();
    let events = state.advance_turn();
    assert!(events.is_empty());
    assert_eq!(state.map.revealed_tiles, revealed);
    assert_eq!(state.map.visible_tiles, visible);
    assert_eq!(state.entities[0].viewshed.as_ref().unwrap().visible_tiles, view);
    assert!(!state.entities[0].viewshed.as_ref().unwrap().dirty);
    assert!(!state.entities[1].viewshed.as_ref().unwrap().dirty);
}

#[test]
fn revealed_tiles_survive_any_sequence_of_turns() {
    let mut state = State {
        map: open_map(12, 12),
        entities: vec![player_at(2, 2, true)],
        run_state: RunState::Running,
    };
    let mut old_revealed = state.map.revealed_tiles.clone();
    for step in 0..6 {
        let _ = state.advance_turn();
        for i in 0..old_revealed.len() {
            assert!(!old_revealed[i] || state.map.revealed_tiles[i]);
        }
        old_revealed = state.map.revealed_tiles.clone();
        let dx = if step % 2 == 0 { 1 } else { 0 };
        state.request_move(0, dx, 1);
    }
}

#[test]
fn hostile_in_sight_of_the_player_shouts() {
    let mut state = State {
        map: open_map(12, 12),
        entities: vec![player_at(2, 2, true), monster_at(4, 2, "Orc")],
        run_state: RunState::Running,
    };
    let events = state.advance_turn();
    assert_eq!(events.len(), 1);
    assert_eq!(events[0].entity, 1);
    assert_eq!(events[0].name, "Orc");
}

#[test]
fn hostile_with_clean_viewshed_does_not_shout_again() {
    let mut state = State {
        map: open_map(12, 12),
        entities: vec![player_at(2, 2, true), monster_at(4, 2, "Goblin")],
        run_state: RunState::Running,
    };
    let first = state.advance_turn();
    assert_eq!(first.len(), 1);
    let second = state.advance_turn();
    assert!(second.is_empty());
}

#[test]
fn tick_cycle_runs_systems_then_waits_for_input() {
    let mut state = State {
        map: open_map(12, 12),
        entities: vec![player_at(3, 3, true)],
        run_state: RunState::Running,
    };
    let _ = state.tick_step(None);
    assert_eq!(state.run_state, RunState::Paused);
    assert!(!state.entities[0].viewshed.as_ref().unwrap().dirty);

    let events = state.tick_step(None);
    assert!(events.is_empty());
    assert_eq!(state.run_state, RunState::Paused);

    let events = state.tick_step(Some((1, 0)));
    assert!(events.is_empty());
    assert_eq!(state.run_state, RunState::Running);
    assert_eq!(state.entities[0].pos, Position { x: 4, y: 3 });
    assert!(state.entities[0].viewshed.as_ref().unwrap().dirty);
}

#[test]
fn new_game_with_one_room_reveals_around_the_player() {
    let mut state = State::new_game(1, Some(77));
    assert_eq!(state.map.rooms.len(), 1);
    assert_eq!(state.entities.len(), 1);
    let room = state.map.rooms[0];
    let centre = room.center();
    assert_eq!(state.entities[0].pos, Position { x: centre.0, y: centre.1 });
    for y in 0..state.map.height as i32 {
        for x in 0..state.map.width as i32 {
            let inside = x >= room.x1 + 1 && x <= room.x2 && y >= room.y1 + 1 && y <= room.y2;
            let tile = state.map.tiles[(y as usize) * state.map.width + (x as usize)];
            assert_eq!(tile, if inside { TileType::Floor } else { TileType::Wall });
        }
    }
    let events = state.advance_turn();
    assert!(events.is_empty());
    assert!(state.map.visible_tiles.iter().any(|v| *v));
    for i in 0..state.map.visible_tiles.len() {
        assert!(!state.map.visible_tiles[i] || state.map.revealed_tiles[i]);
    }
    assert_eq!(state.map.is_visible(centre.0, centre.1), Some(true));
    assert_eq!(state.map.is_revealed(centre.0, centre.1), Some(true));
}

#[test]
fn new_game_populates_one_hostile_per_further_room() {
    let state = State::new_game(30, Some(2021));
    assert!(state.map.rooms.len() >= 2);
    assert_eq!(state.entities.len(), state.map.rooms.len());
    assert!(state.entities[0].player.is_some());
    for (i, e) in state.entities.iter().enumerate().skip(1) {
        assert!(e.monster.is_some());
        assert!(e.player.is_none());
        let name = &e.name.as_ref().unwrap().name;
        assert!(name == "Goblin" || name == "Orc");
        let centre = state.map.rooms[i].center();
        assert_eq!(e.pos, Position { x: centre.0, y: centre.1 });
        assert!(e.viewshed.as_ref().unwrap().dirty);
    }
}
