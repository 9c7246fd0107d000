use roguelike_core::map::{TileMap, TileType, MAP_HEIGHT, MAP_WIDTH};
use roguelike_core::rect::Rect;

fn idx(map: &TileMap, x: i32, y: i32) -> usize {
    (y as usize) * map.width + (x as usize)
}

fn is_floor(map: &TileMap, x: i32, y: i32) -> bool {
    x >= 0 && (x as usize) < map.width && y >= 0 && (y as usize) < map.height
        && map.tiles[idx(map, x, y)] == TileType::Floor
}

/// Breadth-first flood fill over floor tiles, four-way adjacency.
fn flood_fill(map: &TileMap, start: (i32, i32)) -> Vec<bool> {
    let mut seen = vec![false; map.width * map.height];
    let mut queue: Vec<(i32, i32)> = Vec::new();
    if is_floor(map, start.0, start.1) {
        seen[idx(map, start.0, start.1)] = true;
        queue.push(start);
    }
    while let Some((x, y)) = queue.pop() {
        for (dx, dy) in [(1, 0), (-1, 0), (0, 1), (0, -1)] {
            let (nx, ny) = (x + dx, y + dy);
            if is_floor(map, nx, ny) && !seen[idx(map, nx, ny)] {
                seen[idx(map, nx, ny)] = true;
                queue.push((nx, ny));
            }
        }
    }
    seen
}

#[test]
fn generated_map_has_wall_border() {
    let map = TileMap::new_map_rooms_and_corridors(30, Some(1234));
    assert_eq!(map.width, MAP_WIDTH);
    assert_eq!(map.height, MAP_HEIGHT);
    for x in 0..map.width as i32 {
        assert_eq!(map.tiles[idx(&map, x, 0)], TileType::Wall);
        assert_eq!(map.tiles[idx(&map, x, 49)], TileType::Wall);
    }
    for y in 0..map.height as i32 {
        assert_eq!(map.tiles[idx(&map, 0, y)], TileType::Wall);
        assert_eq!(map.tiles[idx(&map, 79, y)], TileType::Wall);
    }
}

#[test]
fn generated_rooms_do_not_overlap() {
    let map = TileMap::new_map_rooms_and_corridors(30, Some(98765));
    assert!(map.rooms.len() >= 2, "want several rooms for a meaningful check");
    for i in 0..map.rooms.len() {
        for j in 0..map.rooms.len() {
            if i != j {
                assert!(!map.rooms[i].intersect(&map.rooms[j]));
            }
        }
    }
}

#[test]
fn generated_room_sizes_are_in_the_sampled_range() {
    let map = TileMap::new_map_rooms_and_corridors(30, Some(4321));
    for room in &map.rooms {
        let w = room.x2 - room.x1;
        let h = room.y2 - room.y1;
        assert!((6..10).contains(&w), "room width {} out of range", w);
        assert!((6..10).contains(&h), "room height {} out of range", h);
    }
}

#[test]
fn all_room_centres_are_connected_by_floor() {
    let map = TileMap::new_map_rooms_and_corridors(30, Some(2024));
    assert!(map.rooms.len() >= 2);
    let start = map.rooms[0].center();
    let seen = flood_fill(&map, start);
    for room in &map.rooms {
        let c = room.center();
        assert!(seen[idx(&map, c.0, c.1)], "room centre {:?} not reached", c);
    }
}

#[test]
fn generation_is_deterministic_for_a_seed() {
    let a = TileMap::new_map_rooms_and_corridors(30, Some(7));
    let b = TileMap::new_map_rooms_and_corridors(30, Some(7));
    assert_eq!(a.rooms.len(), b.rooms.len());
    assert!(a.tiles == b.tiles);
}

#[test]
fn single_room_map_is_floor_exactly_on_the_interior() {
    let map = TileMap::new_map_rooms_and_corridors(1, Some(99));
    assert_eq!(map.rooms.len(), 1);
    let room = map.rooms[0];
    for y in 0..map.height as i32 {
        for x in 0..map.width as i32 {
            let inside = x >= room.x1 + 1 && x <= room.x2 && y >= room.y1 + 1 && y <= room.y2;
            let tile = map.tiles[idx(&map, x, y)];
            if inside {
                assert_eq!(tile, TileType::Floor);
            } else {
                assert_eq!(tile, TileType::Wall);
            }
        }
    }
}

#[test]
fn zero_rooms_leaves_a_solid_map() {
    let map = TileMap::new_map_rooms_and_corridors(0, Some(11));
    assert!(map.rooms.is_empty());
    assert!(map.tiles.iter().all(|t| *t == TileType::Wall));
    assert_eq!(map.initial_player_position(), (40, 25));
}

#[test]
fn test_map_has_border_and_open_centre() {
    let map = TileMap::new_map_test();
    assert_eq!(map.width, 80);
    assert_eq!(map.height, 50);
    assert!(map.rooms.is_empty());
    for x in 0..80 {
        assert_eq!(map.tiles[idx(&map, x, 0)], TileType::Wall);
        assert_eq!(map.tiles[idx(&map, x, 49)], TileType::Wall);
    }
    for y in 0..50 {
        assert_eq!(map.tiles[idx(&map, 0, y)], TileType::Wall);
        assert_eq!(map.tiles[idx(&map, 79, y)], TileType::Wall);
    }
    assert_eq!(map.tiles[idx(&map, 40, 25)], TileType::Floor);
    assert!(map.revealed_tiles.iter().all(|r| !r));
    assert!(map.visible_tiles.iter().all(|v| !v));
}

#[test]
fn rect_intersection_and_centre() {
    let a = Rect { x1: 0, y1: 0, x2: 6, y2: 6 };
    let b = Rect { x1: 6, y1: 6, x2: 12, y2: 12 };
    let c = Rect { x1: 7, y1: 7, x2: 13, y2: 13 };
    assert!(a.intersect(&b));
    assert!(!a.intersect(&c));
    assert_eq!(a.center(), (3, 3));
    assert_eq!(Rect::new(2, 4, 6, 8), Rect { x1: 2, y1: 4, x2: 8, y2: 12 });
}

#[test]
fn spawn_point_is_first_room_centre_or_map_centre() {
    let map = TileMap::new_map_rooms_and_corridors(10, Some(5));
    assert!(map.rooms.len() >= 1);
    assert_eq!(map.initial_player_position(), map.rooms[0].center());

    let empty = TileMap {
        tiles: vec![TileType::Wall; 80 * 50],
        rooms: Vec::new(),
        width: 80,
        height: 50,
        revealed_tiles: vec![false; 80 * 50],
        visible_tiles: vec![false; 80 * 50],
    };
    assert_eq!(empty.initial_player_position(), (40, 25));
}

#[test]
fn map_queries_reject_out_of_bounds_coordinates() {
    let map = TileMap::new_map_rooms_and_corridors(5, Some(3));
    assert_eq!(map.tile_at(-1, 0), None);
    assert_eq!(map.tile_at(80, 0), None);
    assert_eq!(map.is_revealed(0, -1), None);
    assert_eq!(map.is_visible(0, 50), None);
    assert_eq!(map.tile_at(0, 0), Some(TileType::Wall));
    assert_eq!(map.dimensions(), (80, 50));
    assert!(map.is_opaque(0));
}
