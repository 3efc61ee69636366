use rogue_core::components::Transform;
use rogue_core::map::{
    chunk_is_in_bounds, chunk_of, tile_for_roll, MapChunk, WorldMap, MAX_CHUNK_SIZE,
};
use rogue_core::math::Vector2Int;
use rogue_core::tiles::{Tile, TileMap, TileType};
use rogue_core::world::{Components, World};

fn placed(x: i32, y: i32) -> Components {
    Components { transform: Some(Transform::new(Vector2Int::new(x, y))), ..Default::default() }
}

#[test]
fn test_get_chunk_pos() {
    let map = WorldMap::new();
    let try_pos = Vector2Int::new(30, 30);
    let chunk_pos = map.get_chunk_from_position(try_pos).position;
    assert_eq!(Vector2Int::new(0, 0), chunk_pos);
}

#[test]
fn large_chunk_get() {
    let mut map = WorldMap::new();
    map.add_new_chunk(Vector2Int::new(101, 404));
    let try_pos = Vector2Int::new(101 * MAX_CHUNK_SIZE, 404 * MAX_CHUNK_SIZE);
    let chunk_pos = map.get_chunk_from_position(try_pos).position;
    assert_eq!(Vector2Int::new(101, 404), chunk_pos);
}

#[test]
fn div_by_zero() {
    let map = WorldMap::new();

    let try_pos = Vector2Int::new(0, 30);
    let chunk_pos = map.get_chunk_from_position(try_pos).position;
    assert_eq!(Vector2Int::new(0, 0), chunk_pos);
}

#[test]
fn test_entitie_chunk_query() {
    let mut world = World::new();
    let mut map = WorldMap::new();
    map.add_new_chunk(Vector2Int::new(1, 1));
    world.spawn(placed(MAX_CHUNK_SIZE + 1, MAX_CHUNK_SIZE + 1));

    let a = world.spawn(placed(MAX_CHUNK_SIZE, MAX_CHUNK_SIZE));

    world.spawn(placed(MAX_CHUNK_SIZE - 1, MAX_CHUNK_SIZE - 1));

    assert_eq!(map.get_all_other_entities_in_chunk(&world, a).len(), 1);

    assert_eq!(map.get_all_entities_in_chunk(&world, Vector2Int { x: 0, y: 0 }).len(), 1);
}

#[test]
fn entities_in_a_chunk_are_asked_for_by_the_place_of_the_chunk() {
    let mut world = World::new();
    let mut map = WorldMap::new();
    map.add_new_chunk(Vector2Int::new(1, 1));
    let inside = world.spawn(placed(45, 45));
    let corner = world.spawn(placed(40, 79));
    let outside = world.spawn(placed(39, 45));
    world.spawn(Components::default());
    assert_eq!(map.get_all_entities_in_chunk(&world, Vector2Int::new(1, 1)), vec![inside, corner]);
    assert_eq!(map.get_all_entities_in_chunk(&world, Vector2Int::new(0, 1)), vec![outside]);
    assert_eq!(map.get_all_entities_in_chunk(&world, Vector2Int::new(45, 45)), vec![]);
    assert_eq!(map.get_all_other_entities_in_chunk(&world, inside), vec![corner]);
}

#[test]
fn test_get_tiles_range_of() {
    let chunk = MapChunk::generate(Vector2Int::default());

    let range_tiles = chunk.get_tiles_range_of(Vector2Int::new(5, 5), 2);

    assert_eq!(range_tiles.len(), 25);
}

#[test]
fn chunk_of_rounds_toward_zero() {
    assert_eq!(chunk_of(Vector2Int::new(30, 30)), Vector2Int::new(0, 0));
    assert_eq!(chunk_of(Vector2Int::new(0, 30)), Vector2Int::new(0, 0));
    assert_eq!(chunk_of(Vector2Int::new(0, 85)), Vector2Int::new(0, 2));
    assert_eq!(chunk_of(Vector2Int::new(40, 79)), Vector2Int::new(1, 1));
    assert_eq!(chunk_of(Vector2Int::new(-30, -39)), Vector2Int::new(0, 0));
    assert_eq!(chunk_of(Vector2Int::new(-40, -81)), Vector2Int::new(-1, -2));
    assert_eq!(chunk_of(Vector2Int::new(i32::MIN, i32::MAX)), Vector2Int::new(-53687091, 53687091));
}

#[test]
fn chunk_of_is_the_same_before_and_after_generation() {
    let mut map = WorldMap::new();
    let cell = Vector2Int::new(95, 130);
    let before = chunk_of(cell);
    map.add_new_chunk(before);
    assert_eq!(chunk_of(cell), before);
    assert_eq!(chunk_of(cell), Vector2Int::new(2, 3));
    assert_eq!(map.get_chunk_from_position(cell).position, before);
}

#[test]
fn generated_chunk_covers_its_square() {
    let chunk = MapChunk::generate(Vector2Int::new(2, -1));
    assert_eq!(chunk.position, Vector2Int::new(2, -1));
    assert_eq!(chunk.tiles.len(), 1600);
    assert!(chunk.tiles.contains_key(Vector2Int::new(80, -40)));
    assert!(chunk.tiles.contains_key(Vector2Int::new(119, -1)));
    assert!(!chunk.tiles.contains_key(Vector2Int::new(120, -1)));
    assert!(!chunk.tiles.contains_key(Vector2Int::new(80, 0)));
    assert!(!chunk.tiles.contains_key(Vector2Int::new(79, -40)));
}

#[test]
fn generated_tiles_are_grass_tree_or_ground() {
    let chunk = MapChunk::generate(Vector2Int::default());
    let mut walkable = 0;
    for x in 0..MAX_CHUNK_SIZE {
        for y in 0..MAX_CHUNK_SIZE {
            let tile = chunk.tiles.get(Vector2Int::new(x, y)).unwrap();
            match tile.texture_name.as_str() {
                "tree" => {
                    assert!(!tile.walkable);
                    assert_eq!(tile.tile_type, TileType::Tree);
                }
                "grass" | "dot" => {
                    assert!(tile.walkable);
                    assert_eq!(tile.tile_type, TileType::Empty);
                    walkable += 1;
                }
                other => panic!("unexpected texture {}", other),
            }
        }
    }
    assert!(walkable > 1600 * 7 / 10);
    assert!(walkable < 1600);
}

#[test]
fn tile_for_roll_follows_the_weights() {
    for value in [0, 1] {
        let tile = tile_for_roll(value);
        assert_eq!(tile.texture_name, "grass");
        assert!(tile.walkable);
        assert_eq!(tile.tile_type, TileType::Empty);
    }
    let tree = tile_for_roll(2);
    assert_eq!(tree.texture_name, "tree");
    assert!(!tree.walkable);
    assert_eq!(tree.tile_type, TileType::Tree);
    for value in 3..10 {
        let tile = tile_for_roll(value);
        assert_eq!(tile.texture_name, "dot");
        assert!(tile.walkable);
        assert_eq!(tile.tile_type, TileType::Empty);
    }
}

#[test]
fn range_query_keeps_only_tiles_that_exist() {
    let chunk = MapChunk::generate(Vector2Int::default());
    assert_eq!(chunk.get_tiles_range_of(Vector2Int::new(0, 0), 2).len(), 9);
    assert_eq!(chunk.get_tiles_range_of(Vector2Int::new(39, 20), 1).len(), 6);
    assert_eq!(chunk.get_tiles_range_of(Vector2Int::new(20, 20), 0).len(), 1);
    assert_eq!(chunk.get_tiles_range_of(Vector2Int::new(20, 20), -1).len(), 0);
    assert_eq!(chunk.get_tiles_range_of(Vector2Int::new(20, 20), 3).len(), 49);
    assert_eq!(chunk.get_tiles_range_of(Vector2Int::new(100, 100), 5).len(), 0);
}

#[test]
fn range_query_copies_the_tiles() {
    let mut tiles = TileMap::new();
    tiles.insert(
        Vector2Int::new(1, 1),
        Tile { walkable: true, texture_name: "grass".to_string(), tile_type: TileType::Empty },
    );
    tiles.insert(
        Vector2Int::new(3, 1),
        Tile { walkable: false, texture_name: "tree".to_string(), tile_type: TileType::Tree },
    );
    let chunk = MapChunk { position: Vector2Int::default(), tiles };
    let found = chunk.get_tiles_range_of(Vector2Int::new(2, 2), 1);
    assert_eq!(found.len(), 2);
    assert_eq!(found.get(Vector2Int::new(3, 1)).unwrap().texture_name, "tree");
    assert!(!found.get(Vector2Int::new(3, 1)).unwrap().walkable);
    assert!(found.get(Vector2Int::new(1, 1)).unwrap().walkable);
    assert!(found.get(Vector2Int::new(2, 2)).is_none());
}

#[test]
fn range_query_at_the_edge_of_the_grid() {
    let mut tiles = TileMap::new();
    tiles.insert(Vector2Int::new(i32::MAX, i32::MIN), Tile::default());
    let chunk = MapChunk { position: Vector2Int::default(), tiles };
    assert_eq!(chunk.get_tiles_range_of(Vector2Int::new(i32::MAX, i32::MIN), 2).len(), 1);
}

#[test]
fn tiles_of_chunks_that_do_not_exist_cannot_be_walked_on() {
    let map = WorldMap::new();
    assert!(!map.is_tile_walkable(Vector2Int::new(500, 500)));
    assert!(map.get_tile_from_grid_position(Vector2Int::new(500, 500)).is_none());
    assert!(map.get_tile_from_grid_position(Vector2Int::new(5, 5)).is_some());
    assert!(map.try_get_chunk(&Vector2Int::new(12, 12)).is_none());
    assert!(map.try_get_chunk(&Vector2Int::new(0, 0)).is_some());
}

#[test]
fn a_chunk_is_made_once() {
    let mut map = WorldMap::new();
    let mut before = Vec::new();
    for x in 0..MAX_CHUNK_SIZE {
        before.push(map.is_tile_walkable(Vector2Int::new(x, 7)));
    }
    map.add_new_chunk(Vector2Int::new(0, 0));
    for x in 0..MAX_CHUNK_SIZE {
        assert_eq!(map.is_tile_walkable(Vector2Int::new(x, 7)), before[x as usize]);
    }
    assert_eq!(map.get_current_chunk().position, Vector2Int::new(0, 0));
}

#[test]
fn walkability_goes_by_the_tile() {
    let mut tiles = TileMap::new();
    tiles.insert(Vector2Int::new(6, 5), Tile { walkable: true, ..Default::default() });
    tiles.insert(Vector2Int::new(7, 5), Tile { walkable: false, ..Default::default() });
    let mut map = WorldMap::from_chunk(MapChunk { position: Vector2Int::default(), tiles });
    assert!(map.is_tile_walkable(Vector2Int::new(6, 5)));
    assert!(!map.is_tile_walkable(Vector2Int::new(7, 5)));
    assert!(!map.is_tile_walkable(Vector2Int::new(8, 5)));
    assert!(!map.add_chunk(MapChunk { position: Vector2Int::default(), tiles: TileMap::new() }));
    assert!(map.is_tile_walkable(Vector2Int::new(6, 5)));
    assert!(map.add_chunk(MapChunk { position: Vector2Int::new(3, 3), tiles: TileMap::new() }));
    assert!(map.try_get_chunk(&Vector2Int::new(3, 3)).is_some());
}

#[test]
fn chunks_at_the_edge_of_the_grid_are_out_of_bounds() {
    assert!(chunk_is_in_bounds(Vector2Int::new(0, 0)));
    assert!(chunk_is_in_bounds(Vector2Int::new(53687090, -53687091)));
    assert!(!chunk_is_in_bounds(Vector2Int::new(53687091, 0)));
    assert!(!chunk_is_in_bounds(Vector2Int::new(0, -53687092)));
}

#[test]
fn a_chunk_can_be_changed_where_it_is() {
    let mut map = WorldMap::new();
    let cell = Vector2Int::new(5, 5);
    map.get_mut_chunk_from_position(cell)
        .tiles
        .insert(cell, Tile { walkable: false, ..Default::default() });
    assert!(!map.is_tile_walkable(cell));
    assert_eq!(map.get_chunk_from_position(cell).tiles.len(), 1600);
    match map.try_get_mut_chunk(&Vector2Int::new(0, 0)) {
        Some(chunk) => {
            chunk.tiles.insert(cell, Tile { walkable: true, ..Default::default() });
        }
        None => panic!("the chunk at the origin is missing"),
    }
    assert!(map.is_tile_walkable(cell));
    assert!(map.try_get_mut_chunk(&Vector2Int::new(7, 7)).is_none());
}
