use rogue_core::collision::is_point_inside_rect;
use rogue_core::errors::SmolError;
use rogue_core::math::{div_i32, Vector2Int};
use rogue_core::systems::Rarity;
use rogue_core::tiles::{Tile, TileMap, TileType};

#[test]
fn point_inside_rect_leaves_out_the_near_sides() {
    assert!(is_point_inside_rect(Vector2Int::new(5, 5), 0, 0, 10, 10));
    assert!(is_point_inside_rect(Vector2Int::new(10, 10), 0, 0, 10, 10));
    assert!(!is_point_inside_rect(Vector2Int::new(0, 5), 0, 0, 10, 10));
    assert!(!is_point_inside_rect(Vector2Int::new(5, 0), 0, 0, 10, 10));
    assert!(!is_point_inside_rect(Vector2Int::new(11, 5), 0, 0, 10, 10));
    assert!(!is_point_inside_rect(Vector2Int::new(5, 11), 0, 0, 10, 10));
    assert!(is_point_inside_rect(Vector2Int::new(-3, -3), -5, -5, 2, 2));
    assert!(!is_point_inside_rect(Vector2Int::new(1, 1), 0, 0, -4, 10));
}

#[test]
fn point_inside_rect_does_not_overflow() {
    assert!(is_point_inside_rect(Vector2Int::new(i32::MAX, 1), 1, 0, i32::MAX, 5));
    assert!(!is_point_inside_rect(Vector2Int::new(i32::MIN, 1), i32::MAX, 0, i32::MAX, 5));
}

#[test]
fn error_keeps_its_message() {
    let error = SmolError::new("no such texture");
    assert_eq!(error.message, "no such texture");
    let owned = SmolError::new(String::from("bad font"));
    assert_eq!(owned.clone().message, "bad font");
}

#[test]
fn vector_arithmetic_is_componentwise() {
    let a = Vector2Int::new(7, -9);
    let b = Vector2Int::new(-2, 4);
    assert_eq!(a.plus(b), Vector2Int::new(5, -5));
    assert_eq!(a.minus(b), Vector2Int::new(9, -13));
    assert_eq!(a.scaled(3), Vector2Int::new(21, -27));
    assert_eq!(a.divided(2), Vector2Int::new(3, -4));
    assert_eq!(a.distance(b), 22);
    assert_eq!(a.distance_squared(b), 81 + 169);
    assert_eq!(a.checked_plus(b), Some(Vector2Int::new(5, -5)));
    assert_eq!(Vector2Int::new(i32::MAX, 0).checked_plus(Vector2Int::new(1, 0)), None);
    assert_eq!(Vector2Int::new(0, i32::MIN).checked_plus(Vector2Int::new(0, -1)), None);
    assert_eq!(Vector2Int::default(), Vector2Int::new(0, 0));
    assert_eq!(
        Vector2Int::new(i32::MIN, i32::MIN).distance_squared(Vector2Int::new(i32::MAX, i32::MAX)),
        2 * (u32::MAX as u128) * (u32::MAX as u128)
    );
}

#[test]
fn division_rounds_toward_zero() {
    assert_eq!(div_i32(79, 40), 1);
    assert_eq!(div_i32(-79, 40), -1);
    assert_eq!(div_i32(-80, 40), -2);
    assert_eq!(div_i32(0, 40), 0);
    assert_eq!(div_i32(i32::MIN, 1), i32::MIN);
    assert_eq!(div_i32(i32::MIN, 40), -53687091);
    assert_eq!(div_i32(79, -40), -1);
    assert_eq!(div_i32(-79, -40), 1);
    assert_eq!(div_i32(-80, -40), 2);
    assert_eq!(div_i32(i32::MIN, -2), 1073741824);
    assert_eq!(div_i32(i32::MAX, -1), -i32::MAX);
    assert_eq!(Vector2Int::new(7, -9).divided(-2), Vector2Int::new(-3, 4));
}

#[test]
fn tile_table_keeps_what_is_put_in() {
    let mut tiles = TileMap::new();
    assert!(tiles.is_empty());
    assert_eq!(tiles.len(), 0);
    let first = tiles.insert(Vector2Int::new(1, 2), Tile { walkable: true, ..Default::default() });
    assert!(first.is_none());
    let second = tiles.insert(
        Vector2Int::new(1, 2),
        Tile { walkable: false, texture_name: "tree".to_string(), tile_type: TileType::Tree },
    );
    assert!(second.unwrap().walkable);
    assert_eq!(tiles.len(), 1);
    assert!(!tiles.is_empty());
    assert!(tiles.contains_key(Vector2Int::new(1, 2)));
    assert!(!tiles.contains_key(Vector2Int::new(2, 1)));
    assert!(!tiles.is_walkable(Vector2Int::new(1, 2)));
    assert_eq!(tiles.get(Vector2Int::new(1, 2)).unwrap().clone().texture_name, "tree");
    let plain = Tile::default();
    assert!(!plain.walkable);
    assert_eq!(plain.texture_name, "");
    assert_eq!(plain.tile_type, TileType::default());
    assert_eq!(Rarity::Uncommon, Rarity::Uncommon);
}
