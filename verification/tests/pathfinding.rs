use rogue_core::math::Vector2Int;
use rogue_core::pathfinding::{
    a_star, find_position, find_search_goal, get_neighbours_valid_positions, is_preferred,
    manhattan_heuristic, select_next, PathNode,
};
use rogue_core::tiles::{Tile, TileMap};

fn open_tile() -> Tile {
    Tile { walkable: true, ..Default::default() }
}

fn wall_tile() -> Tile {
    Tile { walkable: false, ..Default::default() }
}

fn open_grid(side: i32) -> TileMap {
    let mut nodes = TileMap::new();
    for x in 0..side {
        for y in 0..side {
            nodes.insert(Vector2Int::new(x, y), open_tile());
        }
    }
    nodes
}

fn is_chain(path: &Vec<Vector2Int>) -> bool {
    path.windows(2).all(|pair| manhattan_heuristic(pair[0], pair[1]) == 1)
}

#[test]
fn test_pathfinding() {
    let mut nodes = TileMap::new();

    for x in 0..6 {
        for y in 0..6 {
            nodes.insert(Vector2Int::new(x, y), Tile { walkable: true, ..Default::default() });
        }
    }

    let path = a_star(&nodes, Vector2Int::default(), Vector2Int::new(5, 5));
    assert_eq!(path.is_some(), true);
}

#[test]
fn test_returns_none_if_no_valid_path() {
    let mut nodes = TileMap::new();

    for x in 0..6 {
        for y in 0..6 {
            nodes.insert(Vector2Int::new(x, y), Tile { walkable: true, ..Default::default() });
        }
    }

    let path = a_star(&nodes, Vector2Int::default(), Vector2Int::new(6, 6));
    assert_eq!(path.is_none(), true);
}

#[test]
fn path_runs_from_goal_back_to_start() {
    let nodes = open_grid(6);
    let path = a_star(&nodes, Vector2Int::new(0, 0), Vector2Int::new(5, 5)).unwrap();
    assert_eq!(path[0], Vector2Int::new(5, 5));
    assert_eq!(path[path.len() - 1], Vector2Int::new(0, 0));
    assert!(is_chain(&path));
}

#[test]
fn path_on_open_ground_is_as_long_as_the_manhattan_distance() {
    let nodes = open_grid(6);
    let path = a_star(&nodes, Vector2Int::new(0, 0), Vector2Int::new(5, 5)).unwrap();
    assert_eq!(path.len(), 11);
    let path = a_star(&nodes, Vector2Int::new(4, 1), Vector2Int::new(1, 3)).unwrap();
    assert_eq!(path.len(), 6);
}

#[test]
fn path_to_the_start_itself_is_one_cell() {
    let nodes = open_grid(3);
    let path = a_star(&nodes, Vector2Int::new(1, 1), Vector2Int::new(1, 1)).unwrap();
    assert_eq!(path, vec![Vector2Int::new(1, 1)]);
}

#[test]
fn path_goes_round_a_wall() {
    let mut nodes = open_grid(5);
    for y in 0..4 {
        nodes.insert(Vector2Int::new(2, y), wall_tile());
    }
    let path = a_star(&nodes, Vector2Int::new(0, 0), Vector2Int::new(4, 0)).unwrap();
    assert_eq!(path.len(), 13);
    assert!(is_chain(&path));
    assert!(path.iter().all(|cell| nodes.is_walkable(*cell)));
}

#[test]
fn no_path_through_a_closed_wall() {
    let mut nodes = open_grid(5);
    for y in 0..5 {
        nodes.insert(Vector2Int::new(2, y), wall_tile());
    }
    assert_eq!(a_star(&nodes, Vector2Int::new(0, 0), Vector2Int::new(4, 0)), None);
}

#[test]
fn no_path_from_a_start_that_cannot_be_walked_on() {
    let mut nodes = open_grid(3);
    nodes.insert(Vector2Int::new(0, 0), wall_tile());
    assert_eq!(a_star(&nodes, Vector2Int::new(0, 0), Vector2Int::new(2, 2)), None);
}

#[test]
fn no_path_from_a_start_without_a_tile() {
    let nodes = open_grid(3);
    assert_eq!(a_star(&nodes, Vector2Int::new(-1, 0), Vector2Int::new(2, 2)), None);
}

#[test]
fn blocked_goal_gives_way_to_its_west_neighbour_first() {
    let mut nodes = open_grid(5);
    nodes.insert(Vector2Int::new(2, 2), wall_tile());
    assert_eq!(
        find_search_goal(&nodes, Vector2Int::new(0, 0), Vector2Int::new(2, 2)),
        Some(Vector2Int::new(1, 2))
    );
    let path = a_star(&nodes, Vector2Int::new(4, 4), Vector2Int::new(2, 2)).unwrap();
    assert_eq!(path[0], Vector2Int::new(1, 2));
}

#[test]
fn blocked_goal_without_open_neighbour_has_no_path() {
    let mut nodes = open_grid(5);
    for cell in [(2, 2), (1, 2), (3, 2), (2, 1), (2, 3)] {
        nodes.insert(Vector2Int::new(cell.0, cell.1), wall_tile());
    }
    assert_eq!(find_search_goal(&nodes, Vector2Int::new(0, 0), Vector2Int::new(2, 2)), None);
    assert_eq!(a_star(&nodes, Vector2Int::new(0, 0), Vector2Int::new(2, 2)), None);
}

#[test]
fn neighbours_come_west_east_south_north() {
    let nodes = open_grid(3);
    assert_eq!(
        get_neighbours_valid_positions(&nodes, Vector2Int::new(1, 1)),
        vec![
            Vector2Int::new(0, 1),
            Vector2Int::new(2, 1),
            Vector2Int::new(1, 0),
            Vector2Int::new(1, 2)
        ]
    );
    assert_eq!(
        get_neighbours_valid_positions(&nodes, Vector2Int::new(0, 0)),
        vec![Vector2Int::new(1, 0), Vector2Int::new(0, 1)]
    );
}

#[test]
fn neighbours_at_the_edge_of_the_grid() {
    let mut nodes = TileMap::new();
    nodes.insert(Vector2Int::new(i32::MAX, 0), open_tile());
    nodes.insert(Vector2Int::new(i32::MAX - 1, 0), open_tile());
    assert_eq!(
        get_neighbours_valid_positions(&nodes, Vector2Int::new(i32::MAX, 0)),
        vec![Vector2Int::new(i32::MAX - 1, 0)]
    );
}

#[test]
fn manhattan_heuristic_adds_both_axes() {
    assert_eq!(manhattan_heuristic(Vector2Int::new(0, 0), Vector2Int::new(5, 5)), 10);
    assert_eq!(manhattan_heuristic(Vector2Int::new(-3, 4), Vector2Int::new(2, -1)), 10);
    assert_eq!(
        manhattan_heuristic(Vector2Int::new(i32::MIN, i32::MIN), Vector2Int::new(i32::MAX, i32::MAX)),
        2 * (u32::MAX as i64)
    );
}

fn node(x: i32, y: i32, g: i64, f: i64) -> PathNode {
    PathNode { position: Vector2Int::new(x, y), g, f, previous: None }
}

#[test]
fn lowest_estimate_is_taken_first() {
    let open = vec![node(0, 0, 1, 9), node(1, 0, 1, 7), node(2, 0, 1, 8)];
    assert_eq!(select_next(&open, Vector2Int::new(5, 5)), 1);
}

#[test]
fn among_equal_estimates_the_higher_cost_is_taken() {
    let open = vec![node(0, 0, 1, 7), node(1, 0, 3, 7), node(2, 0, 2, 7)];
    assert_eq!(select_next(&open, Vector2Int::new(5, 5)), 1);
}

#[test]
fn among_equal_costs_the_shorter_straight_line_is_taken() {
    let goal = Vector2Int::new(4, 4);
    let open = vec![node(0, 4, 2, 6), node(2, 2, 2, 6), node(4, 0, 2, 6)];
    assert_eq!(select_next(&open, goal), 1);
    assert!(is_preferred(&open[1], &open[0], goal));
    assert!(!is_preferred(&open[0], &open[2], goal));
}

#[test]
fn among_equals_the_first_is_taken() {
    let goal = Vector2Int::new(4, 4);
    let open = vec![node(0, 4, 2, 6), node(4, 0, 2, 6)];
    assert_eq!(select_next(&open, goal), 0);
}

#[test]
fn find_position_gives_the_first_place() {
    let list = vec![node(0, 0, 0, 0), node(1, 0, 0, 0), node(1, 0, 5, 5)];
    assert_eq!(find_position(&list, Vector2Int::new(1, 0)), Some(1));
    assert_eq!(find_position(&list, Vector2Int::new(2, 0)), None);
}

#[test]
fn search_gives_up_on_a_table_too_large() {
    let mut nodes = TileMap::new();
    for x in 0..10002 {
        nodes.insert(Vector2Int::new(x, 0), open_tile());
    }
    assert_eq!(a_star(&nodes, Vector2Int::new(0, 0), Vector2Int::new(10001, 0)), None);
    let path = a_star(&nodes, Vector2Int::new(0, 0), Vector2Int::new(9999, 0)).unwrap();
    assert_eq!(path.len(), 10000);
}
