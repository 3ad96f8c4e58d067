use aoc24::trails::{Error, Height, Move, Position, Route, TrailMap};
use aoc24::GridError;

#[test]
fn test_new_height() {
    let expected = Some(Height(3));
    let actual = Height::new(&3);
    assert_eq!(expected, actual)
}

#[test]
fn test_new_invalid_height() {
    let expected = None;
    let actual = Height::new(&10);
    assert_eq!(expected, actual)
}

#[test]
fn test_new_position() {
    let expected = Position { x: 1, y: 2 };
    let actual = Position::new(1, 2);
    assert_eq!(expected, actual)
}

#[test]
fn test_new_route() {
    let expected = Route { positions: vec![Position::new(3, 4)] };
    let actual = Route::new(Position::new(3, 4));
    assert_eq!(expected, actual)
}

#[test]
fn test_action_move_left() {
    let map = TrailMap::read(vec![
        vec![0, 1, 2, 3],
        vec![1, 2, 3, 4],
        vec![8, 7, 6, 5],
        vec![9, 8, 7, 6],
    ]);
    let actual = Route::new(Position::new(2, 2)).action_move(&Move::Left, &map);
    let expected_positons = vec![Position::new(2, 2), Position::new(1, 2)];
    let expected = Route { positions: expected_positons };
    assert_eq!(expected, actual.unwrap())
}

#[test]
fn test_action_move_right() {
    let map = TrailMap::read(vec![
        vec![0, 1, 2, 3],
        vec![1, 2, 3, 4],
        vec![8, 7, 6, 5],
        vec![9, 8, 7, 6],
    ]);
    let actual = Route::new(Position::new(1, 1)).action_move(&Move::Right, &map);
    let expected_positons = vec![Position::new(1, 1), Position::new(2, 1)];
    let expected = Route { positions: expected_positons };
    assert_eq!(expected, actual.unwrap())
}

#[test]
fn test_action_move_down() {
    let map = TrailMap::read(vec![
        vec![0, 1, 2, 3],
        vec![1, 2, 3, 4],
        vec![8, 7, 6, 5],
        vec![9, 8, 7, 6],
    ]);
    let actual = Route::new(Position::new(1, 0)).action_move(&Move::Down, &map);
    let expected_positons = vec![Position::new(1, 0), Position::new(1, 1)];
    let expected = Route { positions: expected_positons };
    assert_eq!(expected, actual.unwrap())
}

#[test]
fn test_action_move_up() {
    let map = TrailMap::read(vec![
        vec![0, 1, 2, 3],
        vec![1, 2, 3, 4],
        vec![8, 8, 6, 5],
        vec![9, 7, 7, 6],
    ]);
    let actual = Route::new(Position::new(1, 3)).action_move(&Move::Up, &map);
    let expected_positons = vec![Position::new(1, 3), Position::new(1, 2)];
    let expected = Route { positions: expected_positons };
    assert_eq!(expected, actual.unwrap())
}

#[test]
fn test_action_move_out_of_bounds() {
    let map = TrailMap::read(vec![
        vec![0, 1, 2, 3],
        vec![1, 2, 3, 4],
        vec![8, 7, 6, 5],
        vec![9, 8, 7, 6],
    ]);
    let actual = Route::new(Position::new(3, 0)).action_move(&Move::Right, &map);
    assert_eq!(Err(Error::InvalidMove), actual)
}

#[test]
fn test_map_read() {
    let actual = TrailMap::read(vec![
        vec![0, 1, 2, 3],
        vec![1, 2, 3, 4],
        vec![8, 7, 6, 5],
        vec![9, 8, 7, 6],
    ]);
    let expected_grid = vec![
        vec![Height(0), Height(1), Height(2), Height(3)],
        vec![Height(1), Height(2), Height(3), Height(4)],
        vec![Height(8), Height(7), Height(6), Height(5)],
        vec![Height(9), Height(8), Height(7), Height(6)],
    ];
    let expected = TrailMap {
        grid: expected_grid,
        trailheads: vec![Position::new(0, 0)],
        max_x: 4,
        max_y: 4,
    };
    assert_eq!(expected, actual);
}

#[test]
fn test_count_trails_large_map() {
    // the eight-by-eight reference map has 81 ascending routes in all
    let map = TrailMap::read(vec![
        vec![8, 9, 0, 1, 0, 1, 2, 3],
        vec![7, 8, 1, 2, 1, 8, 7, 4],
        vec![8, 7, 4, 3, 0, 9, 6, 5],
        vec![9, 6, 5, 4, 9, 8, 7, 4],
        vec![4, 5, 6, 7, 8, 9, 0, 3],
        vec![3, 2, 0, 1, 9, 0, 1, 2],
        vec![0, 1, 3, 2, 9, 8, 0, 1],
        vec![1, 0, 4, 5, 6, 7, 3, 2],
    ]);
    assert_eq!(81, map.count_trails());
}

#[test]
fn test_count_trails_single_cell() {
    // a lone trailhead with no ascending neighbor yields no route
    let map = TrailMap::read(vec![vec![0]]);
    assert_eq!(1, map.trailheads.len());
    assert_eq!(0, map.count_trails());
}

#[test]
fn test_count_trails_twice_identical() {
    let map = TrailMap::read(vec![vec![0, 1, 2, 3, 4, 5, 6, 7, 8, 9]]);
    let first = map.count_trails();
    let second = map.count_trails();
    assert_eq!(first, second);
    assert_eq!(1, first);
}

#[test]
fn test_build_rejects_bad_maps() {
    assert_eq!(Err(GridError::MalformedInput), TrailMap::build(vec![]));
    assert_eq!(Err(GridError::MalformedInput), TrailMap::build(vec![vec![]]));
    assert_eq!(
        Err(GridError::MalformedInput),
        TrailMap::build(vec![vec![0, 1], vec![2]])
    );
    assert_eq!(
        Err(GridError::InvalidHeight),
        TrailMap::build(vec![vec![0, 1], vec![2, 10]])
    );
    let built = TrailMap::build(vec![vec![0, 1]]).unwrap();
    assert_eq!(built, TrailMap::read(vec![vec![0, 1]]));
}

#[test]
fn test_iterate_routes_steps_once() {
    // from the height-0 cell of 0123 only the rightward step survives
    let map = TrailMap::read(vec![vec![0, 1, 2, 3]]);
    let routes = vec![Route::new(Position::new(0, 0))];
    let stepped = aoc24::trails::iterate_routes(routes, &map);
    assert_eq!(1, stepped.len());
    assert_eq!(
        vec![Position::new(0, 0), Position::new(1, 0)],
        stepped[0].positions
    );
    // a route at the top of the climb dies out
    let dead = aoc24::trails::iterate_routes(
        vec![Route::new(Position::new(3, 0))],
        &map,
    );
    assert_eq!(0, dead.len());
}
