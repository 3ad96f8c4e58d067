use aoc24::regions::{Garden, Plant};
use aoc24::GridError;

fn fresh(label: char, i: usize, j: usize) -> Plant {
    Plant { label, i, j, group: None, borders: None, edges: None }
}

#[test]
fn day12_test_map_new() {
    let plant_a = fresh('a', 0, 0);
    let plant_b = fresh('b', 1, 0);
    let plant_c = fresh('c', 2, 0);
    let plant_d = fresh('d', 3, 0);
    let expected = Garden {
        plants: vec![vec![plant_a, plant_b, plant_c, plant_d]],
        size_i: 4,
        size_j: 1,
        n_groups: None,
    };
    let actual = Garden::new(vec![vec!['a', 'b', 'c', 'd']]);
    assert_eq!(expected, actual);
}

#[test]
fn test_map_search() {
    let mut map = Garden::new(vec![vec!['a', 'b', 'b', 'd']]);
    let is_new = Garden::search((0, 0), None, None, &mut map, Some(0));
    assert!(!is_new);
    let actual_borders = map.plants[0][0].borders;
    let actual_group = map.plants[0][0].group;
    let actual_edges = map.plants[0][0].edges;
    assert_eq!(Some(4), actual_borders);
    assert_eq!(Some(0), actual_group);
    assert_eq!(Some(4), actual_edges);
    let expected_group = map.plants[0][1].group;
    assert_eq!(expected_group, None);
    let expected_group = map.plants[0][2].group;
    assert_eq!(expected_group, None);
    let expected_group = map.plants[0][3].group;
    assert_eq!(expected_group, None);
}

#[test]
fn test_map_search_again() {
    let mut map = Garden::new(vec![vec!['a', 'b', 'b', 'd']]);
    Garden::search((1, 0), None, None, &mut map, Some(0));
    let actual_borders = map.plants[0][1].borders;
    let actual_group = map.plants[0][1].group;
    let actual_edges = map.plants[0][1].edges;
    assert_eq!(Some(3), actual_borders);
    assert_eq!(Some(0), actual_group);
    assert_eq!(Some(2), actual_edges);
    let actual_borders = map.plants[0][2].borders;
    let actual_group = map.plants[0][2].group;
    let actual_edges = map.plants[0][2].edges;
    assert_eq!(Some(3), actual_borders);
    assert_eq!(Some(0), actual_group);
    assert_eq!(Some(2), actual_edges);
    let expected_group = map.plants[0][0].group;
    assert_eq!(expected_group, None);
    let expected_group = map.plants[0][3].group;
    assert_eq!(expected_group, None);
}

#[test]
fn test_map_find_neighbours_and_borders() {
    let mut map = Garden::new(vec![vec!['a', 'b', 'b', 'd']]);
    map.find_neighbours_and_borders();
    let actual_borders = map.plants[0][0].borders;
    let actual_group = map.plants[0][0].group;
    assert_eq!(Some(4), actual_borders);
    assert_eq!(Some(0), actual_group);
    let actual_borders = map.plants[0][1].borders;
    let actual_group = map.plants[0][1].group;
    assert_eq!(Some(3), actual_borders);
    assert_eq!(Some(1), actual_group);
    let actual_borders = map.plants[0][2].borders;
    let actual_group = map.plants[0][2].group;
    assert_eq!(Some(3), actual_borders);
    assert_eq!(Some(1), actual_group);
    let actual_borders = map.plants[0][3].borders;
    let actual_group = map.plants[0][3].group;
    assert_eq!(Some(4), actual_borders);
    assert_eq!(Some(2), actual_group);

    assert_eq!(Some(3), map.n_groups);
}

#[test]
fn test_map_count_edges() {
    let input = vec![vec!['a', 'b', 'c']];
    let mut map = Garden::new(input);

    let (pos_i, pos_j) = (0, 0);
    map.count_edges(pos_i, pos_j);
    let actual = map.plants[pos_j][pos_i].edges;
    let expected = Some(4);
    assert_eq!(expected, actual);
    let (pos_i, pos_j) = (1, 0);
    map.count_edges(pos_i, pos_j);
    let actual = map.plants[pos_j][pos_i].edges;
    let expected = Some(4);
    assert_eq!(expected, actual);
    let (pos_i, pos_j) = (2, 0);
    map.count_edges(pos_i, pos_j);
    let actual = map.plants[pos_j][pos_i].edges;
    let expected = Some(4);
    assert_eq!(expected, actual);
}

#[test]
fn test_map_get_cost() {
    let input = vec![vec!['a', 'b', 'c']];
    let expected = 12;

    let mut map = Garden::new(input);
    map.find_neighbours_and_borders();
    let actual = map.get_cost();
    assert_eq!(expected, actual);
}

#[test]
fn test_map_get_cost_again() {
    let input = vec![
        vec!['a', 'a', 'a', 'a'],
        vec!['b', 'b', 'c', 'd'],
        vec!['b', 'b', 'c', 'c'],
        vec!['e', 'e', 'e', 'c'],
    ];
    let expected = 140;
    let mut map = Garden::new(input);
    map.find_neighbours_and_borders();
    let actual = map.get_cost();
    assert_eq!(expected, actual);
}

#[test]
fn test_map_get_cost_2_again() {
    let input = vec![
        vec!['a', 'a', 'a', 'a'],
        vec!['b', 'b', 'c', 'd'],
        vec!['b', 'b', 'c', 'c'],
        vec!['e', 'e', 'e', 'c'],
    ];
    let expected = 80;
    let mut map = Garden::new(input);
    map.find_neighbours_and_borders();
    let actual = map.get_cost_2();
    assert_eq!(expected, actual);
}

#[test]
fn test_single_row_distinct_labels_both_prices() {
    // four distinct one-cell regions: cost 4 x (1 x 4) under either pricing
    let mut map = Garden::new(vec![vec!['a', 'b', 'c', 'd']]);
    map.find_neighbours_and_borders();
    assert_eq!(16, map.get_cost());
    assert_eq!(16, map.get_cost_2());
    // and the three-cell variant prices at 12
    let mut map = Garden::new(vec![vec!['a', 'b', 'c']]);
    map.find_neighbours_and_borders();
    assert_eq!(12, map.get_cost());
    assert_eq!(12, map.get_cost_2());
}

#[test]
fn test_one_by_one_garden() {
    // a single plant forms one region with area 1, perimeter 4, sides 4
    let mut map = Garden::new(vec![vec!['z']]);
    map.find_neighbours_and_borders();
    assert_eq!(Some(1), map.n_groups);
    assert_eq!(Some(0), map.plants[0][0].group);
    assert_eq!(Some(4), map.plants[0][0].borders);
    assert_eq!(Some(4), map.plants[0][0].edges);
    assert_eq!(4, map.get_cost());
    assert_eq!(4, map.get_cost_2());
}

#[test]
fn test_labeling_same_grid_twice_identical() {
    // labeling is deterministic: two runs over the same grid agree fully
    let input = vec![
        vec!['o', 'o', 'x', 'o'],
        vec!['o', 'x', 'x', 'o'],
        vec!['o', 'o', 'o', 'o'],
    ];
    let mut first = Garden::new(input.clone());
    first.find_neighbours_and_borders();
    let mut second = Garden::new(input);
    second.find_neighbours_and_borders();
    assert_eq!(first, second);
    assert_eq!(first.get_cost(), second.get_cost());
    assert_eq!(first.get_cost_2(), second.get_cost_2());
}

#[test]
fn test_region_sums_even_and_at_least_four() {
    // for each region of a few grids, the perimeter and the side count are
    // even numbers no smaller than four
    let grids = vec![
        vec![vec!['a', 'a', 'a', 'a']],
        vec![
            vec!['a', 'a', 'a', 'a'],
            vec!['b', 'b', 'c', 'd'],
            vec!['b', 'b', 'c', 'c'],
            vec!['e', 'e', 'e', 'c'],
        ],
        vec![
            vec!['x', 'o', 'x'],
            vec!['o', 'o', 'o'],
            vec!['x', 'o', 'x'],
        ],
    ];
    for grid in grids {
        let mut map = Garden::new(grid);
        map.find_neighbours_and_borders();
        let n = map.n_groups.unwrap();
        for gid in 0..n {
            let mut perimeter: u64 = 0;
            let mut corners: u64 = 0;
            for row in &map.plants {
                for p in row {
                    if p.group == Some(gid) {
                        perimeter += p.borders.unwrap() as u64;
                        corners += p.edges.unwrap() as u64;
                    }
                }
            }
            let sides = if corners > 4 { 4 + 2 * (corners - 4) } else { 4 };
            assert!(perimeter >= 4 && perimeter % 2 == 0);
            assert!(sides >= 4 && sides % 2 == 0);
        }
    }
}

#[test]
fn test_build_rejects_malformed_grids() {
    assert_eq!(Err(GridError::MalformedInput), Garden::build(vec![]));
    assert_eq!(Err(GridError::MalformedInput), Garden::build(vec![vec![]]));
    assert_eq!(
        Err(GridError::MalformedInput),
        Garden::build(vec![vec!['a', 'b'], vec!['c']])
    );
    let built = Garden::build(vec![vec!['a', 'b']]).unwrap();
    assert_eq!(built, Garden::new(vec![vec!['a', 'b']]));
}
