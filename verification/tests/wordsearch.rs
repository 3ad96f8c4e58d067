use aoc24::wordsearch::{x_mas_search, xmas_search};

#[test]
fn test_xmas_search() {
    let input = "XMAS\nMASX\nASXM\nSXMA\nSAMX";
    let input_matrix: Vec<Vec<char>> = input.lines().map(|l| l.chars().collect()).collect();
    assert_eq!(xmas_search(&input_matrix), 3);
}

#[test]
fn test_x_mas_search() {
    let input = "XMAS\nMASX\nASXM\nSXMA\nSAMX";
    let input_matrix: Vec<Vec<char>> = input.lines().map(|l| l.chars().collect()).collect();
    assert_eq!(x_mas_search(&input_matrix), 0);
}

#[test]
fn test_xmas_search_again() {
    let input = "AMXS\nXMAS\nAMXS";
    let input_matrix: Vec<Vec<char>> = input.lines().map(|l| l.chars().collect()).collect();
    assert_eq!(x_mas_search(&input_matrix), 1);
}

#[test]
fn test_xmas_search_all_directions() {
    // one X in the middle, MAS radiating in all eight directions
    let input = "S..S..S\n.A.A.A.\n..MMM..\nSAMXMAS\n..MMM..\n.A.A.A.\nS..S..S";
    let input_matrix: Vec<Vec<char>> = input.lines().map(|l| l.chars().collect()).collect();
    assert_eq!(xmas_search(&input_matrix), 8);
}
