use aoc24::claw::{Game, Vector};

#[test]
fn test_new_vector() {
    let actual = Vector::new(1, 2);
    let expected = Vector { x: 1, y: 2 };
    assert_eq!(actual, expected);
}

#[test]
fn test_new_game() {
    let a = Vector::new(1, 2);
    let b = Vector::new(3, 4);
    let t = Vector::new(5, 6);
    let det = -2;
    let actual = Game::new(a, b, t);
    let expected = Game { a, b, t, det };
    assert_eq!(actual, expected);
}

#[test]
fn test_is_colinear() {
    let a = Vector::new(1, 2);
    let b = Vector::new(3, 4);
    let t = Vector::new(5, 6);
    let g = Game::new(a, b, t);
    let actual = g.is_colinear();
    let expected = false;
    assert_eq!(actual, expected);

    let a = Vector::new(1, 2);
    let b = Vector::new(2, 4);
    let t = Vector::new(5, 6);
    let g = Game::new(a, b, t);
    let actual = g.is_colinear();
    let expected = true;
    assert_eq!(actual, expected);
}

#[test]
fn test_is_invertible() {
    let a = Vector::new(1, 2);
    let b = Vector::new(3, 4);
    let t = Vector::new(5, 6);
    let g = Game::new(a, b, t);
    let actual = g.is_invertible();
    let expected = false;
    assert_eq!(actual, expected);

    let a = Vector::new(1, 2);
    let b = Vector::new(3, 4);
    let t = Vector::new(4, 6);
    let g = Game::new(a, b, t);
    let actual = g.is_invertible();
    let expected = true;
    assert_eq!(actual, expected);
}

#[test]
fn test_get_opt_cost() {
    let a = Vector::new(94, 34);
    let b = Vector::new(22, 67);
    let t = Vector::new(8400, 5400);
    let g = Game::new(a, b, t);
    let actual = g.get_opt_cost();
    let expected = 280;
    assert_eq!(actual, expected);

    let a = Vector::new(26, 66);
    let b = Vector::new(67, 21);
    let t = Vector::new(12748, 12176);
    let g = Game::new(a, b, t);
    let actual = g.get_opt_cost();
    let expected = 0;
    assert_eq!(actual, expected);
}

#[test]
fn test_get_opt_cost_far_target() {
    // the same two winnable reference games, with the far-away targets
    let g = Game::new(
        Vector::new(94, 34),
        Vector::new(22, 67),
        Vector::new(8400 + 10000000000000, 5400 + 10000000000000),
    );
    assert_eq!(0, g.get_opt_cost());
    let g = Game::new(
        Vector::new(26, 66),
        Vector::new(67, 21),
        Vector::new(12748 + 10000000000000, 12176 + 10000000000000),
    );
    assert_eq!(459236326669, g.get_opt_cost());
}
