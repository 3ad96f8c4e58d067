use aoc24::stones::{blink_stones_n, Line, Stone, StoneMemo};

#[test]
fn test_stone_blink() {
    let input_zero = Stone(0);
    let input_even = Stone(9999);
    let input_even_zeros = Stone(10);
    let input_else = Stone(5);

    let expected_zero = vec![Stone(1)];
    let expected_even = vec![Stone(99), Stone(99)];
    let expected_even_zeros = vec![Stone(1), Stone(0)];
    let expected_else = vec![Stone(10120)];

    assert_eq!(expected_zero, input_zero.blink());
    assert_eq!(expected_even, input_even.blink());
    assert_eq!(expected_even_zeros, input_even_zeros.blink());
    assert_eq!(expected_else, input_else.blink());
}

#[test]
fn test_blink_n() {
    let mut memo = StoneMemo::new();
    let actual = blink_stones_n(vec![Stone(125), Stone(17)], 6, &mut memo);
    let expected = vec![
        Stone(2097446912),
        Stone(14168),
        Stone(4048),
        Stone(2),
        Stone(0),
        Stone(2),
        Stone(4),
        Stone(40),
        Stone(48),
        Stone(2024),
        Stone(40),
        Stone(48),
        Stone(80),
        Stone(96),
        Stone(2),
        Stone(8),
        Stone(6),
        Stone(7),
        Stone(6),
        Stone(0),
        Stone(3),
        Stone(2),
    ];
    assert_eq!(expected.len() as u64, actual);
}

#[test]
fn test_is_even_digits() {
    let input_zero = Stone(0);
    let input_even = Stone(9999);
    let input_even_zeros = Stone(10);
    let input_else = Stone(5);

    let expected_zero = false;
    let expected_even = true;
    let expected_even_zeros = true;
    let expected_else = false;

    assert_eq!(expected_zero, input_zero.is_even_digits());
    assert_eq!(expected_even, input_even.is_even_digits());
    assert_eq!(expected_even_zeros, input_even_zeros.is_even_digits());
    assert_eq!(expected_else, input_else.is_even_digits());
}

#[test]
fn test_stone_split() {
    let input_even = Stone(9999);
    let input_even_zeros = Stone(10);
    let input_even_unsym = Stone(1599);

    let expected_even = vec![Stone(99), Stone(99)];
    let expected_even_zeros = vec![Stone(1), Stone(0)];
    let expected_even_unsym = vec![Stone(15), Stone(99)];

    assert_eq!(expected_even, input_even.split());
    assert_eq!(expected_even_zeros, input_even_zeros.split());
    assert_eq!(expected_even_unsym, input_even_unsym.split());
}

#[test]
fn test_line_new() {
    let input = vec![1, 2, 3, 4];
    let expected = Line {
        line: vec![Stone(1), Stone(2), Stone(3), Stone(4)],
        memo: StoneMemo::new(),
    };

    let actual = Line::new(input);

    assert_eq!(expected, actual);
}

#[test]
fn test_blink_n_memo_consistent() {
    // the memo never changes an answer: with and without a warm memo the
    // counts agree, and zero blinks always count one stone
    let mut memo = StoneMemo::new();
    let warm = blink_stones_n(vec![Stone(125), Stone(17)], 6, &mut memo);
    let again = blink_stones_n(vec![Stone(125), Stone(17)], 6, &mut memo);
    assert_eq!(warm, again);
    let mut fresh = StoneMemo::new();
    assert_eq!(2, blink_stones_n(vec![Stone(125), Stone(17)], 0, &mut fresh));
}
