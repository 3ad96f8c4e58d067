use aoc24::calibration::{
    check_equation_set, get_all_equations, get_operator_combos,
    get_total_sum_of_valid_equations, Equation, Operators,
};

#[test]
fn test_equation_check_valid() {
    let invalid_operators = vec![Operators::Addition, Operators::Multiplication];
    let valid_operators = vec![Operators::Multiplication, Operators::Addition];

    let valid_equation = Equation::new(100, vec![10, 10, 0], valid_operators);
    let invalid_equation = Equation::new(100, vec![10, 10, 0], invalid_operators);
    assert!(valid_equation.check_valid());
    assert!(!invalid_equation.check_valid());
}

#[test]
fn test_get_all_equations() {
    let all_ops = vec![Operators::Addition, Operators::Multiplication];
    let equations = get_all_equations(100, vec![1, 2, 3], &all_ops);

    assert_eq!(
        vec![
            Equation::new(
                100,
                vec![1, 2, 3],
                vec![Operators::Addition, Operators::Addition]
            ),
            Equation::new(
                100,
                vec![1, 2, 3],
                vec![Operators::Addition, Operators::Multiplication]
            ),
            Equation::new(
                100,
                vec![1, 2, 3],
                vec![Operators::Multiplication, Operators::Addition]
            ),
            Equation::new(
                100,
                vec![1, 2, 3],
                vec![Operators::Multiplication, Operators::Multiplication]
            ),
        ],
        equations
    );
}

#[test]
fn test_check_equation_set_zero() {
    let all_ops = vec![Operators::Addition, Operators::Multiplication];
    let equation_set = get_all_equations(100, vec![1, 2, 3], &all_ops);

    let check = check_equation_set(equation_set);
    assert!(!check)
}

#[test]
fn test_check_equation_set_first() {
    let all_ops = vec![Operators::Addition, Operators::Multiplication];
    let equation_set = get_all_equations(3267, vec![81, 40, 27], &all_ops);
    let check = check_equation_set(equation_set);
    assert!(check)
}

#[test]
fn test_total_sum_of_valid_equations_zero() {
    let all_ops = vec![Operators::Addition, Operators::Multiplication];
    let equations = get_all_equations(100, vec![1, 2, 3], &all_ops);
    let sum = get_total_sum_of_valid_equations(vec![equations]);
    assert_eq!(0, sum);
}

#[test]
fn test_total_sum_of_valid_equations_base() {
    let all_ops = vec![Operators::Addition, Operators::Multiplication];
    let equations = get_all_equations(190, vec![10, 19], &all_ops);
    let sum = get_total_sum_of_valid_equations(vec![equations]);
    assert_eq!(190, sum);
}

#[test]
fn test_total_sum_of_valid_equations_multi() {
    let all_ops = vec![Operators::Addition, Operators::Multiplication];
    let equations = get_all_equations(190, vec![10, 19], &all_ops);
    let equations_second = get_all_equations(3267, vec![81, 40, 27], &all_ops);
    let sum = get_total_sum_of_valid_equations(vec![equations, equations_second]);
    assert_eq!(190 + 3267, sum);
}

#[test]
fn test_get_operator_combos_empty() {
    let empty: Vec<Vec<Operators>> = Vec::new();
    let option: &[Operators] = &[Operators::Addition, Operators::Multiplication];
    let actual = get_operator_combos(empty, option);
    let expected = vec![vec![Operators::Addition], vec![Operators::Multiplication]];

    assert_eq!(expected, actual);
}

#[test]
fn test_get_operator_combos_base() {
    let base: Vec<Vec<Operators>> = vec![vec![Operators::Addition]];
    let option: &[Operators] = &[Operators::Addition, Operators::Multiplication];
    let actual = get_operator_combos(base, option);
    let expected = vec![
        vec![Operators::Addition, Operators::Addition],
        vec![Operators::Addition, Operators::Multiplication],
    ];

    assert_eq!(expected, actual);
}

#[test]
fn test_operator_to_char() {
    assert_eq!('+', Operators::Addition.to_char());
    assert_eq!('*', Operators::Multiplication.to_char());
}
