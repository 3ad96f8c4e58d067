use aoc24::reports::{check_safety, check_safety_dampner, check_safety_with_pos, parse_to_check_safety, parse_to_check_safety_with_dampner};

#[test]
fn test_check_safety() {
    assert!(check_safety(vec![7, 6, 4, 2, 1]));
    assert!(!check_safety(vec![1, 2, 7, 8, 9]));
    assert!(!check_safety(vec![9, 7, 6, 2, 1]));
    assert!(!check_safety(vec![1, 3, 2, 4, 5]));
    assert!(!check_safety(vec![8, 6, 4, 4, 1]));
    assert!(check_safety(vec![1, 3, 6, 7, 9]));
    assert!(!check_safety(vec![16, 17, 18, 21, 24, 21]));
}

#[test]
fn test_check_safety_damper() {
    assert!(check_safety_dampner(&[7, 6, 4, 2, 1]));
    assert!(!check_safety_dampner(&[1, 2, 7, 8, 9]));
    assert!(!check_safety_dampner(&[9, 7, 6, 2, 1]));
    assert!(check_safety_dampner(&[1, 3, 2, 4, 5]));
    assert!(check_safety_dampner(&[8, 6, 4, 4, 1]));
    assert!(check_safety_dampner(&[1, 3, 6, 7, 9]));
    assert!(!check_safety_dampner(&[16, 17, 18, 2, 1, 24, 21]));
    assert!(check_safety_dampner(&[12, 10, 13, 16, 19, 21, 22]));
    assert!(check_safety_dampner(&[88, 90, 88, 86, 84, 82, 80]));
}

#[test]
fn test_check_safety_with_pos_finds_first_offense() {
    assert_eq!(-1, check_safety_with_pos(&[1, 2, 3]));
    assert_eq!(2, check_safety_with_pos(&[1, 2, 9]));
    assert_eq!(3, check_safety_with_pos(&[1, 2, 3, 2]));
    assert_eq!(1, check_safety_with_pos(&[5, 5]));
}

#[test]
fn test_parse_safety() {
    assert!(parse_to_check_safety("1 2 3 4 5 6 7 8"));
    assert!(parse_to_check_safety("7 6 4 2 1"));
    assert!(!parse_to_check_safety("9 7 6 2 1"));
}

#[test]
fn test_parse_safety_with_dampner() {
    assert!(parse_to_check_safety_with_dampner("1 3 2 4 5"));
    assert!(!parse_to_check_safety_with_dampner("9 7 6 2 1"));
}
