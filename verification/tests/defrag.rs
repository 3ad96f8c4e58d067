use aoc24::defrag::{Bits, Data};

#[test]
fn test_data_expand() {
    let input = vec![1, 2, 3, 4, 5];
    let mut data = Data::new(input);
    data.expand();
    let expected = [
        Bits::Value(0),
        Bits::Empty,
        Bits::Empty,
        Bits::Value(1),
        Bits::Value(1),
        Bits::Value(1),
        Bits::Empty,
        Bits::Empty,
        Bits::Empty,
        Bits::Empty,
        Bits::Value(2),
        Bits::Value(2),
        Bits::Value(2),
        Bits::Value(2),
        Bits::Value(2),
    ];
    assert_eq!(data.raw, expected);
    assert_eq!(data.non_empty_count, 9);
}

#[test]
fn test_data_reduce_raw() {
    let input = vec![1, 2, 3, 4, 5];
    let mut data = Data::new(input);
    data.expand();
    data.reduce_raw();
    let expected = [
        Bits::Value(0),
        Bits::Value(2),
        Bits::Value(2),
        Bits::Value(1),
        Bits::Value(1),
        Bits::Value(1),
        Bits::Value(2),
        Bits::Value(2),
        Bits::Value(2),
        Bits::Empty,
        Bits::Empty,
        Bits::Empty,
        Bits::Empty,
        Bits::Empty,
        Bits::Empty,
    ];
    assert_eq!(data.raw_reduced, expected);
}

#[test]
fn test_data_get_checksum() {
    let input = vec![1, 2, 3, 4, 5];
    let mut data = Data::new(input);
    data.expand();
    data.reduce_raw();
    let actual = data.get_checksum();
    let expected = 60;
    assert_eq!(actual, expected);
}

#[test]
fn test_d9p2_reports_fixed_value() {
    let data = Data::new(vec![1, 2, 3, 4, 5]);
    assert_eq!(20, data.d9p2());
}
