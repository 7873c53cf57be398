use cryo::storage::row::{Row, RowType, BASE_LEAF_ROW_SIZE, INTERNAL_ROW_SIZE};

#[test]
fn internal_row_as_bytes() {
    let row = Row::new(0, RowType::Internal);
    let bytes = row.as_bytes();

    assert_eq!(bytes.len(), INTERNAL_ROW_SIZE);
}

#[test]
fn leaf_row_as_bytes() {
    let row = Row::new(0, RowType::Leaf);
    let bytes = row.as_bytes();

    assert_eq!(bytes.len(), BASE_LEAF_ROW_SIZE);
}

#[test]
fn set_id() {
    let mut row = Row::new(0, RowType::Leaf);
    row.set_id(10);
    assert_eq!(row.id(), 10);
}

#[test]
fn set_left_offset() {
    let mut row = Row::new(0, RowType::Internal);
    row.set_left_offset(10);
    assert_eq!(row.left_offset(), 10);
}

#[test]
fn set_right_offset() {
    let mut row = Row::new(0, RowType::Internal);
    row.set_right_offset(10);
    assert_eq!(row.right_offset(), 10);
}

#[test]
fn set_value() {
    let mut row = Row::new(0, RowType::Leaf);
    let expected: Vec<u8> = vec![0, 1, 1, 0, 0, 1, 2, 9];
    row.set_value(expected.as_slice());
    assert_eq!(row.value(), expected)
}

#[test]
fn row_bytes_layout() {
    let mut leaf = Row::new(258, RowType::Leaf);
    leaf.set_value(&[7, 8, 9]);
    assert_eq!(
        leaf.as_bytes(),
        vec![2, 1, 0, 0, 0, 0, 0, 0, 1, 3, 0, 0, 0, 0, 0, 0, 0, 7, 8, 9]
    );
    assert_eq!(leaf.size(), 20);

    let mut internal = Row::new(1, RowType::Internal);
    internal.set_left_offset(2);
    internal.set_right_offset(3);
    assert_eq!(
        internal.as_bytes(),
        vec![1, 0, 0, 0, 0, 0, 0, 0, 0, 2, 0, 0, 0, 0, 0, 0, 0, 3, 0, 0, 0, 0, 0, 0, 0]
    );
    assert_eq!(internal.size(), 25);
}

#[test]
fn row_round_trip_ignores_what_follows() {
    let mut leaf = Row::new(77, RowType::Leaf);
    leaf.set_value(&[1, 2, 3, 4, 5]);
    let mut bytes = leaf.as_bytes();
    bytes.extend_from_slice(&[9, 9, 9]);
    let back = Row::try_from(bytes.as_slice()).unwrap();
    assert_eq!(back.kind(), RowType::Leaf);
    assert_eq!(back.id(), 77);
    assert_eq!(back.value(), vec![1, 2, 3, 4, 5]);

    let mut internal = Row::new(5, RowType::Internal);
    internal.set_left_offset(11);
    internal.set_right_offset(12);
    let back = Row::try_from(internal.as_bytes().as_slice()).unwrap();
    assert_eq!(back.kind(), RowType::Internal);
    assert_eq!((back.id(), back.left_offset(), back.right_offset()), (5, 11, 12));
}

#[test]
fn row_parse_is_strict() {
    assert!(Row::try_from(&[0u8; 16][..]).is_err());
    let mut bytes = Row::new(1, RowType::Leaf).as_bytes();
    bytes[8] = 2;
    assert!(Row::try_from(bytes.as_slice()).is_err());
    let mut bytes = Row::new(1, RowType::Leaf).as_bytes();
    bytes[9] = 1;
    assert!(Row::try_from(bytes.as_slice()).is_err());
    let bytes = Row::new(1, RowType::Internal).as_bytes();
    assert!(Row::try_from(&bytes[..24]).is_err());
}

#[test]
fn rows_compare_by_kind_and_key() {
    let mut a = Row::new(1, RowType::Leaf);
    a.set_value(&[1]);
    assert_eq!(a, Row::new(1, RowType::Leaf));
    assert_ne!(a, Row::new(2, RowType::Leaf));
    assert_ne!(a, Row::new(1, RowType::Internal));
}
