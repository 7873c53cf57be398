use cryo::storage::page::{
    Page, PageType, HAS_PARENT, IS_ROOT, PAGE_HEADER_SIZE, PAGE_SIZE, ROW_SPACE,
};
use cryo::storage::row::{Row, RowType, BASE_LEAF_ROW_SIZE, INTERNAL_ROW_SIZE};
use cryo::storage::{PageError, StorageError};
use cryo::utilities::{char_to_byte, USERNAME_MAX_LENGTH};

fn padded(text: &[char], len: usize) -> Vec<char> {
    let mut out = text.to_vec();
    while out.len() < len {
        out.push('\0');
    }
    out
}

fn pointer(id: usize, left: usize, right: usize) -> Row {
    let mut row = Row::new(id, RowType::Internal);
    row.set_left_offset(left);
    row.set_right_offset(right);
    row
}

#[test]
fn leaf_to_bytes() {
    let page = Page::new(PageType::Leaf, None, vec![], 0);
    let bytes: [u8; PAGE_SIZE] = page.as_bytes();

    let page: Page = bytes.try_into().unwrap();
    assert_eq!(page.offset, 0);
    assert_eq!(page.size, 0);
    assert_eq!(page.parent, None);
    assert_eq!(page._type, PageType::Leaf);
    assert_eq!(page.rows, vec![])
}

#[test]
fn internal_to_bytes() {
    let page = Page::new(PageType::Internal, None, vec![], 0);
    let bytes: [u8; PAGE_SIZE] = page.as_bytes();

    let page: Page = bytes.try_into().unwrap();
    assert_eq!(page.offset, 0);
    assert_eq!(page.size, 0);
    assert_eq!(page.parent, None);
    assert_eq!(page._type, PageType::Internal);
    assert_eq!(page.rows, vec![])
}

#[test]
fn leaf_insert_row() {
    let mut page = Page::new(PageType::Leaf, None, vec![], 0);
    let row = Row::new(1, RowType::Leaf);
    page.insert(row.clone()).unwrap();
    assert_eq!(page.size, BASE_LEAF_ROW_SIZE);
    assert_eq!(page.rows, vec![row])
}

#[test]
fn leaf_update_row() {
    let mut page = Page::new(PageType::Leaf, None, vec![], 0);
    let mut row = Row::new(1, RowType::Leaf);
    let initial = vec!['t', 'e', 's', 't'];
    row.set_value(char_to_byte(&padded(&initial, USERNAME_MAX_LENGTH)).as_slice());
    page.insert(row).unwrap();

    let mut row = Row::new(1, RowType::Leaf);
    let expected = vec!['c', 'h', 'a', 'n', 'g', 'e', 'd'];
    let expected = char_to_byte(&padded(&expected, USERNAME_MAX_LENGTH));

    row.set_value(expected.as_slice());
    page.update(row.clone()).unwrap();
    assert_eq!(page.rows, vec![row]);
    assert_eq!(page.rows[0].value(), expected);
}

#[test]
fn leaf_delete_row() {
    let mut page = Page::new(PageType::Leaf, None, vec![], 0);
    let mut row = Row::new(1, RowType::Leaf);
    let initial = vec!['t', 'e', 's', 't'];
    row.set_value(char_to_byte(&padded(&initial, USERNAME_MAX_LENGTH)).as_slice());
    page.insert(row).unwrap();

    let row = Row::new(1, RowType::Leaf);
    page.delete(row).unwrap();

    assert_eq!(page.rows, vec![]);
    assert_eq!(page.size, 0);
}

#[test]
fn internal_insert_cell() {
    let mut page = Page::new(PageType::Internal, None, vec![], 0);
    let row = Row::new(1, RowType::Internal);
    page.insert(row).unwrap();
    assert_eq!(page.size, INTERNAL_ROW_SIZE);
}

#[test]
fn leaf_select() {
    let mut page = Page::new(PageType::Leaf, None, vec![], 0);
    let row = Row::new(1, RowType::Leaf);
    page.insert(row.clone()).unwrap();
    assert_eq!(page.select(), vec![row]);
}

#[test]
#[should_panic(expected = "Duplicate")]
fn insert_duplicate() {
    let mut page = Page::new(PageType::Leaf, None, vec![], 0);
    let row = Row::new(1, RowType::Leaf);
    page.insert(row.clone()).unwrap();
    page.insert(row).unwrap();
}

#[test]
#[should_panic(expected = "MissingKey")]
fn delete_non_existent() {
    let mut page = Page::new(PageType::Leaf, None, vec![], 0);
    let row = Row::new(1, RowType::Leaf);
    page.delete(row).unwrap();
}

#[test]
#[should_panic(expected = "MissingKey")]
fn update_non_existent() {
    let mut page = Page::new(PageType::Leaf, None, vec![], 0);
    let row = Row::new(1, RowType::Leaf);
    page.update(row).unwrap();
}

#[test]
fn page_constants_add_up() {
    assert_eq!(PAGE_SIZE, 4096);
    assert_eq!(PAGE_HEADER_SIZE, 18);
    assert_eq!(ROW_SPACE, PAGE_SIZE - PAGE_HEADER_SIZE);
}

#[test]
fn page_insert_keeps_key_order() {
    let mut page = Page::new(PageType::Leaf, None, vec![], 0);
    for id in [5usize, 1, 9, 3, 7] {
        page.insert(Row::new(id, RowType::Leaf)).unwrap();
    }
    let ids: Vec<usize> = page.select().iter().map(|r| r.id()).collect();
    assert_eq!(ids, vec![1, 3, 5, 7, 9]);
    assert_eq!(page.size, 5 * BASE_LEAF_ROW_SIZE);
}

#[test]
fn page_insert_reports_full_and_stays() {
    let mut page = Page::new(PageType::Leaf, None, vec![], 0);
    let mut row = Row::new(1, RowType::Leaf);
    row.set_value(&vec![7u8; ROW_SPACE - BASE_LEAF_ROW_SIZE]);
    page.insert(row).unwrap();
    assert_eq!(page.size, ROW_SPACE);

    let result = page.insert(Row::new(2, RowType::Leaf));
    assert_eq!(result, Err(StorageError::Page { cause: PageError::Full }));
    assert_eq!(page.rows.len(), 1);
    assert_eq!(page.size, ROW_SPACE);
}

#[test]
fn page_insert_finds_duplicate_before_full() {
    let mut page = Page::new(PageType::Leaf, None, vec![], 0);
    let mut row = Row::new(1, RowType::Leaf);
    row.set_value(&vec![7u8; ROW_SPACE - BASE_LEAF_ROW_SIZE]);
    page.insert(row.clone()).unwrap();
    assert_eq!(page.insert(row), Err(StorageError::Page { cause: PageError::Duplicate }));
}

#[test]
fn page_update_returns_old_row_and_counts_bytes() {
    let mut page = Page::new(PageType::Leaf, None, vec![], 0);
    let mut row = Row::new(4, RowType::Leaf);
    row.set_value(&[1, 2, 3]);
    page.insert(row).unwrap();
    assert_eq!(page.size, BASE_LEAF_ROW_SIZE + 3);

    let mut new = Row::new(4, RowType::Leaf);
    new.set_value(&[9; 10]);
    let old = page.update(new).unwrap();
    assert_eq!(old.value(), vec![1, 2, 3]);
    assert_eq!(page.size, BASE_LEAF_ROW_SIZE + 10);
    assert_eq!(page.rows[0].value(), vec![9; 10]);
}

#[test]
fn page_update_reports_full_and_stays() {
    let mut page = Page::new(PageType::Leaf, None, vec![], 0);
    page.insert(Row::new(1, RowType::Leaf)).unwrap();
    let mut big = Row::new(1, RowType::Leaf);
    big.set_value(&vec![0u8; ROW_SPACE]);
    assert_eq!(page.update(big), Err(StorageError::Page { cause: PageError::Full }));
    assert_eq!(page.rows[0].value(), Vec::<u8>::new());
    assert_eq!(page.size, BASE_LEAF_ROW_SIZE);
}

#[test]
fn internal_insert_relinks_neighbours() {
    let mut page = Page::new(PageType::Internal, None, vec![], 0);
    page.insert(pointer(10, 2, 3)).unwrap();
    page.insert(pointer(30, 3, 4)).unwrap();
    page.insert(pointer(20, 3, 9)).unwrap();

    let rows = page.select();
    assert_eq!(rows.iter().map(|r| r.id()).collect::<Vec<usize>>(), vec![10, 20, 30]);
    assert_eq!((rows[0].left_offset(), rows[0].right_offset()), (2, 3));
    assert_eq!((rows[1].left_offset(), rows[1].right_offset()), (3, 9));
    assert_eq!((rows[2].left_offset(), rows[2].right_offset()), (9, 4));
    for i in 0..rows.len() - 1 {
        assert_eq!(rows[i].right_offset(), rows[i + 1].left_offset());
    }
}

#[test]
fn page_bytes_layout() {
    let mut page = Page::new(PageType::Internal, Some(7), vec![], 0);
    page.insert(pointer(5, 2, 3)).unwrap();
    let bytes = page.as_bytes();
    assert_eq!(bytes.len(), PAGE_SIZE);
    assert_eq!(bytes[0], 1);
    assert_eq!(bytes[1], HAS_PARENT);
    assert_eq!(&bytes[2..10], &[7, 0, 0, 0, 0, 0, 0, 0]);
    assert_eq!(&bytes[10..18], &[1, 0, 0, 0, 0, 0, 0, 0]);
    assert_eq!(&bytes[18..26], &[5, 0, 0, 0, 0, 0, 0, 0]);
    assert_eq!(bytes[26], 0);
    assert_eq!(&bytes[27..35], &[2, 0, 0, 0, 0, 0, 0, 0]);
    assert_eq!(&bytes[35..43], &[3, 0, 0, 0, 0, 0, 0, 0]);
    assert!(bytes[43..].iter().all(|b| *b == 0));

    let root = Page::new(PageType::Leaf, None, vec![], 0).as_bytes();
    assert_eq!(root[0], 0);
    assert_eq!(root[1], IS_ROOT);
}

#[test]
fn page_round_trip_with_rows() {
    let mut page = Page::new(PageType::Leaf, Some(3), vec![], 0);
    for id in 1..=20usize {
        let mut row = Row::new(id, RowType::Leaf);
        row.set_value(&vec![id as u8; id]);
        page.insert(row).unwrap();
    }
    let back = Page::try_from(page.as_bytes()).unwrap();
    assert_eq!(page.encode(), page.as_bytes().to_vec());
    assert_eq!(back._type, PageType::Leaf);
    assert_eq!(back.parent, Some(3));
    assert_eq!(back.size, page.size);
    assert_eq!(back.rows.len(), 20);
    for (a, b) in back.rows.iter().zip(page.rows.iter()) {
        assert_eq!(a.id(), b.id());
        assert_eq!(a.value(), b.value());
    }
}

#[test]
fn page_parse_is_strict() {
    let corrupt = Err(StorageError::Page { cause: PageError::Corrupt });
    assert_eq!(Page::try_from(&[0u8; 10][..]).map(|p| p.size), corrupt);

    let mut bytes = Page::new(PageType::Leaf, None, vec![], 0).as_bytes();
    bytes[0] = 9;
    assert_eq!(Page::try_from(bytes.as_slice()).map(|p| p.size), corrupt);

    let mut bytes = Page::new(PageType::Leaf, None, vec![], 0).as_bytes();
    bytes[10] = 1;
    bytes[18 + 8] = 7;
    assert_eq!(Page::try_from(bytes.as_slice()).map(|p| p.size), corrupt);

    let unsorted = Page::new(
        PageType::Leaf,
        None,
        vec![Row::new(2, RowType::Leaf), Row::new(1, RowType::Leaf)],
        0,
    );
    assert_eq!(Page::try_from(unsorted.as_bytes().as_slice()).map(|p| p.size), corrupt);

    let mixed = Page::new(PageType::Leaf, None, vec![Row::new(2, RowType::Internal)], 0);
    assert_eq!(Page::try_from(mixed.as_bytes().as_slice()).map(|p| p.size), corrupt);
}

#[test]
fn zero_page_is_an_empty_leaf() {
    let page = Page::try_from(&[0u8; PAGE_SIZE][..]).unwrap();
    assert_eq!(page._type, PageType::Leaf);
    assert_eq!(page.parent, Some(0));
    assert_eq!(page.rows.len(), 0);
}
