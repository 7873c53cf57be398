use cryo::statement::{print_row, printable};
use cryo::storage::row::{Row, RowType};
use cryo::utilities::{byte_to_char, char_to_byte};
use cryo::Statement;

#[test]
fn insert_statement_to_row() {
    let username = vec!['a'];
    let email = vec!['b'];
    let stmt = Statement::Insert { id: 1, username: username.clone(), email: email.clone() };

    let row: Row = stmt.into();
    let value = row.value();
    let characters = byte_to_char(value.as_ref()).unwrap();
    let mut value = characters.split(|c| *c == '\0');
    let returned_username = value.next().unwrap().iter().map(|c| *c).collect::<Vec<char>>();
    let returned_email = value.next().unwrap().iter().map(|c| *c).collect::<Vec<char>>();
    assert_eq!(row.id(), 1);
    assert_eq!(returned_username, username);
    assert_eq!(returned_email, email);
}

#[test]
fn update_statement_to_row() {
    let username = vec!['a'];
    let email = vec!['b'];
    let stmt = Statement::Update { id: 1, username: username.clone(), email: email.clone() };

    let row: Row = stmt.into();
    let value = row.value();
    let characters = byte_to_char(value.as_ref()).unwrap();
    let mut value = characters.split(|c| *c == '\0');
    let returned_username = value.next().unwrap().iter().map(|c| *c).collect::<Vec<char>>();
    let returned_email = value.next().unwrap().iter().map(|c| *c).collect::<Vec<char>>();
    assert_eq!(row.id(), 1);
    assert_eq!(returned_username, username);
    assert_eq!(returned_email, email);
}

#[test]
fn select_statement_to_row() {
    let stmt = Statement::Select;
    let row: Row = stmt.into();
    assert_eq!(row.id(), 0);
}

#[test]
fn delete_statement_to_row() {
    let stmt = Statement::Delete { id: 1 };
    let row: Row = stmt.into();
    assert_eq!(row.id(), 1)
}

#[test]
fn statement_row_value_layout() {
    let stmt = Statement::Insert { id: 9, username: vec!['a', '\u{e9}'], email: vec!['\u{20ac}'] };
    let row: Row = stmt.into();
    assert_eq!(row.kind(), RowType::Leaf);
    assert_eq!(
        row.value(),
        vec![b'a', 0, 0, 0, 0xc3, 0xa9, 0, 0, 0, 0, 0, 0, 0xe2, 0x82, 0xac, 0]
    );
}

#[test]
fn characters_take_cells_of_four_bytes() {
    assert_eq!(char_to_byte(&[]), Vec::<u8>::new());
    assert_eq!(char_to_byte(&['a']), vec![b'a', 0, 0, 0]);
    assert_eq!(char_to_byte(&['\u{1f600}', 'z']), vec![0xf0, 0x9f, 0x98, 0x80, b'z', 0, 0, 0]);
}

#[test]
fn cells_are_read_back() {
    let chars = vec!['h', '\u{e9}', '\u{20ac}', '\u{1f600}', '\0', 'x'];
    assert_eq!(byte_to_char(&char_to_byte(&chars)).unwrap(), chars);
    assert_eq!(byte_to_char(&[b'a', 0, 0, 0, b'b']).unwrap(), vec!['a', 'b']);
    assert_eq!(
        byte_to_char(&[0xff, 0, 0, 0]).unwrap_err(),
        "failed to convert byte into character"
    );
    assert_eq!(
        byte_to_char(&[b'a', 0, 0, 0, 0xc3]).unwrap_err(),
        "failed to convert byte into character"
    );
}

#[test]
fn rows_are_printed_as_lines() {
    let stmt = Statement::Insert {
        id: 120,
        username: vec!['b', 'o', 'b'],
        email: vec!['b', '@', 'x'],
    };
    let row: Row = stmt.into();
    assert!(printable(&row));
    assert_eq!(print_row(&row), "120,bob,b@x");

    let empty = Row::new(0, RowType::Leaf);
    assert!(printable(&empty));
    assert_eq!(print_row(&empty), "0,,");

    let mut broken = Row::new(1, RowType::Leaf);
    broken.set_value(&[0xff]);
    assert!(!printable(&broken));
    assert!(!printable(&Row::new(1, RowType::Internal)));
}
