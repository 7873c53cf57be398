use cryo::storage::btree::BTree;
use cryo::storage::page::{Page, PageType};
use cryo::storage::pager::Pager;
use cryo::storage::row::{Row, RowType};
use cryo::storage::{EngineAction, PageError, StorageEngine, StorageError};
use cryo::utilities::char_to_byte;
use cryo::{Command, Statement};

fn fresh() -> Pager {
    Pager::open(Vec::new()).unwrap()
}

fn ids(rows: &[Row]) -> Vec<usize> {
    rows.iter().map(|r| r.id()).collect()
}

fn filled_leaf(parent: Option<usize>, from: usize, to: usize) -> Page {
    let mut page = Page::new(PageType::Leaf, parent, vec![], 0);
    for i in from..to {
        let row = Row::new(i, RowType::Leaf);
        if let Err(StorageError::Page { cause: PageError::Full }) = page.insert(row) {
            break;
        }
    }
    page
}

#[test]
fn btree_new_empty() {
    let pager = fresh();
    let tree = BTree::new(pager);

    assert_eq!(tree.current(), 1);
}

#[test]
fn btree_new_existing_tree() {
    let mut pager = fresh();

    let left = pager.allocate().unwrap();
    let right = pager.allocate().unwrap();
    let root = pager.allocate().unwrap();

    let mut page = Page::new(PageType::Leaf, Some(root), vec![], 0);
    pager.write(left, &page).unwrap();
    page = Page::new(PageType::Leaf, Some(root), vec![], 0);
    pager.write(right, &page).unwrap();
    page = Page::new(PageType::Internal, None, vec![], 0);
    pager.write(root, &page).unwrap();
    pager.set_root(root).unwrap();

    let tree = BTree::new(pager);
    assert_eq!(tree.current(), root);
}

#[test]
fn btree_insert_empty() {
    let mut tree = BTree::new(fresh());

    let row = Row::new(1, RowType::Leaf);
    tree.insert(row).unwrap();
}

#[test]
fn btree_insert_multilevel() {
    let mut pager = fresh();

    let left = pager.allocate().unwrap();
    let right = pager.allocate().unwrap();
    let root = pager.allocate().unwrap();

    let mut page = Page::new(PageType::Leaf, Some(root), vec![], 0);
    pager.write(left, &page).unwrap();
    page = Page::new(PageType::Leaf, Some(root), vec![], 0);
    pager.write(right, &page).unwrap();

    let mut row = Row::new(4, RowType::Internal);
    row.set_left_offset(left);
    row.set_right_offset(right);
    page = Page::new(PageType::Internal, None, vec![row], 0);
    pager.write(root, &page).unwrap();

    let mut tree = BTree::new(pager);
    let insert = Row::new(1, RowType::Leaf);
    tree.insert(insert).unwrap();
}

#[test]
fn btree_insert_split() {
    let mut pager = fresh();

    let page = filled_leaf(None, 1, 1000);
    let root = pager.allocate().unwrap();
    pager.write(root, &page).unwrap();

    let mut tree = BTree::new(pager);
    let row = Row::new(1001, RowType::Leaf);
    tree.insert(row).unwrap();

    let row = Row::new(0, RowType::Leaf);
    tree.insert(row).unwrap();
}

#[test]
fn btree_insert_split_child() {
    let mut pager = fresh();
    let root = pager.allocate().unwrap();

    let mut page = filled_leaf(Some(root), 1, 1000);
    let left = pager.allocate().unwrap();
    pager.write(left, &page).unwrap();

    page = filled_leaf(Some(root), 1000, 2000);
    let right = pager.allocate().unwrap();
    pager.write(right, &page).unwrap();

    let mut pointer = Row::new(1000, RowType::Internal);
    pointer.set_left_offset(left);
    pointer.set_right_offset(right);
    let size = pointer.as_bytes().len();
    page = Page::new(PageType::Internal, None, vec![pointer], size);
    pager.write(root, &page).unwrap();

    let mut tree = BTree::new(pager);
    let row = Row::new(2001, RowType::Leaf);
    tree.insert(row).unwrap();

    let row = Row::new(0, RowType::Leaf);
    tree.insert(row).unwrap();
}

#[test]
fn btree_select() {
    let mut tree = BTree::new(fresh());
    let mut expected = Vec::new();

    for i in 1..10 {
        let row = Row::new(i, RowType::Leaf);
        expected.push(row.clone());
        tree.insert(row).unwrap();
    }

    assert_eq!(tree.select().unwrap(), expected);
}

#[test]
fn btree_ordering() {
    let mut tree = BTree::new(fresh());
    let mut expected = std::collections::VecDeque::new();

    for i in 10..0 {
        let row = Row::new(i, RowType::Leaf);
        expected.push_front(row.clone());
        tree.insert(row).unwrap();
    }

    assert_eq!(tree.select().unwrap(), expected.into_iter().collect::<Vec<Row>>());
}

#[test]
fn btree_update() {
    let mut tree = BTree::new(fresh());

    let mut row = Row::new(1, RowType::Leaf);
    tree.insert(row.clone()).unwrap();

    let username = char_to_byte(vec!['t', 'e', 's', 't'].as_ref());
    row.set_value(&username);
    let old = tree.update(row.clone()).unwrap();

    assert_eq!(tree.select().unwrap(), vec![row]);
    assert_eq!(old.value(), vec![]);
}

#[test]
fn btree_select_empty() {
    let mut tree = BTree::new(fresh());

    assert_eq!(tree.select().unwrap(), vec![]);
}

#[test]
fn btree_delete() {
    let mut tree = BTree::new(fresh());
    let row = Row::new(1, RowType::Leaf);
    tree.insert(row.clone()).unwrap();
    tree.delete(row).unwrap();

    assert_eq!(tree.select().unwrap(), vec![])
}

#[test]
fn btree_delete_merge() {
    let mut pager = fresh();
    let left = pager.allocate().unwrap();
    let right = pager.allocate().unwrap();
    let root = pager.allocate().unwrap();

    let mut page = Page::new(PageType::Leaf, Some(root), vec![], 0);
    pager.write(left, &page).unwrap();
    page = Page::new(PageType::Leaf, Some(root), vec![], 0);
    pager.write(right, &page).unwrap();

    let mut row = Row::new(4, RowType::Internal);
    row.set_left_offset(left);
    row.set_right_offset(right);
    page = Page::new(PageType::Internal, None, vec![row], 0);
    pager.write(root, &page).unwrap();

    let mut tree = BTree::new(pager);
    let insert = Row::new(1, RowType::Leaf);
    tree.insert(insert).unwrap();
    let insert = Row::new(2, RowType::Leaf);
    tree.insert(insert.clone()).unwrap();

    tree.delete(insert).unwrap();
}

#[test]
fn btree_structure_single_node() {
    let mut tree = BTree::new(fresh());

    assert_eq!(
        tree.structure().unwrap(),
        String::from("digraph {\n    edge [style=\"dashed\"]\n   1 -> 1\n}")
    );
}

#[test]
fn btree_structure_multi_nodes() {
    let mut pager = fresh();
    let left = pager.allocate().unwrap();
    let right = pager.allocate().unwrap();
    let root = pager.allocate().unwrap();
    pager.set_root(root).unwrap();

    let mut page = Page::new(PageType::Leaf, Some(root), vec![], 0);
    pager.write(left, &page).unwrap();
    page = Page::new(PageType::Leaf, Some(root), vec![], 0);
    pager.write(right, &page).unwrap();

    let mut row = Row::new(4, RowType::Internal);
    row.set_left_offset(left);
    row.set_right_offset(right);
    page = Page::new(PageType::Internal, None, vec![row], 0);
    pager.write(root, &page).unwrap();

    let mut tree = BTree::new(pager);

    assert_eq!(
        tree.structure().unwrap(),
        String::from(
            "digraph {\n    4 -> P4;\n    P4 -> 2;\n    P4 -> 3;\n    edge [style=\"dashed\"]\n   2 -> 4\n    edge [style=\"dashed\"]\n   3 -> 4\n}"
        )
    );
}

fn pointer(id: usize, left: usize, right: usize) -> Row {
    let mut row = Row::new(id, RowType::Internal);
    row.set_left_offset(left);
    row.set_right_offset(right);
    row
}

fn page_of(kind: PageType, parent: Option<usize>, rows: Vec<Row>) -> Page {
    let size = rows.iter().map(|r| r.size()).sum();
    Page::new(kind, parent, rows, size)
}

fn leaf_of(parent: usize, keys: &[usize]) -> Page {
    page_of(PageType::Leaf, Some(parent), keys.iter().map(|k| Row::new(*k, RowType::Leaf)).collect())
}

fn three_levels() -> BTree {
    let mut pager = fresh();
    let mut page_ids = Vec::new();
    for _ in 0..7 {
        page_ids.push(pager.allocate().unwrap());
    }
    assert_eq!(page_ids, vec![2, 3, 4, 5, 6, 7, 8]);
    pager.set_root(8).unwrap();
    pager.write(2, &leaf_of(6, &[10])).unwrap();
    pager.write(3, &leaf_of(6, &[20, 30])).unwrap();
    pager.write(4, &leaf_of(7, &[50, 60])).unwrap();
    pager.write(5, &leaf_of(7, &[70, 80])).unwrap();
    pager.write(6, &page_of(PageType::Internal, Some(8), vec![pointer(20, 2, 3)])).unwrap();
    pager.write(7, &page_of(PageType::Internal, Some(8), vec![pointer(70, 4, 5)])).unwrap();
    pager.write(8, &page_of(PageType::Internal, None, vec![pointer(50, 6, 7)])).unwrap();
    BTree::new(pager)
}

#[test]
fn btree_structure_goes_level_by_level() {
    let mut tree = three_levels();
    let mut expected = String::from("digraph {\n");
    expected += "    8 -> P50;\n    P50 -> 6;\n    P50 -> 7;\n";
    expected += "    6 -> P20;\n    P20 -> 2;\n    P20 -> 3;\n";
    expected += "    7 -> P70;\n    P70 -> 4;\n    P70 -> 5;\n";
    expected += "    edge [style=\"dashed\"]\n   2 -> 6\n";
    expected += "    edge [style=\"dashed\"]\n   3 -> 6\n";
    expected += "    edge [style=\"dashed\"]\n   4 -> 7\n";
    expected += "    edge [style=\"dashed\"]\n   5 -> 7\n";
    expected += "}";
    assert_eq!(tree.structure().unwrap(), expected);
}

#[test]
fn btree_three_levels_select_and_change_in_place() {
    let mut tree = three_levels();
    assert_eq!(ids(&tree.select().unwrap()), vec![10, 20, 30, 50, 60, 70, 80]);
    assert_eq!(tree.select_one(Row::new(60, RowType::Leaf)).map(|r| r.id()), Ok(60));
    assert_eq!(
        tree.select_one(Row::new(65, RowType::Leaf)),
        Err(StorageError::Page { cause: PageError::MissingKey })
    );

    tree.insert(Row::new(55, RowType::Leaf)).unwrap();
    let mut changed = Row::new(20, RowType::Leaf);
    changed.set_value(&[7, 7]);
    tree.update(changed).unwrap();
    let rows = tree.select().unwrap();
    assert_eq!(ids(&rows), vec![10, 20, 30, 50, 55, 60, 70, 80]);
    assert_eq!(rows[1].value(), vec![7, 7]);
    assert_eq!(rows[0].value(), Vec::<u8>::new());
    assert_eq!(rows[4].value(), Vec::<u8>::new());
}

#[test]
fn btree_insert_into_empty_tree_keeps_a_single_leaf() {
    let mut tree = BTree::new(fresh());
    tree.insert(Row::new(7, RowType::Leaf)).unwrap();
    let mut pager = tree.into_pager();
    assert_eq!(pager.root(), 1);
    assert_eq!(pager.metadata().pages, 2);
    let root = pager.read(1).unwrap();
    assert_eq!(root._type, PageType::Leaf);
    assert_eq!(ids(&root.rows), vec![7]);
}

#[test]
fn btree_duplicate_insert_is_refused_and_changes_nothing() {
    let mut tree = BTree::new(fresh());
    for i in [3usize, 1, 2] {
        tree.insert(Row::new(i, RowType::Leaf)).unwrap();
    }
    let mut twice = Row::new(2, RowType::Leaf);
    twice.set_value(&[1, 2, 3]);
    assert_eq!(
        tree.insert(twice),
        Err(StorageError::Engine { action: EngineAction::Insert, cause: PageError::Duplicate })
    );
    let rows = tree.select().unwrap();
    assert_eq!(ids(&rows), vec![1, 2, 3]);
    assert_eq!(rows[1].value(), Vec::<u8>::new());
}

#[test]
fn btree_missing_key_is_reported() {
    let missing = StorageError::Page { cause: PageError::MissingKey };
    let mut tree = BTree::new(fresh());
    tree.insert(Row::new(1, RowType::Leaf)).unwrap();
    assert_eq!(tree.delete(Row::new(2, RowType::Leaf)), Err(missing));
    assert_eq!(tree.update(Row::new(2, RowType::Leaf)).map(|r| r.id()), Err(missing));
    assert_eq!(tree.select_one(Row::new(2, RowType::Leaf)).map(|r| r.id()), Err(missing));
    assert_eq!(tree.select_one(Row::new(1, RowType::Leaf)).map(|r| r.id()), Ok(1));
}

#[test]
fn btree_leaf_split_gives_root_with_one_separator() {
    let mut tree = BTree::new(fresh());
    let capacity = 4078 / 17;
    for i in 1..=capacity {
        tree.insert(Row::new(i, RowType::Leaf)).unwrap();
    }
    assert_eq!(tree.pager().root(), 1);
    tree.insert(Row::new(capacity + 1, RowType::Leaf)).unwrap();

    let rows = tree.select().unwrap();
    assert_eq!(ids(&rows), (1..=capacity + 1).collect::<Vec<usize>>());

    let mut pager = tree.into_pager();
    let root_id = pager.root();
    assert_ne!(root_id, 1);
    assert_eq!(pager.metadata().pages, 4);
    let root = pager.read(root_id).unwrap();
    assert_eq!(root._type, PageType::Internal);
    assert_eq!(root.parent, None);
    assert_eq!(root.rows.len(), 1);
    let separator = &root.rows[0];
    assert_eq!(separator.left_offset(), 1);

    let left = pager.read(separator.left_offset()).unwrap();
    let right = pager.read(separator.right_offset()).unwrap();
    assert_eq!(left._type, PageType::Leaf);
    assert_eq!(right._type, PageType::Leaf);
    assert_eq!(left.parent, Some(root_id));
    assert_eq!(right.parent, Some(root_id));
    assert_eq!(left.rows.len(), capacity / 2);
    assert_eq!(separator.id(), right.rows[0].id());
    assert!(left.rows.iter().all(|r| r.id() < separator.id()));
    assert!(right.rows.iter().all(|r| r.id() >= separator.id()));
    assert_eq!(left.rows.len() + right.rows.len(), capacity + 1);
}

#[test]
fn btree_internal_split_gives_three_levels() {
    let mut tree = BTree::new(fresh());
    let count = 20500usize;
    for i in 1..=count {
        tree.insert(Row::new(i, RowType::Leaf)).unwrap();
    }
    let rows = tree.select().unwrap();
    assert_eq!(rows.len(), count);
    assert_eq!(ids(&rows), (1..=count).collect::<Vec<usize>>());
    for i in [1usize, 119, 120, 5000, 20500] {
        assert_eq!(tree.select_one(Row::new(i, RowType::Leaf)).map(|r| r.id()), Ok(i));
    }

    let mut pager = tree.into_pager();
    let root_id = pager.root();
    let root = pager.read(root_id).unwrap();
    assert_eq!(root._type, PageType::Internal);
    let child = pager.read(root.rows[0].left_offset()).unwrap();
    assert_eq!(child._type, PageType::Internal);
    assert_eq!(child.parent, Some(root_id));
    let leaf = pager.read(child.rows[0].left_offset()).unwrap();
    assert_eq!(leaf._type, PageType::Leaf);
    for page in [&root, &child] {
        for i in 0..page.rows.len() - 1 {
            assert!(page.rows[i].id() < page.rows[i + 1].id());
            assert_eq!(page.rows[i].right_offset(), page.rows[i + 1].left_offset());
        }
    }

    assert_eq!(root.parent, None);
    assert_eq!(root.rows.len(), 1);
    let upper = pager.read(root.rows[0].right_offset()).unwrap();
    assert_eq!(upper._type, PageType::Internal);
    assert_eq!(upper.parent, Some(root_id));
    assert_eq!(root.rows[0].id(), upper.rows[0].id());
    assert!(child.rows.iter().all(|p| p.id() < root.rows[0].id()));
    for pointer in upper.rows.iter() {
        assert_eq!(pager.read(pointer.left_offset()).unwrap().parent, Some(root.rows[0].right_offset()));
        assert_eq!(pager.read(pointer.right_offset()).unwrap().parent, Some(root.rows[0].right_offset()));
    }
}

#[test]
fn btree_inserts_in_any_order_come_out_sorted() {
    let mut tree = BTree::new(fresh());
    let count = 3000usize;
    let mut id = 1usize;
    let mut inserted = Vec::new();
    for _ in 0..count {
        id = (id * 7919 + 13) % 100_003;
        if !inserted.contains(&id) {
            tree.insert(Row::new(id, RowType::Leaf)).unwrap();
            inserted.push(id);
        }
    }
    inserted.sort();
    assert_eq!(ids(&tree.select().unwrap()), inserted);
}

#[test]
fn btree_delete_merges_back_to_a_single_leaf() {
    let mut tree = BTree::new(fresh());
    let capacity = 4078 / 17;
    for i in 1..=capacity + 1 {
        tree.insert(Row::new(i, RowType::Leaf)).unwrap();
    }
    assert_ne!(tree.pager().root(), 1);

    tree.delete(Row::new(5, RowType::Leaf)).unwrap();
    tree.delete(Row::new(200, RowType::Leaf)).unwrap();

    let expected: Vec<usize> = (1..=capacity + 1).filter(|i| *i != 5 && *i != 200).collect();
    assert_eq!(ids(&tree.select().unwrap()), expected);

    let mut pager = tree.into_pager();
    assert_eq!(pager.root(), 1);
    let root = pager.read(1).unwrap();
    assert_eq!(root._type, PageType::Leaf);
    assert_eq!(root.rows.len(), capacity - 1);
    assert_eq!(pager.metadata().free_pages.len(), 1);
}

#[test]
fn btree_update_that_no_longer_fits_is_deleted_and_inserted() {
    let mut tree = BTree::new(fresh());
    for i in 1..=3usize {
        let mut row = Row::new(i, RowType::Leaf);
        row.set_value(&vec![i as u8; 1300]);
        tree.insert(row).unwrap();
    }
    let mut grown = Row::new(2, RowType::Leaf);
    grown.set_value(&vec![9u8; 1500]);
    let old = tree.update(grown).unwrap();
    assert_eq!(old.value(), vec![2u8; 1300]);

    let rows = tree.select().unwrap();
    assert_eq!(ids(&rows), vec![1, 2, 3]);
    assert_eq!(rows[1].value(), vec![9u8; 1500]);
    assert_ne!(tree.pager().root(), 1);
}

#[test]
fn btree_allocates_freed_pages_again() {
    let mut tree = BTree::new(fresh());
    let capacity = 4078 / 17;
    for i in 1..=capacity + 1 {
        tree.insert(Row::new(i, RowType::Leaf)).unwrap();
    }
    tree.delete(Row::new(1, RowType::Leaf)).unwrap();
    let pages = tree.pager().metadata().pages;
    let free = tree.pager().metadata().free_pages.clone();
    assert_eq!(free.len(), 1);
    for i in capacity + 2..=2 * capacity {
        tree.insert(Row::new(i, RowType::Leaf)).unwrap();
    }
    assert!(tree.pager().metadata().free_pages.is_empty());
    assert_eq!(tree.pager().root(), free[0]);
    assert_eq!(tree.pager().metadata().pages, pages + 2);
    assert_eq!(ids(&tree.select().unwrap()), (2..=2 * capacity).collect::<Vec<usize>>());
}

#[test]
fn btree_reports_a_page_graph_that_is_no_tree() {
    let mut pager = fresh();
    let root = pager.allocate().unwrap();
    let mut row = Row::new(4, RowType::Internal);
    row.set_left_offset(root);
    row.set_right_offset(root);
    let page = Page::new(PageType::Internal, None, vec![row], 0);
    pager.write(root, &page).unwrap();
    pager.set_root(root).unwrap();

    let mut tree = BTree::new(pager);
    assert_eq!(
        tree.insert(Row::new(1, RowType::Leaf)),
        Err(StorageError::Page { cause: PageError::Corrupt })
    );
    assert_eq!(tree.select().unwrap(), vec![]);
}

#[test]
fn btree_executes_commands() {
    let mut tree = BTree::new(fresh());
    assert_eq!(tree.execute(Command::Populate(3)), Ok(None));
    assert_eq!(tree.execute(Command::Ping), Ok(None));
    assert_eq!(tree.execute(Command::Exit), Ok(None));
    assert_eq!(
        tree.execute(Command::Statement(Statement::Select)),
        Ok(Some(String::from("1,,\n2,,\n3,,")))
    );
    assert_eq!(
        tree.execute(Command::Structure(None)),
        Ok(Some(String::from("digraph {\n    edge [style=\"dashed\"]\n   1 -> 1\n}")))
    );
}

#[test]
fn btree_evaluates_statements() {
    let mut tree = BTree::new(fresh());
    let insert = Statement::Insert { id: 1, username: vec!['a'], email: vec!['a', '@', 'x'] };
    assert_eq!(tree.evaluate_statement(insert), Ok(None));
    let insert = Statement::Insert { id: 2, username: vec!['b'], email: vec!['b', '@', 'x'] };
    assert_eq!(tree.evaluate_statement(insert), Ok(None));
    assert_eq!(
        tree.evaluate_statement(Statement::Select),
        Ok(Some(String::from("1,a,a@x\n2,b,b@x")))
    );
    let update = Statement::Update { id: 1, username: vec!['c'], email: vec!['d'] };
    assert_eq!(tree.evaluate_statement(update), Ok(Some(String::from("1,a,a@x"))));
    assert_eq!(tree.evaluate_statement(Statement::Delete { id: 2 }), Ok(None));
    assert_eq!(tree.evaluate_statement(Statement::Select), Ok(Some(String::from("1,c,d"))));
    assert_eq!(
        tree.evaluate_statement(Statement::Delete { id: 2 }),
        Err(StorageError::Page { cause: PageError::MissingKey })
    );
}
