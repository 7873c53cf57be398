use cryo::storage::page::{Page, PageType, PAGE_SIZE};
use cryo::storage::pager::{Pager, PagerMetadata, MAX_FREE_PAGES};
use cryo::storage::row::{Row, RowType};
use cryo::storage::{PagerError, StorageError};

#[test]
fn pager_allocate() {
    let mut pager = Pager::open(Vec::new()).unwrap();

    let page_id = pager.allocate().unwrap();
    assert_eq!(page_id, 2);
    assert_eq!(pager.metadata().pages, 3);
}

#[test]
fn pager_flush() {
    let mut pager = Pager::open(Vec::new()).unwrap();

    pager.allocate().unwrap();
    let pages = pager.metadata().pages;
    let root = pager.metadata().root;
    pager.flush();

    let pager = Pager::open(pager.file().clone()).unwrap();
    assert_eq!(pager.metadata().pages, pages);
    assert_eq!(pager.metadata().root, root);
}

#[test]
fn pager_write() {
    let mut pager = Pager::open(Vec::new()).unwrap();

    let _ = pager.allocate().unwrap();
    let page_id = pager.allocate().unwrap();
    let page = Page::new(PageType::Internal, None, vec![], 0);

    pager.write(page_id, &page).unwrap();
    let back = pager.read(page_id).unwrap();
    assert_eq!(back._type, page._type);
    assert_eq!(back.parent, page.parent);
    assert_eq!(back.size, page.size);
    assert_eq!(back.rows, page.rows);
}

#[test]
fn pager_read() {
    let mut pager = Pager::open(Vec::new()).unwrap();

    let page_id = pager.allocate().unwrap();
    let page = Page::new(PageType::Internal, None, vec![], 0);

    pager.write(page_id, &page).unwrap();

    let returned = pager.read(page_id).unwrap();

    assert_eq!(returned.offset, page.offset);
    assert_eq!(returned._type, page._type);
    assert_eq!(returned.parent, page.parent);
}

#[test]
fn pager_free() {
    let mut pager = Pager::open(Vec::new()).unwrap();

    let _ = pager.allocate().unwrap();
    let free = pager.allocate().unwrap();
    let _ = pager.allocate().unwrap();

    pager.free(free).unwrap();
    assert_eq!(free, pager.allocate().unwrap());
}

#[test]
fn pager_commit_false() {
    let mut pager = Pager::open(Vec::new()).unwrap();

    let pages = pager.metadata().pages;
    let root = pager.metadata().root;

    pager.commit(false);
    pager.allocate().unwrap();
    let new_root = pager.allocate().unwrap();
    pager.allocate().unwrap();
    pager.set_root(new_root).unwrap();

    assert!(pager.metadata().pages > pages);
    assert_ne!(pager.metadata().root, root);
    pager.flush();
    let file = pager.file().clone();
    drop(pager);

    let pager = Pager::open(file).unwrap();
    assert_eq!(pages, pager.metadata().pages);
    assert_eq!(root, pager.metadata().root);
}

#[test]
fn fresh_pager_has_metadata_and_empty_root_leaf() {
    let mut pager = Pager::open(Vec::new()).unwrap();
    assert_eq!(pager.root(), 1);
    assert_eq!(pager.metadata().pages, 2);
    assert!(pager.metadata().free_pages.is_empty());
    assert!(pager.commits());
    assert!(pager.file().is_empty());

    let root = pager.read(1).unwrap();
    assert_eq!(root._type, PageType::Leaf);
    assert_eq!(root.parent, None);
    assert!(root.rows.is_empty());
}

#[test]
fn pager_flush_writes_pages_at_their_offsets() {
    let mut pager = Pager::open(Vec::new()).unwrap();
    let id = pager.allocate().unwrap();
    let mut page = Page::new(PageType::Leaf, Some(1), vec![], 0);
    page.insert(Row::new(42, RowType::Leaf)).unwrap();
    pager.write(id, &page).unwrap();
    pager.flush();

    let file = pager.file().clone();
    assert_eq!(file.len(), 3 * PAGE_SIZE);
    assert_eq!(&file[id * PAGE_SIZE..(id + 1) * PAGE_SIZE], page.as_bytes().as_slice());
    let meta = PagerMetadata::from_u8(&file[..PAGE_SIZE]).unwrap();
    assert_eq!((meta.root, meta.pages, meta.free_pages.len()), (1, 3, 0));

    let mut again = Pager::open(file).unwrap();
    let back = again.read(id).unwrap();
    assert_eq!(back.rows, vec![Row::new(42, RowType::Leaf)]);
    assert_eq!(back.parent, Some(1));
}

#[test]
fn pager_rejects_what_is_out_of_bounds() {
    let out_of_bounds = StorageError::Pager { cause: PagerError::OutOfBounds };
    let mut pager = Pager::open(Vec::new()).unwrap();
    assert_eq!(pager.read(2).map(|p| p.size), Err(out_of_bounds));
    let page = Page::new(PageType::Leaf, None, vec![], 0);
    assert_eq!(pager.write(9, &page), Err(out_of_bounds));
    assert_eq!(pager.free(9), Err(out_of_bounds));

    let id = pager.allocate().unwrap();
    pager.free(id).unwrap();
    assert_eq!(pager.free(id), Err(out_of_bounds));
    assert_eq!(pager.metadata().free_pages, vec![id]);
}

#[test]
fn pager_reads_io_error_for_a_page_that_is_nowhere() {
    let mut pager = Pager::open(Vec::new()).unwrap();
    let id = pager.allocate().unwrap();
    pager.free(id).unwrap();
    assert_eq!(
        pager.read(id).map(|p| p.size),
        Err(StorageError::Pager { cause: PagerError::Io })
    );
    assert_eq!(
        Pager::open(vec![0u8; 100]).map(|p| p.root()),
        Err(StorageError::Pager { cause: PagerError::Io })
    );
}

#[test]
fn pager_free_list_is_bounded() {
    let mut pager = Pager::open(Vec::new()).unwrap();
    let mut ids = Vec::new();
    for _ in 0..MAX_FREE_PAGES + 1 {
        ids.push(pager.allocate().unwrap());
    }
    for id in ids.iter().take(MAX_FREE_PAGES) {
        pager.free(*id).unwrap();
    }
    assert_eq!(
        pager.free(ids[MAX_FREE_PAGES]),
        Err(StorageError::Pager { cause: PagerError::Exhausted })
    );
    let free = pager.metadata().free_pages.clone();
    let mut sorted = free.clone();
    sorted.sort();
    sorted.dedup();
    assert_eq!(sorted.len(), free.len());
    assert!(free.iter().all(|id| *id < pager.metadata().pages));
}

#[test]
fn metadata_round_trip_and_strict_parse() {
    let meta = PagerMetadata { free_pages: vec![5, 3], pages: 9, root: 4 };
    let bytes = meta.as_bytes();
    assert_eq!(bytes.len(), PAGE_SIZE);
    assert_eq!(&bytes[0..8], &[4, 0, 0, 0, 0, 0, 0, 0]);
    assert_eq!(&bytes[8..16], &[9, 0, 0, 0, 0, 0, 0, 0]);
    assert_eq!(&bytes[16..24], &[2, 0, 0, 0, 0, 0, 0, 0]);
    assert_eq!(&bytes[24..32], &[5, 0, 0, 0, 0, 0, 0, 0]);
    assert_eq!(&bytes[32..40], &[3, 0, 0, 0, 0, 0, 0, 0]);
    let back = PagerMetadata::from_u8(&bytes).unwrap();
    assert_eq!((back.root, back.pages, back.free_pages), (4, 9, vec![5, 3]));

    let corrupt = Err(StorageError::Pager { cause: PagerError::Corrupt });
    let twice = PagerMetadata { free_pages: vec![5, 5], pages: 9, root: 4 }.as_bytes();
    assert_eq!(PagerMetadata::from_u8(&twice).map(|m| m.pages), corrupt);
    let beyond = PagerMetadata { free_pages: vec![9], pages: 9, root: 4 }.as_bytes();
    assert_eq!(PagerMetadata::from_u8(&beyond).map(|m| m.pages), corrupt);
    assert_eq!(PagerMetadata::from_u8(&[0u8; 23]).map(|m| m.pages), corrupt);
    assert_eq!(PagerMetadata::from_u8(&[0u8; PAGE_SIZE]).map(|m| m.pages), corrupt);
}

#[test]
fn metadata_fields_stand_in_order() {
    let mut page = [0u8; PAGE_SIZE];
    for (place, word) in [1u64, 5, 2, 3, 4].iter().enumerate() {
        page[place * 8..place * 8 + 8].copy_from_slice(&word.to_le_bytes());
    }
    let meta = PagerMetadata::from_u8(&page).unwrap();
    assert_eq!(meta.root, 1);
    assert_eq!(meta.pages, 5);
    assert_eq!(meta.free_pages, vec![3, 4]);
    assert_eq!(meta.as_bytes(), page.to_vec());
}
