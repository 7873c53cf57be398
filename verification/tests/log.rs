use cryo::storage::log::{decode_entry, encode_entry, LogEntry, Logger, Storing};
use cryo::storage::pager::Pager;
use cryo::storage::row::{Row, RowType};
use cryo::storage::{LoggerError, StorageError};

fn open() -> Logger {
    Logger::open(Vec::new(), Pager::open(Vec::new()).unwrap()).unwrap()
}

#[test]
fn log_writes_entries() {
    let mut logger = open();

    logger.log(LogEntry::Insert(Row::new(0, RowType::Leaf).as_bytes().to_vec())).unwrap();
    logger.log(LogEntry::Insert(Row::new(1, RowType::Leaf).as_bytes().to_vec())).unwrap();
    logger.log(LogEntry::Update(Row::new(1, RowType::Leaf).as_bytes().to_vec())).unwrap();
    assert_eq!(
        logger.list_entries().unwrap(),
        vec![
            LogEntry::Insert(Row::new(0, RowType::Leaf).as_bytes().to_vec()),
            LogEntry::Insert(Row::new(1, RowType::Leaf).as_bytes().to_vec()),
            LogEntry::Update(Row::new(1, RowType::Leaf).as_bytes().to_vec())
        ]
    );
}

#[test]
fn only_returns_unflushed_entries() {
    let mut logger = open();

    logger.log(LogEntry::Insert(Row::new(0, RowType::Leaf).as_bytes().to_vec())).unwrap();
    logger.log(LogEntry::Update(Row::new(0, RowType::Leaf).as_bytes().to_vec())).unwrap();
    logger.log(LogEntry::GlobalCheckpoint).unwrap();
    logger.log(LogEntry::Insert(Row::new(1, RowType::Leaf).as_bytes().to_vec())).unwrap();

    assert_eq!(
        logger.list_entries().unwrap(),
        vec![LogEntry::Insert(Row::new(1, RowType::Leaf).as_bytes().to_vec())]
    );
}

#[test]
fn logger_compacts() {
    let mut logger = open();

    logger.log(LogEntry::Insert(Row::new(0, RowType::Leaf).as_bytes().to_vec())).unwrap();
    logger.log(LogEntry::Update(Row::new(0, RowType::Leaf).as_bytes().to_vec())).unwrap();
    logger.log(LogEntry::Insert(Row::new(1, RowType::Leaf).as_bytes().to_vec())).unwrap();
    logger.log(LogEntry::Update(Row::new(1, RowType::Leaf).as_bytes().to_vec())).unwrap();
    let wal = logger.wal().clone();
    let file = logger.pager().file().clone();
    drop(logger);

    let len = wal.len();

    let pager = Pager::open(file).unwrap();
    let mut logger = Logger::open(wal, pager).unwrap();
    logger.log(LogEntry::GlobalCheckpoint).unwrap();
    let new_len = logger.wal().len();
    drop(logger);

    assert!(new_len < len);
    assert_eq!(new_len, 0);
}

#[test]
#[should_panic(expected = "Duplicate")]
fn logger_pager_state() {
    let mut logger = open();

    let row = Row::new(10, RowType::Leaf);
    logger.log(LogEntry::Insert(row.as_bytes().to_vec())).unwrap();
    let wal = logger.wal().clone();
    let file = logger.pager().file().clone();
    drop(logger);

    let pager = Pager::open(file).unwrap();
    let mut logger = Logger::open(wal, pager).unwrap();
    logger.log(LogEntry::Insert(row.as_bytes().to_vec())).unwrap();
}

#[test]
fn entry_bytes_are_big_endian_with_fixed_widths() {
    assert_eq!(
        encode_entry(&LogEntry::Insert(vec![7, 8])).unwrap(),
        vec![0, 0, 0, 0, 0, 0, 0, 0, 0, 0, 0, 2, 7, 8]
    );
    assert_eq!(
        encode_entry(&LogEntry::Delete(vec![])).unwrap(),
        vec![0, 0, 0, 1, 0, 0, 0, 0, 0, 0, 0, 0]
    );
    assert_eq!(
        encode_entry(&LogEntry::Update(vec![1; 300])).unwrap()[..12],
        [0, 0, 0, 2, 0, 0, 0, 0, 0, 0, 1, 44]
    );
    assert_eq!(encode_entry(&LogEntry::GlobalCheckpoint).unwrap(), vec![0, 0, 0, 3]);
}

#[test]
fn entries_are_read_back_at_their_offsets() {
    let entries = vec![
        LogEntry::Insert(vec![1, 2, 3]),
        LogEntry::GlobalCheckpoint,
        LogEntry::Delete(vec![]),
        LogEntry::Update(vec![9; 40]),
    ];
    let mut wal = Vec::new();
    let mut offsets = Vec::new();
    for entry in &entries {
        offsets.push(wal.len());
        wal.extend_from_slice(&encode_entry(entry).unwrap());
    }
    for (entry, offset) in entries.iter().zip(offsets.iter()) {
        let (back, used) = decode_entry(&wal, *offset).unwrap();
        assert_eq!(&back, entry);
        assert_eq!(used, encode_entry(entry).unwrap().len());
    }
}

#[test]
fn torn_entries_are_not_decoded() {
    let torn = Err(StorageError::Logger { cause: LoggerError::Deserialize });
    let bytes = encode_entry(&LogEntry::Insert(vec![1, 2, 3])).unwrap();
    for cut in 0..bytes.len() {
        assert_eq!(decode_entry(&bytes[..cut].to_vec(), 0).map(|e| e.1), torn);
    }
    assert_eq!(decode_entry(&vec![0, 0, 0, 4], 0).map(|e| e.1), torn);
    assert_eq!(decode_entry(&vec![1, 0, 0, 0], 0).map(|e| e.1), torn);
    let huge = vec![0, 0, 0, 0, 255, 255, 255, 255, 255, 255, 255, 255, 1];
    assert_eq!(decode_entry(&huge, 0).map(|e| e.1), torn);
}

#[test]
fn checkpoint_empties_the_log_and_writes_the_file() {
    let mut logger = open();
    for i in 1..=100usize {
        logger.log(LogEntry::Insert(Row::new(i, RowType::Leaf).as_bytes())).unwrap();
    }
    assert!(logger.wal().len() > 0);
    assert!(logger.pager().file().is_empty());
    assert!(!logger.pager().commits());

    logger.log(LogEntry::GlobalCheckpoint).unwrap();
    assert_eq!(logger.wal().len(), 0);
    assert!(logger.list_entries().unwrap().is_empty());
    assert!(!logger.pager().commits());

    let file = logger.pager().file().clone();
    let mut again = Logger::open(Vec::new(), Pager::open(file).unwrap()).unwrap();
    let ids: Vec<usize> = again.select().unwrap().iter().map(|r| r.id()).collect();
    assert_eq!(ids, (1..=100).collect::<Vec<usize>>());
}

#[test]
fn reopening_replays_the_log() {
    let mut logger = open();
    let mut row = Row::new(42, RowType::Leaf);
    row.set_value(&[1, 2, 3]);
    logger.log(LogEntry::Insert(row.as_bytes())).unwrap();
    logger.log(LogEntry::Insert(Row::new(7, RowType::Leaf).as_bytes())).unwrap();
    row.set_value(&[4, 5]);
    logger.log(LogEntry::Update(row.as_bytes())).unwrap();
    logger.log(LogEntry::Delete(Row::new(7, RowType::Leaf).as_bytes())).unwrap();
    let before = logger.select().unwrap();

    let wal = logger.wal().clone();
    let file = logger.pager().file().clone();
    assert!(file.is_empty());
    drop(logger);

    let mut again = Logger::open(wal.clone(), Pager::open(file).unwrap()).unwrap();
    let after = again.select().unwrap();
    assert_eq!(after, before);
    assert_eq!(after.len(), 1);
    assert_eq!(after[0].id(), 42);
    assert_eq!(after[0].value(), vec![4, 5]);
    assert_eq!(again.wal(), &wal);
    assert_eq!(again.list_entries().unwrap().len(), 4);
}

#[test]
fn replay_stops_at_a_torn_tail_and_cuts_it_off() {
    let mut logger = open();
    logger.log(LogEntry::Insert(Row::new(1, RowType::Leaf).as_bytes())).unwrap();
    logger.log(LogEntry::Insert(Row::new(2, RowType::Leaf).as_bytes())).unwrap();
    let good = logger.wal().clone();
    let mut wal = good.clone();
    let next = encode_entry(&LogEntry::Insert(Row::new(3, RowType::Leaf).as_bytes())).unwrap();
    wal.extend_from_slice(&next[..next.len() - 5]);

    let mut again = Logger::open(wal, Pager::open(Vec::new()).unwrap()).unwrap();
    let ids: Vec<usize> = again.select().unwrap().iter().map(|r| r.id()).collect();
    assert_eq!(ids, vec![1, 2]);
    assert_eq!(again.wal(), &good);
}

#[test]
fn replay_passes_over_checkpoints() {
    let mut wal = encode_entry(&LogEntry::GlobalCheckpoint).unwrap();
    wal.extend_from_slice(
        &encode_entry(&LogEntry::Insert(Row::new(5, RowType::Leaf).as_bytes())).unwrap(),
    );
    wal.extend_from_slice(&encode_entry(&LogEntry::GlobalCheckpoint).unwrap());
    let mut logger = Logger::open(wal, Pager::open(Vec::new()).unwrap()).unwrap();
    let ids: Vec<usize> = logger.select().unwrap().iter().map(|r| r.id()).collect();
    assert_eq!(ids, vec![5]);
    assert_eq!(logger.list_entries().unwrap().len(), 1);
}

#[test]
fn log_refuses_rows_that_are_no_leaf_rows() {
    let mut logger = open();
    let corrupt = Err(StorageError::Page { cause: cryo::storage::PageError::Corrupt });
    assert_eq!(logger.log(LogEntry::Insert(vec![1, 2, 3])), corrupt);
    assert_eq!(logger.log(LogEntry::Insert(Row::new(1, RowType::Internal).as_bytes())), corrupt);
    assert_eq!(logger.wal().len(), 0);
}

#[test]
fn storing_follows_the_log() {
    let mut logger = open();
    assert_eq!(logger.to_store(0, false), Storing::Nothing);

    logger.log(LogEntry::Insert(Row::new(1, RowType::Leaf).as_bytes())).unwrap();
    let first = logger.wal().clone();
    assert_eq!(logger.to_store(0, false), Storing::Append(first.clone()));
    assert_eq!(logger.to_store(first.len(), false), Storing::Nothing);

    logger.log(LogEntry::Insert(Row::new(2, RowType::Leaf).as_bytes())).unwrap();
    let both = logger.wal().clone();
    assert_eq!(
        logger.to_store(first.len(), false),
        Storing::Append(both[first.len()..].to_vec())
    );
    assert_eq!(logger.to_store(both.len() + 7, false), Storing::Cut(both.len()));

    logger.log(LogEntry::GlobalCheckpoint).unwrap();
    let image = logger.pager().file().clone();
    assert!(!image.is_empty());
    assert_eq!(logger.to_store(both.len(), true), Storing::Rewrite { image, log: vec![] });
}

#[test]
fn storing_after_a_checkpoint_writes_pages_that_never_went_through_the_log() {
    let mut logger = open();
    logger.populate(3).unwrap();
    assert_eq!(logger.wal().len(), 0);
    assert_eq!(logger.to_store(0, false), Storing::Nothing);

    logger.log(LogEntry::GlobalCheckpoint).unwrap();
    let image = match logger.to_store(0, true) {
        Storing::Rewrite { image, log } => {
            assert!(log.is_empty());
            image
        }
        other => panic!("the pages are not stored: {other:?}"),
    };
    let mut again = Logger::open(Vec::new(), Pager::open(image).unwrap()).unwrap();
    let ids: Vec<usize> = again.select().unwrap().iter().map(|r| r.id()).collect();
    assert_eq!(ids, vec![1, 2, 3]);
}

#[test]
fn storing_after_open_cuts_a_torn_tail() {
    let mut logger = open();
    logger.log(LogEntry::Insert(Row::new(1, RowType::Leaf).as_bytes())).unwrap();
    let good = logger.wal().clone();
    let mut torn = good.clone();
    torn.extend_from_slice(&[0, 0, 0]);
    let again = Logger::open(torn.clone(), Pager::open(Vec::new()).unwrap()).unwrap();
    assert_eq!(again.to_store(torn.len(), false), Storing::Cut(good.len()));
}
