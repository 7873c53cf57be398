//! The write-ahead log.
//!
//! Every change is applied to the tree and appended to the log; when the
//! log is opened again, its entries are applied anew. A checkpoint writes
//! the pages to the file image and empties the log. An entry is laid out
//! as a tag of four bytes and, for a change, the length of the row in eight
//! bytes and the row; integers stand most significant byte first.
use bincode::error::{DecodeError, EncodeError};
use vstd::prelude::*;
use vstd::slice::{slice_subrange, slice_to_vec};
use super::btree::{
    corrupt, populate, tree_delete, tree_insert, tree_select, tree_structure, tree_update, BTree,
};
use super::page::views;
use super::codec::put_bytes;
use super::pager::{file_page, lemma_flush_persists, MetaView, Pager, PagerView};
use super::row::{Row, RowType, RowView};
use super::{LoggerError, PageError, StorageError};

verus! {

/// The error type of bincode's encoder.
#[verifier::external_type_specification]
#[verifier::external_body]
pub struct ExEncodeError(EncodeError);

/// The error type of bincode's decoder.
#[verifier::external_type_specification]
#[verifier::external_body]
pub struct ExDecodeError(DecodeError);

/// The `width` bytes of a number, most significant first.
pub open spec fn be_bytes(x: nat, width: nat) -> Seq<u8>
    decreases width,
{
    if width == 0 {
        Seq::empty()
    } else {
        be_bytes(x / 256, (width - 1) as nat).push((x % 256) as u8)
    }
}

/// The number that bytes stand for, most significant first.
pub open spec fn be_value(s: Seq<u8>) -> nat
    decreases s.len(),
{
    if s.len() == 0 {
        0
    } else {
        be_value(s.drop_last()) * 256 + s.last() as nat
    }
}

/// The number can be written in `width` bytes.
pub open spec fn fits(x: nat, width: nat) -> bool
    decreases width,
{
    if width == 0 {
        x == 0
    } else {
        fits(x / 256, (width - 1) as nat)
    }
}

/// A number that fits its bytes is read back from them.
pub proof fn lemma_be_round_trip(x: nat, width: nat)
    requires
        fits(x, width),
    ensures
        be_bytes(x, width).len() == width,
        be_value(be_bytes(x, width)) == x,
    decreases width,
{
    if width > 0 {
        lemma_be_round_trip(x / 256, (width - 1) as nat);
        let s = be_bytes(x, width);
        assert(s.drop_last() =~= be_bytes(x / 256, (width - 1) as nat));
    }
}

/// The length of bytes fits their count, whatever the number.
pub proof fn lemma_be_len(x: nat, width: nat)
    ensures
        be_bytes(x, width).len() == width,
    decreases width,
{
    if width > 0 {
        lemma_be_len(x / 256, (width - 1) as nat);
    }
}

/// Every number of 32 bits fits four bytes, every number of 64 bits eight.
pub proof fn lemma_fits(x: nat)
    ensures
        x <= u32::MAX ==> fits(x, 4),
        x <= u64::MAX ==> fits(x, 8),
{
    reveal_with_fuel(fits, 9);
}

/// `bincode::encode_to_vec` on a `u32`, with fixed-width integers in big
/// endian: the four bytes of the number, most significant first. Encoding
/// into a vector does not fail.
#[verifier::external_body]
fn encode_u32(x: u32) -> (r: Result<Vec<u8>, EncodeError>)
    ensures
        r is Ok,
        (r->Ok_0)@ == be_bytes(x as nat, 4),
{
    let config = bincode::config::standard().with_big_endian().with_fixed_int_encoding();
    bincode::encode_to_vec(x, config)
}

/// `bincode::encode_to_vec` on a vector of bytes, with fixed-width
/// integers in big endian: the length in eight bytes, most significant
/// first, then the bytes. Encoding into a vector does not fail.
#[verifier::external_body]
fn encode_bytes(bytes: &Vec<u8>) -> (r: Result<Vec<u8>, EncodeError>)
    ensures
        r is Ok,
        (r->Ok_0)@ == be_bytes(bytes@.len(), 8) + bytes@,
{
    let config = bincode::config::standard().with_big_endian().with_fixed_int_encoding();
    bincode::encode_to_vec(bytes, config)
}

/// `bincode::decode_from_slice` for a `u32`, with fixed-width integers in
/// big endian: the number that the first four bytes stand for, and 4 as
/// the count of bytes read; an error where there are fewer bytes.
#[verifier::external_body]
fn decode_u32(src: &[u8]) -> (r: Result<(u32, usize), DecodeError>)
    ensures
        src@.len() < 4 ==> r is Err,
        src@.len() >= 4 ==> r is Ok,
        src@.len() >= 4 ==> (r->Ok_0).0 as nat == be_value(src@.subrange(0, 4)),
        src@.len() >= 4 ==> (r->Ok_0).1 == 4,
{
    let config = bincode::config::standard().with_big_endian().with_fixed_int_encoding();
    bincode::decode_from_slice(src, config)
}

/// `bincode::decode_from_slice` for a `u64`, with fixed-width integers in
/// big endian: the number that the first eight bytes stand for, and 8 as
/// the count of bytes read; an error where there are fewer bytes.
#[verifier::external_body]
fn decode_u64(src: &[u8]) -> (r: Result<(u64, usize), DecodeError>)
    ensures
        src@.len() < 8 ==> r is Err,
        src@.len() >= 8 ==> r is Ok,
        src@.len() >= 8 ==> (r->Ok_0).0 as nat == be_value(src@.subrange(0, 8)),
        src@.len() >= 8 ==> (r->Ok_0).1 == 8,
{
    let config = bincode::config::standard().with_big_endian().with_fixed_int_encoding();
    bincode::decode_from_slice(src, config)
}

/// `bincode::decode_from_slice` for a vector of bytes, with fixed-width
/// integers in big endian: as many bytes as the first eight bytes say, and
/// the count of bytes read. The decoder allocates the vector before it
/// reads, so the length has to be checked against the input first.
#[verifier::external_body]
fn decode_bytes(src: &[u8]) -> (r: Result<(Vec<u8>, usize), DecodeError>)
    requires
        src@.len() >= 8,
        be_value(src@.subrange(0, 8)) + 8 <= src@.len(),
    ensures
        r is Ok,
        (r->Ok_0).0@ == src@.subrange(8, (8 + be_value(src@.subrange(0, 8))) as int),
        (r->Ok_0).1 == 8 + be_value(src@.subrange(0, 8)),
{
    let config = bincode::config::standard().with_big_endian().with_fixed_int_encoding();
    bincode::decode_from_slice(src, config)
}

/// What a log entry is.
pub enum EntryView {
    Insert(Seq<u8>),
    Delete(Seq<u8>),
    Update(Seq<u8>),
    GlobalCheckpoint,
}

impl EntryView {
    /// The number that marks the variant.
    pub open spec fn tag(self) -> nat {
        match self {
            EntryView::Insert(_) => 0,
            EntryView::Delete(_) => 1,
            EntryView::Update(_) => 2,
            EntryView::GlobalCheckpoint => 3,
        }
    }

    /// The bytes of the row that a change carries.
    pub open spec fn payload(self) -> Option<Seq<u8>> {
        match self {
            EntryView::Insert(b) => Some(b),
            EntryView::Delete(b) => Some(b),
            EntryView::Update(b) => Some(b),
            EntryView::GlobalCheckpoint => None,
        }
    }

    /// The encoded entry.
    pub open spec fn bytes(self) -> Seq<u8> {
        match self.payload() {
            Some(b) => be_bytes(self.tag(), 4) + (be_bytes(b.len(), 8) + b),
            None => be_bytes(self.tag(), 4),
        }
    }

    /// The entry that `b` starts with, and the count of its bytes, if `b`
    /// starts with an entry.
    pub open spec fn parse(b: Seq<u8>) -> Option<(EntryView, nat)> {
        if b.len() < 4 {
            None
        } else {
            let tag = be_value(b.subrange(0, 4));
            if tag == 3 {
                Some((EntryView::GlobalCheckpoint, 4nat))
            } else if tag > 3 || b.len() < 12 {
                None
            } else {
                let n = be_value(b.subrange(4, 12));
                if 12 + n > b.len() {
                    None
                } else {
                    let payload = b.subrange(12, (12 + n) as int);
                    Some(
                        (
                            if tag == 0 {
                                EntryView::Insert(payload)
                            } else if tag == 1 {
                                EntryView::Delete(payload)
                            } else {
                                EntryView::Update(payload)
                            },
                            12 + n,
                        ),
                    )
                }
            }
        }
    }
}

/// Entry recorded in time for easy recovery; Any state changes
/// is tracked here and stored before the change is fully
/// written to the on-disk structure.
#[derive(Debug, PartialEq, Eq)]
pub enum LogEntry {
    Insert(Vec<u8>),
    Delete(Vec<u8>),
    Update(Vec<u8>),
    GlobalCheckpoint,
}

impl View for LogEntry {
    type V = EntryView;

    open spec fn view(&self) -> EntryView {
        match self {
            LogEntry::Insert(b) => EntryView::Insert(b@),
            LogEntry::Delete(b) => EntryView::Delete(b@),
            LogEntry::Update(b) => EntryView::Update(b@),
            LogEntry::GlobalCheckpoint => EntryView::GlobalCheckpoint,
        }
    }
}

impl Clone for LogEntry {
    fn clone(&self) -> (r: Self)
        ensures
            r@ == self@,
    {
        match self {
            LogEntry::Insert(b) => LogEntry::Insert(b.clone()),
            LogEntry::Delete(b) => LogEntry::Delete(b.clone()),
            LogEntry::Update(b) => LogEntry::Update(b.clone()),
            LogEntry::GlobalCheckpoint => LogEntry::GlobalCheckpoint,
        }
    }
}

/// The encoded entry.
pub fn encode_entry(entry: &LogEntry) -> (r: Result<Vec<u8>, StorageError>)
    ensures
        r matches Ok(v) && v@ == entry@.bytes(),
{
    let (tag, payload): (u32, Option<&Vec<u8>>) = match entry {
        LogEntry::Insert(b) => (0, Some(b)),
        LogEntry::Delete(b) => (1, Some(b)),
        LogEntry::Update(b) => (2, Some(b)),
        LogEntry::GlobalCheckpoint => (3, None),
    };
    let mut out = match encode_u32(tag) {
        Ok(v) => v,
        Err(_) => { return Err(StorageError::Logger { cause: LoggerError::Serialize }); },
    };
    match payload {
        Some(b) => {
            let body = match encode_bytes(b) {
                Ok(v) => v,
                Err(_) => { return Err(StorageError::Logger { cause: LoggerError::Serialize }); },
            };
            put_bytes(&mut out, body.as_slice());
        },
        None => {},
    }
    Ok(out)
}

/// Reads the entry that starts at `off`, and says how many bytes it
/// takes.
pub fn decode_entry(wal: &Vec<u8>, off: usize) -> (r: Result<(LogEntry, usize), StorageError>)
    requires
        off <= wal@.len(),
    ensures
        match EntryView::parse(wal@.subrange(off as int, wal@.len() as int)) {
            Some((entry, n)) => r matches Ok(out) && out.0@ == entry && out.1 == n && off + n
                <= wal@.len(),
            None => r == Err::<(LogEntry, usize), StorageError>(
                StorageError::Logger { cause: LoggerError::Deserialize },
            ),
        },
{
    let src = slice_subrange(wal.as_slice(), off, wal.len());
    let tag = match decode_u32(src) {
        Ok(out) => out.0,
        Err(_) => { return Err(StorageError::Logger { cause: LoggerError::Deserialize }); },
    };
    if tag == 3 {
        return Ok((LogEntry::GlobalCheckpoint, 4));
    }
    if tag > 3 || src.len() < 12 {
        return Err(StorageError::Logger { cause: LoggerError::Deserialize });
    }
    let rest = slice_subrange(src, 4, src.len());
    assert(rest@.subrange(0, 8) =~= src@.subrange(4, 12));
    let len = match decode_u64(rest) {
        Ok(out) => out.0,
        Err(_) => { return Err(StorageError::Logger { cause: LoggerError::Deserialize }); },
    };
    if len > (src.len() - 12) as u64 {
        return Err(StorageError::Logger { cause: LoggerError::Deserialize });
    }
    let (payload, used) = match decode_bytes(rest) {
        Ok(out) => out,
        Err(_) => { return Err(StorageError::Logger { cause: LoggerError::Deserialize }); },
    };
    assert(payload@ =~= src@.subrange(12, (12 + len) as int));
    let entry = if tag == 0 {
        LogEntry::Insert(payload)
    } else if tag == 1 {
        LogEntry::Delete(payload)
    } else {
        LogEntry::Update(payload)
    };
    Ok((entry, 4 + used))
}

/// An entry takes four bytes for its tag and, for a change, eight for the
/// length of the row, and the row.
pub proof fn lemma_entry_len(e: EntryView)
    ensures
        e.bytes().len() == (match e.payload() {
            Some(b) => 12 + b.len(),
            None => 4,
        }),
{
    lemma_be_len(e.tag(), 4);
    match e.payload() {
        Some(b) => {
            lemma_be_len(b.len(), 8);
        },
        None => {},
    }
}

/// An encoded entry is read back, whatever follows it.
pub proof fn lemma_entry_round_trip(e: EntryView, rest: Seq<u8>)
    requires
        match e.payload() {
            Some(b) => b.len() <= u64::MAX,
            None => true,
        },
    ensures
        EntryView::parse(e.bytes() + rest) == Some((e, e.bytes().len())),
{
    let b = e.bytes() + rest;
    lemma_fits(e.tag());
    lemma_be_round_trip(e.tag(), 4);
    assert(b.subrange(0, 4) =~= be_bytes(e.tag(), 4));
    match e.payload() {
        Some(p) => {
            lemma_fits(p.len());
            lemma_be_round_trip(p.len(), 8);
            assert(b.subrange(4, 12) =~= be_bytes(p.len(), 8));
            assert(b.subrange(12, (12 + p.len()) as int) =~= p);
        },
        None => {},
    }
}

/// What applying a change to the tree gives; the key of the row is the
/// result. The bytes of the change have to start with a row, and a row
/// that is inserted or updated has to be a leaf row.
#[verifier::opaque]
pub open spec fn apply(s: PagerView, entry: EntryView) -> (PagerView, Result<usize, StorageError>) {
    match entry.payload() {
        None => (s, Err(corrupt())),
        Some(b) => match RowView::parse(b) {
            None => (s, Err(corrupt())),
            Some(row) => match entry {
                EntryView::Delete(_) => {
                    let (s1, r) = tree_delete(s, row.id());
                    match r {
                        Err(e) => (s1, Err(e)),
                        Ok(_) => (s1, Ok(row.id())),
                    }
                },
                EntryView::Insert(_) => if row.kind() != RowType::Leaf {
                    (s, Err(corrupt()))
                } else {
                    let (s1, r) = tree_insert(s, row);
                    match r {
                        Err(e) => (s1, Err(e)),
                        Ok(_) => (s1, Ok(row.id())),
                    }
                },
                _ => if row.kind() != RowType::Leaf {
                    (s, Err(corrupt()))
                } else {
                    let (s1, r) = tree_update(s, row);
                    match r {
                        Err(e) => (s1, Err(e)),
                        Ok(_) => (s1, Ok(row.id())),
                    }
                },
            },
        }
    }
}

/// What replaying a log from `off` on gives: the changes are applied in
/// order and recorded with their offsets, checkpoints are passed over, and
/// the replay ends where no entry starts; the offset of that place is the
/// result.
pub open spec fn replay(s: PagerView, wal: Seq<u8>, off: nat, entries: Seq<(u64, usize)>) -> (
    PagerView,
    Result<(nat, Seq<(u64, usize)>), StorageError>,
)
    decreases wal.len() - off,
{
    if off > wal.len() {
        (s, Ok((off, entries)))
    } else {
        match EntryView::parse(wal.subrange(off as int, wal.len() as int)) {
            None => (s, Ok((off, entries))),
            Some((entry, n)) => if n < 4 || off + n > wal.len() {
                (s, Ok((off, entries)))
            } else if entry == EntryView::GlobalCheckpoint {
                replay(s, wal, off + n, entries)
            } else {
                let (s1, r) = apply(s, entry);
                match r {
                    Err(e) => (s1, Err(e)),
                    Ok(id) => replay(s1, wal, off + n, entries.push((off as u64, id))),
                }
            },
        }
    }
}

/// What has to be done to the two files so that they hold what a logger
/// holds.
#[derive(Debug, PartialEq, Eq)]
pub enum Storing {
    /// The files hold it already.
    Nothing,
    /// The bytes are appended to the log file.
    Append(Vec<u8>),
    /// The log file is cut to the length.
    Cut(usize),
    /// The database file takes the image, and the log file takes the log
    /// in place of what it held.
    Rewrite { image: Vec<u8>, log: Vec<u8> },
}

/// What a way of storing is.
pub enum StoringView {
    Nothing,
    Append(Seq<u8>),
    Cut(usize),
    Rewrite { image: Seq<u8>, log: Seq<u8> },
}

impl View for Storing {
    type V = StoringView;

    open spec fn view(&self) -> StoringView {
        match self {
            Storing::Nothing => StoringView::Nothing,
            Storing::Append(bytes) => StoringView::Append(bytes@),
            Storing::Cut(len) => StoringView::Cut(*len),
            Storing::Rewrite { image, log } => StoringView::Rewrite { image: image@, log: log@ },
        }
    }
}

/// The state of a logger.
pub struct LoggerView {
    pub pager: PagerView,
    /// The bytes of the log file.
    pub wal: Seq<u8>,
    /// The changes since the last checkpoint: offset in the log, and key.
    pub entries: Seq<(u64, usize)>,
}

impl LoggerView {
    /// The logger over another state of the pager.
    pub open spec fn with_pager(self, pager: PagerView) -> LoggerView {
        LoggerView { pager, ..self }
    }

    /// What opening a logger on the bytes of a log and a pager gives: the
    /// commit flag is cleared, the log is replayed, and what follows the
    /// last entry is cut off.
    pub open spec fn open(wal: Seq<u8>, pager: PagerView) -> Result<LoggerView, StorageError> {
        let (s1, r) = replay(pager.set_commit(false), wal, 0, Seq::empty());
        match r {
            Err(e) => Err(e),
            Ok((good, entries)) => Ok(
                LoggerView { pager: s1, wal: wal.subrange(0, good as int), entries },
            ),
        }
    }

    /// What has to be done to the files, where the log file holds the
    /// first `logged` bytes of what was logged since it was last brought
    /// up to the logger: after a checkpoint the database file takes the
    /// image of the pager and the log file the log, which is then empty;
    /// else a log file that is longer than the log is cut, and a log file
    /// that is shorter takes the bytes that it lacks.
    pub open spec fn to_store(self, logged: usize, checkpointed: bool) -> StoringView {
        if checkpointed {
            StoringView::Rewrite { image: self.pager.file, log: self.wal }
        } else if logged > self.wal.len() {
            StoringView::Cut(self.wal.len() as usize)
        } else if logged < self.wal.len() {
            StoringView::Append(self.wal.subrange(logged as int, self.wal.len() as int))
        } else {
            StoringView::Nothing
        }
    }

    /// A checkpoint: the pages are flushed with the commit flag set, the
    /// flag is cleared again, and the log is empty.
    pub open spec fn compact(self) -> LoggerView {
        LoggerView {
            pager: self.pager.set_commit(true).flush().set_commit(false),
            wal: Seq::empty(),
            entries: Seq::empty(),
        }
    }

    /// Logging an entry: a checkpoint compacts; a change is applied to the
    /// tree and then appended to the log.
    pub open spec fn log(self, entry: EntryView) -> (LoggerView, Result<(), StorageError>) {
        if entry == EntryView::GlobalCheckpoint {
            (self.compact(), Ok(()))
        } else {
            let (s1, r) = apply(self.pager, entry);
            match r {
                Err(e) => (LoggerView { pager: s1, ..self }, Err(e)),
                Ok(id) => (
                    LoggerView {
                        pager: s1,
                        wal: self.wal + entry.bytes(),
                        entries: self.entries.push((self.wal.len() as u64, id)),
                    },
                    Ok(()),
                ),
            }
        }
    }
}

/// Applies a change to the tree; the key of the row is returned.
pub fn apply_entry(tree: &mut BTree, entry: &LogEntry) -> (r: Result<usize, StorageError>)
    requires
        old(tree).well_formed(),
    ensures
        final(tree).well_formed(),
        (final(tree)@.pager, r) == apply(old(tree)@.pager, entry@),
{
    reveal(apply);
    let bytes = match entry {
        LogEntry::Insert(b) => b,
        LogEntry::Delete(b) => b,
        LogEntry::Update(b) => b,
        LogEntry::GlobalCheckpoint => {
            return Err(StorageError::Page { cause: PageError::Corrupt });
        },
    };
    let row = match Row::decode(bytes.as_slice()) {
        Ok(row) => row,
        Err(e) => { return Err(e); },
    };
    let id = row.id();
    match entry {
        LogEntry::Delete(_) => {
            match tree.delete(row) {
                Ok(_) => Ok(id),
                Err(e) => Err(e),
            }
        },
        LogEntry::Insert(_) => {
            if row.kind() != RowType::Leaf {
                return Err(StorageError::Page { cause: PageError::Corrupt });
            }
            match tree.insert(row) {
                Ok(_) => Ok(id),
                Err(e) => Err(e),
            }
        },
        _ => {
            if row.kind() != RowType::Leaf {
                return Err(StorageError::Page { cause: PageError::Corrupt });
            }
            match tree.update(row) {
                Ok(_) => Ok(id),
                Err(e) => Err(e),
            }
        },
    }
}

/// Tracks state changes before batch-processing permanent
/// on-disk writes.
#[derive(Debug)]
pub struct Logger {
    entries: Vec<(u64, usize)>,
    tree: BTree,
    wal: Vec<u8>,
}

impl View for Logger {
    type V = LoggerView;

    closed spec fn view(&self) -> LoggerView {
        LoggerView { pager: self.tree@.pager, wal: self.wal@, entries: self.entries@ }
    }
}

impl Logger {
    /// The pager satisfies its invariant, and the log can be addressed.
    pub open spec fn well_formed(&self) -> bool {
        &&& self@.pager.well_formed()
        &&& self@.wal.len() <= u64::MAX
    }

    /// Opens a logger on the bytes of the log file: what the log holds is
    /// applied to the pager, without the pager writing to its file.
    pub fn open(wal: Vec<u8>, pager: Pager) -> (r: Result<Logger, StorageError>)
        requires
            pager@.well_formed(),
        ensures
            match LoggerView::open(wal@, pager@) {
                Ok(v) => r matches Ok(logger) && logger@ == v && logger.well_formed(),
                Err(e) => r == Err::<Logger, StorageError>(e),
            },
    {
        let mut store = pager;
        store.commit(false);
        let mut tree = BTree::new(store);
        let mut entries: Vec<(u64, usize)> = Vec::new();
        let mut log = wal;
        let total = log.len();
        let mut off: usize = 0;
        let ghost goal = replay(tree@.pager, wal@, 0, Seq::empty());
        assert(entries@ =~= Seq::<(u64, usize)>::empty());
        let mut done = false;
        while !done
            invariant
                tree.well_formed(),
                log@ == wal@,
                total == log@.len(),
                off <= log@.len(),
                goal == replay(pager@.set_commit(false), wal@, 0, Seq::empty()),
                !done ==> goal == replay(tree@.pager, wal@, off as nat, entries@),
                done ==> goal == (
                    tree@.pager,
                    Ok::<(nat, Seq<(u64, usize)>), StorageError>((off as nat, entries@)),
                ),
            decreases
                    log@.len() - off,
                    if done {
                        0nat
                    } else {
                        1nat
                    },
        {
            match decode_entry(&log, off) {
                Err(_) => {
                    done = true;
                },
                Ok((entry, n)) => {
                    if n < 4 {
                        done = true;
                    } else {
                        match entry {
                            LogEntry::GlobalCheckpoint => {},
                            _ => {
                                let id = match apply_entry(&mut tree, &entry) {
                                    Ok(id) => id,
                                    Err(e) => { return Err(e); },
                                };
                                entries.push((off as u64, id));
                            },
                        }
                        off = off + n;
                    }
                },
            }
        }
        log.truncate(off);
        Ok(Logger { entries, tree, wal: log })
    }

    /// The pager behind the log.
    pub fn pager(&self) -> (r: &Pager)
        ensures
            r@ == self@.pager,
    {
        self.tree.pager()
    }

    /// Selects all leaf rows present in the tree.
    pub fn select(&mut self) -> (r: Result<Vec<Row>, StorageError>)
        requires
            old(self).well_formed(),
        ensures
            final(self).well_formed(),
            final(self)@ == old(self)@.with_pager(tree_select(old(self)@.pager).0),
            match tree_select(old(self)@.pager).1 {
                Ok(rows) => r matches Ok(out) && views(out@) == rows,
                Err(e) => r == Err::<Vec<Row>, StorageError>(e),
            },
    {
        self.tree.select()
    }

    /// Returns the structure of the tree in Graphviz DOT language
    pub fn structure(&mut self) -> (r: Result<String, StorageError>)
        requires
            old(self).well_formed(),
        ensures
            final(self).well_formed(),
            final(self)@ == old(self)@.with_pager(tree_structure(old(self)@.pager).0),
            match tree_structure(old(self)@.pager).1 {
                Ok(text) => r matches Ok(out) && out@ == text,
                Err(e) => r == Err::<String, StorageError>(e),
            },
    {
        self.tree.structure()
    }

    /// Inserts rows without a value under the keys from 1 up to
    /// `quantity`; the rows do not go through the log.
    pub fn populate(&mut self, quantity: usize) -> (r: Result<(), StorageError>)
        requires
            old(self).well_formed(),
        ensures
            final(self).well_formed(),
            final(self)@ == old(self)@.with_pager(populate(old(self)@.pager, 1, quantity as nat).0),
            r == populate(old(self)@.pager, 1, quantity as nat).1,
    {
        self.tree.populate(quantity)
    }

    /// The bytes that the log file has to hold.
    pub fn wal(&self) -> (r: &Vec<u8>)
        ensures
            r@ == self@.wal,
    {
        &self.wal
    }

    /// Says what has to be done to the database file and the log file so
    /// that they hold what the logger holds: `logged` is the length of
    /// the log file, and `checkpointed` says whether a checkpoint was
    /// logged since the files were last brought up to the logger.
    pub fn to_store(&self, logged: usize, checkpointed: bool) -> (r: Storing)
        ensures
            r@ == self@.to_store(logged, checkpointed),
    {
        if checkpointed {
            Storing::Rewrite { image: self.tree.pager().file().clone(), log: self.wal.clone() }
        } else if logged > self.wal.len() {
            Storing::Cut(self.wal.len())
        } else if logged < self.wal.len() {
            Storing::Append(
                slice_to_vec(slice_subrange(self.wal.as_slice(), logged, self.wal.len())),
            )
        } else {
            Storing::Nothing
        }
    }

    /// Writes an entry to the Write-Ahead log. If a [LogEntry::GlobalCheckpoint] is
    /// logged all previous entries are applied permanently and cleared.
    pub fn log(&mut self, entry: LogEntry) -> (r: Result<(), StorageError>)
        requires
            old(self).well_formed(),
            old(self)@.wal.len() + entry@.bytes().len() <= u64::MAX,
        ensures
            final(self).well_formed(),
            (final(self)@, r) == old(self)@.log(entry@),
            entry@ == EntryView::GlobalCheckpoint ==> r is Ok && final(self)@.wal.len() == 0,
    {
        match entry {
            LogEntry::GlobalCheckpoint => {
                self.compact();
                return Ok(());
            },
            _ => {},
        }
        let id = match apply_entry(&mut self.tree, &entry) {
            Ok(id) => id,
            Err(e) => { return Err(e); },
        };
        let offset = self.wal.len() as u64;
        let bytes = match encode_entry(&entry) {
            Ok(b) => b,
            Err(e) => { return Err(e); },
        };
        put_bytes(&mut self.wal, bytes.as_slice());
        self.entries.push((offset, id));
        Ok(())
    }

    /// Flushes the pages to the file image and empties the log.
    fn compact(&mut self)
        requires
            old(self).well_formed(),
        ensures
            final(self).well_formed(),
            final(self)@ == old(self)@.compact(),
    {
        self.tree.commit(true);
        self.tree.flush();
        self.tree.commit(false);
        self.entries.clear();
        self.wal.clear();
        assert(self@.wal =~= Seq::<u8>::empty());
        assert(self@.entries =~= Seq::<(u64, usize)>::empty());
    }

    /// The changes since the last checkpoint, as they stand in the log.
    pub fn list_entries(&self) -> (r: Result<Vec<LogEntry>, StorageError>)
        ensures
            match recorded(self@.wal, self@.entries) {
                Some(entries) => r matches Ok(out) && entry_views(out@) == entries,
                None => r == Err::<Vec<LogEntry>, StorageError>(
                    StorageError::Logger { cause: LoggerError::Deserialize },
                ),
            },
    {
        let ghost all = self@.entries;
        let mut out: Vec<LogEntry> = Vec::new();
        let mut i: usize = 0;
        assert(all.subrange(0, 0) =~= Seq::<(u64, usize)>::empty());
        assert(entry_views(out@) =~= Seq::<EntryView>::empty());
        while i < self.entries.len()
            invariant
                0 <= i <= self.entries@.len(),
                all == self@.entries,
                recorded(self@.wal, all.subrange(0, i as int)) == Some(entry_views(out@)),
            decreases self.entries@.len() - i,
        {
            let ghost next = all.subrange(0, i + 1);
            assert(next.drop_last() =~= all.subrange(0, i as int));
            assert(next.last() == self.entries@[i as int]);
            let offset = self.entries[i].0;
            if offset > self.wal.len() as u64 {
                proof {
                    lemma_recorded_none(self@.wal, all, i + 1);
                }
                return Err(StorageError::Logger { cause: LoggerError::Deserialize });
            }
            let entry = match decode_entry(&self.wal, offset as usize) {
                Ok(e) => e.0,
                Err(e) => {
                    proof {
                        lemma_recorded_none(self@.wal, all, i + 1);
                    }
                    return Err(e);
                },
            };
            let ghost had = entry_views(out@);
            out.push(entry);
            assert(entry_views(out@) =~= had.push(entry@));
            i = i + 1;
        }
        assert(all.subrange(0, all.len() as int) =~= all);
        Ok(out)
    }
}

/// What each of the entries is.
pub open spec fn entry_views(entries: Seq<LogEntry>) -> Seq<EntryView> {
    Seq::new(entries.len(), |i: int| entries[i]@)
}

/// The entries that stand in the log at the recorded offsets, if an entry
/// stands at each of them.
pub open spec fn recorded(wal: Seq<u8>, entries: Seq<(u64, usize)>) -> Option<Seq<EntryView>>
    decreases entries.len(),
{
    if entries.len() == 0 {
        Some(Seq::empty())
    } else {
        match recorded(wal, entries.drop_last()) {
            None => None,
            Some(before) => if entries.last().0 > wal.len() {
                None
            } else {
                match EntryView::parse(wal.subrange(entries.last().0 as int, wal.len() as int)) {
                    None => None,
                    Some((entry, n)) => Some(before.push(entry)),
                }
            },
        }
    }
}

/// Where the first offsets hold no entries, all the offsets hold none.
pub proof fn lemma_recorded_none(wal: Seq<u8>, entries: Seq<(u64, usize)>, n: int)
    requires
        0 <= n <= entries.len(),
        recorded(wal, entries.subrange(0, n)) is None,
    ensures
        recorded(wal, entries) is None,
    decreases entries.len() - n,
{
    if n < entries.len() {
        assert(entries.subrange(0, n + 1).drop_last() =~= entries.subrange(0, n));
        lemma_recorded_none(wal, entries, n + 1);
    } else {
        assert(entries.subrange(0, n) =~= entries);
    }
}

/// An entry is read from the front of bytes, whatever follows them.
pub proof fn lemma_entry_prefix(b: Seq<u8>, rest: Seq<u8>)
    requires
        EntryView::parse(b) is Some,
    ensures
        EntryView::parse(b + rest) == EntryView::parse(b),
{
    let whole = b + rest;
    assert(whole.subrange(0, 4) =~= b.subrange(0, 4));
    if be_value(b.subrange(0, 4)) != 3 {
        assert(whole.subrange(4, 12) =~= b.subrange(4, 12));
        let n = be_value(b.subrange(4, 12));
        assert(whole.subrange(12, (12 + n) as int) =~= b.subrange(12, (12 + n) as int));
    }
}

/// A replay ends within the log.
pub proof fn lemma_replay_end(s: PagerView, wal: Seq<u8>, off: nat, entries: Seq<(u64, usize)>)
    requires
        off <= wal.len(),
    ensures
        replay(s, wal, off, entries).1 matches Ok(out) ==> off <= out.0 <= wal.len(),
    decreases wal.len() - off,
{
    match EntryView::parse(wal.subrange(off as int, wal.len() as int)) {
        None => {},
        Some((entry, n)) => {
            if n < 4 || off + n > wal.len() {
            } else if entry == EntryView::GlobalCheckpoint {
                lemma_replay_end(s, wal, off + n, entries);
            } else {
                let (s1, r) = apply(s, entry);
                match r {
                    Err(e) => {},
                    Ok(id) => {
                        lemma_replay_end(s1, wal, off + n, entries.push((off as u64, id)));
                    },
                }
            }
        },
    }
}

/// Replaying a log that was replayed to its end, with one more change
/// behind it, gives what applying the change to the result of the replay
/// gives.
pub proof fn lemma_replay_append(
    s: PagerView,
    wal: Seq<u8>,
    off: nat,
    entries: Seq<(u64, usize)>,
    e: EntryView,
)
    requires
        off <= wal.len() <= u64::MAX,
        replay(s, wal, off, entries).1 matches Ok(out) && out.0 == wal.len(),
        e.payload() matches Some(b) && b.len() <= u64::MAX,
        apply(replay(s, wal, off, entries).0, e).1 is Ok,
    ensures
        replay(s, wal + e.bytes(), off, entries) == (
            apply(replay(s, wal, off, entries).0, e).0,
            Ok::<(nat, Seq<(u64, usize)>), StorageError>(
                (
                    (wal + e.bytes()).len(),
                    (replay(s, wal, off, entries).1->Ok_0).1.push(
                        (wal.len() as u64, apply(replay(s, wal, off, entries).0, e).1->Ok_0),
                    ),
                ),
            ),
        ),
    decreases wal.len() - off,
{
    let longer = wal + e.bytes();
    let tail = wal.subrange(off as int, wal.len() as int);
    let long_tail = longer.subrange(off as int, longer.len() as int);
    assert(long_tail =~= tail + e.bytes());
    lemma_entry_len(e);
    if off == wal.len() {
        assert(tail.len() == 0);
        assert(EntryView::parse(tail) is None);
        assert(replay(s, wal, off, entries) == (
            s,
            Ok::<(nat, Seq<(u64, usize)>), StorageError>((off, entries)),
        ));
        assert(long_tail =~= e.bytes() + Seq::<u8>::empty());
        lemma_entry_round_trip(e, Seq::empty());
        let n = e.bytes().len();
        assert(EntryView::parse(long_tail) == Some((e, n)));
        let (s1, r) = apply(s, e);
        let id = r->Ok_0;
        let after = entries.push((off as u64, id));
        let end = (off + n) as nat;
        assert(replay(s, longer, off, entries) == replay(s1, longer, end, after));
        assert(longer.subrange(end as int, longer.len() as int).len() == 0);
        assert(EntryView::parse(longer.subrange(end as int, longer.len() as int)) is None);
        assert(replay(s1, longer, end, after) == (
            s1,
            Ok::<(nat, Seq<(u64, usize)>), StorageError>((end, after)),
        ));
    } else {
        match EntryView::parse(tail) {
            None => {
                assert(replay(s, wal, off, entries) == (
                    s,
                    Ok::<(nat, Seq<(u64, usize)>), StorageError>((off, entries)),
                ));
            },
            Some((entry, n)) => {
                lemma_entry_prefix(tail, e.bytes());
                assert(EntryView::parse(long_tail) == Some((entry, n)));
                if n < 4 || off + n > wal.len() {
                    assert(replay(s, wal, off, entries) == (
                        s,
                        Ok::<(nat, Seq<(u64, usize)>), StorageError>((off, entries)),
                    ));
                } else if entry == EntryView::GlobalCheckpoint {
                    assert(replay(s, wal, off, entries) == replay(s, wal, off + n, entries));
                    assert(replay(s, longer, off, entries) == replay(
                        s,
                        longer,
                        off + n,
                        entries,
                    ));
                    lemma_replay_append(s, wal, off + n, entries, e);
                } else {
                    let (s1, r) = apply(s, entry);
                    match r {
                        Err(_) => {
                            assert(replay(s, wal, off, entries).1 is Err);
                        },
                        Ok(id) => {
                            let after = entries.push((off as u64, id));
                            assert(replay(s, wal, off, entries) == replay(
                                s1,
                                wal,
                                off + n,
                                after,
                            ));
                            assert(replay(s, longer, off, entries) == replay(
                                s1,
                                longer,
                                off + n,
                                after,
                            ));
                            lemma_replay_append(s1, wal, off + n, after, e);
                        },
                    }
                }
            },
        }
    }
}

/// A logger that is opened again on the log that it wrote is the logger
/// that wrote it: where a logger was opened on a log of whole entries and
/// a change was logged, opening a logger on the log as it then is, and on
/// the same pager, gives the same tree, the same log and the same record
/// of changes.
pub proof fn lemma_reopen(wal: Seq<u8>, pager: PagerView, e: EntryView)
    requires
        wal.len() <= u64::MAX,
        LoggerView::open(wal, pager) matches Ok(lv) && lv.wal == wal && lv.log(e).1 is Ok,
        e.payload() matches Some(b) && b.len() <= u64::MAX,
    ensures
        LoggerView::open(wal + e.bytes(), pager) == Ok::<LoggerView, StorageError>(
            (LoggerView::open(wal, pager)->Ok_0).log(e).0,
        ),
{
    let start = pager.set_commit(false);
    let none = Seq::<(u64, usize)>::empty();
    lemma_replay_end(start, wal, 0, none);
    let good = (replay(start, wal, 0, none).1->Ok_0).0;
    assert(wal.subrange(0, good as int).len() == good);
    lemma_replay_append(start, wal, 0, none, e);
    let longer = wal + e.bytes();
    assert(longer.subrange(0, longer.len() as int) =~= longer);
}

/// The logger after the changes were logged one after the other.
pub open spec fn logged_all(lv: LoggerView, changes: Seq<EntryView>) -> LoggerView
    decreases changes.len(),
{
    if changes.len() == 0 {
        lv
    } else {
        logged_all(lv, changes.drop_last()).log(changes.last()).0
    }
}

/// Every one of the changes carries a row and is taken by the logger.
pub open spec fn all_taken(lv: LoggerView, changes: Seq<EntryView>) -> bool
    decreases changes.len(),
{
    changes.len() == 0 || {
        &&& all_taken(lv, changes.drop_last())
        &&& changes.last().payload() matches Some(b) && b.len() <= u64::MAX
        &&& logged_all(lv, changes.drop_last()).log(changes.last()).1 is Ok
    }
}

/// The bytes of the entries, one after the other.
pub open spec fn entries_bytes(changes: Seq<EntryView>) -> Seq<u8>
    decreases changes.len(),
{
    if changes.len() == 0 {
        Seq::empty()
    } else {
        entries_bytes(changes.drop_last()) + changes.last().bytes()
    }
}

/// Opening a logger on a log replays it: where a logger was opened on a
/// log of whole entries and changes were logged one after the other, the
/// log holds the entries of the changes behind what it held, and opening a
/// logger on that log and on the same pager gives the logger that took the
/// changes, with the same tree, the same log and the same record of
/// changes.
pub proof fn lemma_reopen_all(wal: Seq<u8>, pager: PagerView, changes: Seq<EntryView>)
    requires
        (wal + entries_bytes(changes)).len() <= u64::MAX,
        LoggerView::open(wal, pager) matches Ok(lv) && lv.wal == wal && all_taken(lv, changes),
    ensures
        logged_all(LoggerView::open(wal, pager)->Ok_0, changes).wal == wal + entries_bytes(
            changes,
        ),
        LoggerView::open(wal + entries_bytes(changes), pager) == Ok::<LoggerView, StorageError>(
            logged_all(LoggerView::open(wal, pager)->Ok_0, changes),
        ),
    decreases changes.len(),
{
    let lv = LoggerView::open(wal, pager)->Ok_0;
    if changes.len() == 0 {
        assert(wal + entries_bytes(changes) =~= wal);
    } else {
        let init = changes.drop_last();
        let e = changes.last();
        let mid = wal + entries_bytes(init);
        assert(wal + entries_bytes(changes) =~= mid + e.bytes());
        lemma_reopen_all(wal, pager, init);
        lemma_reopen(mid, pager, e);
    }
}

/// The log file after what has to be stored was carried out.
pub open spec fn log_file_after(file: Seq<u8>, storing: StoringView) -> Seq<u8> {
    match storing {
        StoringView::Nothing => file,
        StoringView::Append(bytes) => file + bytes,
        StoringView::Cut(len) => file.subrange(0, len as int),
        StoringView::Rewrite { image, log } => log,
    }
}

/// Carrying out what has to be stored brings the log file up to the log:
/// a log file that held the beginning of the log, or the log and more
/// behind it, holds the log afterwards.
pub proof fn lemma_stored_log(lv: LoggerView, file: Seq<u8>, checkpointed: bool)
    requires
        file.len() <= usize::MAX,
        file.len() <= lv.wal.len() ==> file == lv.wal.subrange(0, file.len() as int),
        file.len() > lv.wal.len() ==> lv.wal.len() <= usize::MAX && lv.wal == file.subrange(
            0,
            lv.wal.len() as int,
        ),
    ensures
        log_file_after(file, lv.to_store(file.len() as usize, checkpointed)) == lv.wal,
{
    let after = log_file_after(file, lv.to_store(file.len() as usize, checkpointed));
    assert(after =~= lv.wal);
}

/// What is stored after a checkpoint: the database file takes an image
/// that holds the metadata of the pager and every page that was cached as
/// it was cached, and the log file is left empty.
pub proof fn lemma_checkpoint_stores(lv: LoggerView, logged: usize, id: usize)
    requires
        lv.pager.well_formed(),
    ensures
        lv.compact().to_store(logged, true) == (StoringView::Rewrite {
            image: lv.compact().pager.file,
            log: Seq::empty(),
        }),
        lv.compact().pager.meta == lv.pager.meta,
        file_page(lv.compact().pager.file, 0) == Some(lv.pager.meta.bytes()),
        MetaView::parse(file_page(lv.compact().pager.file, 0)->0) == Some(lv.pager.meta),
        id != 0 && lv.pager.cache.contains_key(id) ==> file_page(lv.compact().pager.file, id)
            == Some(lv.pager.cache[id]),
{
    let p = lv.pager.set_commit(true);
    lemma_flush_persists(p, id);
}

} // verus!
