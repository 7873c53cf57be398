//! What the server answers to a request.
//!
//! Changes go through the log; reads, the structure and test data go to
//! the tree directly. Every error becomes a response, so that the
//! connection stays open.
use vstd::prelude::*;
use crate::protocol::request::{QueryKind, Request, RequestView};
use crate::protocol::response::{Response, ResponseError, ResponseView};
use crate::storage::btree::{corrupt, populate, tree_select, tree_structure};
use crate::storage::codec::put_bytes;
use crate::storage::log::{lemma_entry_len, EntryView, LogEntry, Logger, LoggerView};
use crate::storage::page::{rows_bytes, views};
use crate::storage::row::{lemma_row_round_trip, Row, RowView};
use crate::storage::{LoggerError, StorageError};

verus! {

/// The response for an error.
pub open spec fn failure(code: ResponseError, e: StorageError) -> ResponseView {
    ResponseView::Error { code, description: e.message() }
}

/// The log entry that a query of the kind makes of a row.
pub open spec fn entry_of(kind: QueryKind, row: RowView) -> EntryView {
    match kind {
        QueryKind::Insert => EntryView::Insert(row.bytes()),
        QueryKind::Update => EntryView::Update(row.bytes()),
        _ => EntryView::Delete(row.bytes()),
    }
}

/// What a query that changes the tree does, and the answer to it: the
/// change is logged, unless the log cannot grow by the entry.
pub open spec fn change(lv: LoggerView, kind: QueryKind, row: RowView) -> (LoggerView, ResponseView) {
    if lv.wal.len() + 12 + row.size() > usize::MAX {
        (lv, failure(ResponseError::Query, StorageError::Logger { cause: LoggerError::Serialize }))
    } else {
        let (after, r) = lv.log(entry_of(kind, row));
        match r {
            Ok(_) => (after, ResponseView::StateChanged),
            Err(e) => (after, failure(ResponseError::Query, e)),
        }
    }
}

/// What a request does to the logger, and the answer to it.
pub open spec fn answer(lv: LoggerView, request: RequestView) -> (LoggerView, ResponseView) {
    match request {
        RequestView::CloseConnection => (lv, ResponseView::ConnectionClosed),
        RequestView::Ping => (lv, ResponseView::Pong),
        RequestView::PrintStructure => {
            let (s1, r) = tree_structure(lv.pager);
            match r {
                Ok(text) => (lv.with_pager(s1), ResponseView::Structure { out: text }),
                Err(e) => (lv.with_pager(s1), failure(ResponseError::Command, e)),
            }
        },
        RequestView::Populate(n) => {
            let (s1, r) = populate(lv.pager, 1, n as nat);
            match r {
                Ok(_) => (lv.with_pager(s1), ResponseView::StateChanged),
                Err(e) => (lv.with_pager(s1), failure(ResponseError::Command, e)),
            }
        },
        RequestView::Query { kind, row } => match RowView::parse(row) {
            None => (lv, failure(ResponseError::Read, corrupt())),
            Some(rv) => if kind == QueryKind::Select {
                let (s1, r) = tree_select(lv.pager);
                match r {
                    Ok(rows) => (lv.with_pager(s1), ResponseView::Query { rows: rows_bytes(rows) }),
                    Err(e) => (lv.with_pager(s1), failure(ResponseError::Query, e)),
                }
            } else {
                change(lv, kind, rv)
            },
        },
    }
}

/// The response for an error.
fn fail(code: ResponseError, e: StorageError) -> (r: Response)
    ensures
        r@ == failure(code, e),
{
    Response::Error { code, description: e.describe() }
}

/// The bytes of the rows, one row after the other.
pub fn rows_to_bytes(rows: &Vec<Row>) -> (r: Vec<u8>)
    ensures
        r@ == rows_bytes(views(rows@)),
{
    let ghost v = views(rows@);
    let mut out: Vec<u8> = Vec::new();
    let mut i: usize = 0;
    assert(v.subrange(0, 0) =~= Seq::<RowView>::empty());
    while i < rows.len()
        invariant
            0 <= i <= rows@.len(),
            v == views(rows@),
            out@ == rows_bytes(v.subrange(0, i as int)),
        decreases rows@.len() - i,
    {
        let ghost next = v.subrange(0, i + 1);
        assert(next.drop_last() =~= v.subrange(0, i as int));
        assert(next.last() == rows@[i as int]@);
        let bytes = rows[i].as_bytes();
        put_bytes(&mut out, bytes.as_slice());
        i = i + 1;
    }
    assert(v.subrange(0, v.len() as int) =~= v);
    out
}

/// Logs the change that a query asks for.
fn handle_change(logger: &mut Logger, kind: QueryKind, row: Row) -> (r: Response)
    requires
        old(logger).well_formed(),
        kind != QueryKind::Select,
    ensures
        final(logger).well_formed(),
        (final(logger)@, r@) == change(old(logger)@, kind, row@),
{
    let bytes = row.as_bytes();
    let size = row.size();
    assert(entry_of(kind, row@).bytes().len() == 12 + row@.size()) by {
        lemma_row_round_trip(row@, Seq::empty());
        lemma_entry_len(entry_of(kind, row@));
    }
    if size > usize::MAX - 12 || logger.wal().len() > usize::MAX - 12 - size {
        return fail(
            ResponseError::Query,
            StorageError::Logger { cause: LoggerError::Serialize },
        );
    }
    let entry = match kind {
        QueryKind::Insert => LogEntry::Insert(bytes),
        QueryKind::Update => LogEntry::Update(bytes),
        _ => LogEntry::Delete(bytes),
    };
    match logger.log(entry) {
        Ok(_) => Response::StateChanged,
        Err(e) => fail(ResponseError::Query, e),
    }
}

/// Carries out a request and gives the answer to it.
pub fn handle_request(logger: &mut Logger, request: Request) -> (r: Response)
    requires
        old(logger).well_formed(),
    ensures
        final(logger).well_formed(),
        (final(logger)@, r@) == answer(old(logger)@, request@),
{
    match request {
        Request::CloseConnection => Response::ConnectionClosed,
        Request::Ping => Response::Pong,
        Request::PrintStructure => {
            match logger.structure() {
                Ok(structure) => Response::Structure { out: structure },
                Err(e) => fail(ResponseError::Command, e),
            }
        },
        Request::Populate(size) => {
            match logger.populate(size) {
                Ok(_) => Response::StateChanged,
                Err(e) => fail(ResponseError::Command, e),
            }
        },
        Request::Query { kind, row } => {
            let parsed = match Row::decode(row.as_slice()) {
                Ok(row) => row,
                Err(e) => { return fail(ResponseError::Read, e); },
            };
            match kind {
                QueryKind::Select => {
                    match logger.select() {
                        Ok(rows) => Response::Query { rows: rows_to_bytes(&rows) },
                        Err(e) => fail(ResponseError::Query, e),
                    }
                },
                _ => handle_change(logger, kind, parsed),
            }
        },
    }
}

} // verus!
