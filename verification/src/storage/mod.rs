//! The storage substrate: records, pages, the pager, the B-Tree and the
//! write-ahead log, in dependency order.
//!
//! `row`, `page` and `pager` hold the byte layouts and prove that what was
//! encoded is decoded again; `btree` states every operation of the tree as
//! a function of the pager's state; `shape` says what a well-formed tree
//! is and proves what a descent, an insert and a select do in one;
//! `growth` and `shrink` prove that the split and the merge of leaves keep
//! the tree well formed; `inner` says what the split of an internal page,
//! and of an internal root, does to the pages; `laws` draws the
//! consequences for updates, deletes and sequences of inserts; `log`
//! proves that a log that is opened again gives the tree that wrote it.
use vstd::prelude::*;
use crate::command::Command;
use crate::statement::Statement;
use crate::text::push_text;

pub mod btree;
pub mod codec;
pub mod growth;
pub mod inner;
pub mod laws;
pub mod log;
pub mod page;
pub mod pager;
pub mod row;
pub mod shape;
pub mod shrink;

pub use row::Row;

verus! {

/// Why an operation on a single page was refused.
#[derive(Debug, Clone, Copy, PartialEq, Eq, Structural)]
pub enum PageError {
    /// The row does not fit into the space that is left in the page body.
    Full,
    /// No row of the page carries the key.
    MissingKey,
    /// A row of the page already carries the key.
    Duplicate,
    /// The bytes do not describe a page.
    Corrupt,
}

/// Why the pager refused an operation.
#[derive(Debug, Clone, Copy, PartialEq, Eq, Structural)]
pub enum PagerError {
    /// The bytes of the page are neither cached nor present in the file.
    Io,
    /// The page id is neither below the page count nor on the free list.
    OutOfBounds,
    /// The cache no longer satisfies its own invariant.
    PoisonedState,
    /// The metadata page does not describe an allocator state.
    Corrupt,
    /// No further page can be allocated, or the free list is full.
    Exhausted,
}

/// Why the write-ahead log refused an operation.
#[derive(Debug, Clone, Copy, PartialEq, Eq, Structural)]
pub enum LoggerError {
    /// The log file could not be read or written.
    Io,
    /// An entry could not be encoded.
    Serialize,
    /// The bytes do not start with an encoded entry.
    Deserialize,
}

/// The tree operation during which an engine error came up.
#[derive(Debug, Clone, Copy, PartialEq, Eq, Structural)]
pub enum EngineAction {
    Insert,
    Split,
    Merge,
    Execute,
}

/// Every error the storage layer reports.
#[allow(inconsistent_fields)]
#[derive(Debug, Clone, Copy, PartialEq, Eq, Structural)]
pub enum StorageError {
    Page { cause: PageError },
    Pager { cause: PagerError },
    Logger { cause: LoggerError },
    Engine { action: EngineAction, cause: PageError },
}

impl PageError {
    /// The text that describes the error.
    pub open spec fn message(self) -> Seq<char> {
        match self {
            PageError::Full => "out of space"@,
            PageError::MissingKey => "key does not exist"@,
            PageError::Duplicate => "duplicate row"@,
            PageError::Corrupt => "corrupt page"@,
        }
    }

    /// The text that describes the error.
    pub fn text(self) -> (r: &'static str)
        ensures
            r@ == self.message(),
    {
        match self {
            PageError::Full => "out of space",
            PageError::MissingKey => "key does not exist",
            PageError::Duplicate => "duplicate row",
            PageError::Corrupt => "corrupt page",
        }
    }
}

impl PagerError {
    /// The text that describes the error.
    pub open spec fn message(self) -> Seq<char> {
        match self {
            PagerError::Io => "io error"@,
            PagerError::OutOfBounds => "page out of bounds"@,
            PagerError::PoisonedState => "poisoned state"@,
            PagerError::Corrupt => "corrupt metadata"@,
            PagerError::Exhausted => "out of pages"@,
        }
    }

    /// The text that describes the error.
    pub fn text(self) -> (r: &'static str)
        ensures
            r@ == self.message(),
    {
        match self {
            PagerError::Io => "io error",
            PagerError::OutOfBounds => "page out of bounds",
            PagerError::PoisonedState => "poisoned state",
            PagerError::Corrupt => "corrupt metadata",
            PagerError::Exhausted => "out of pages",
        }
    }
}

impl LoggerError {
    /// The text that describes the error.
    pub open spec fn message(self) -> Seq<char> {
        match self {
            LoggerError::Io => "io error"@,
            LoggerError::Serialize => "failed to encode entry"@,
            LoggerError::Deserialize => "failed to decode entry"@,
        }
    }

    /// The text that describes the error.
    pub fn text(self) -> (r: &'static str)
        ensures
            r@ == self.message(),
    {
        match self {
            LoggerError::Io => "io error",
            LoggerError::Serialize => "failed to encode entry",
            LoggerError::Deserialize => "failed to decode entry",
        }
    }
}

impl EngineAction {
    /// The name of the operation.
    pub open spec fn message(self) -> Seq<char> {
        match self {
            EngineAction::Insert => "insert"@,
            EngineAction::Split => "split"@,
            EngineAction::Merge => "merge"@,
            EngineAction::Execute => "execute"@,
        }
    }

    /// The name of the operation.
    pub fn text(self) -> (r: &'static str)
        ensures
            r@ == self.message(),
    {
        match self {
            EngineAction::Insert => "insert",
            EngineAction::Split => "split",
            EngineAction::Merge => "merge",
            EngineAction::Execute => "execute",
        }
    }
}

impl StorageError {
    /// The text that describes the error.
    pub open spec fn message(self) -> Seq<char> {
        match self {
            StorageError::Page { cause } => "page error: "@ + cause.message(),
            StorageError::Pager { cause } => "paging error: "@ + cause.message(),
            StorageError::Logger { cause } => "logger error: "@ + cause.message(),
            StorageError::Engine { action, cause } => "engine error during "@ + action.message()
                + ": "@ + cause.message(),
        }
    }

    /// The text that describes the error.
    pub fn describe(&self) -> (r: String)
        ensures
            r@ == self.message(),
    {
        let mut out = String::new();
        match self {
            StorageError::Page { cause } => {
                push_text(&mut out, "page error: ");
                push_text(&mut out, cause.text());
            },
            StorageError::Pager { cause } => {
                push_text(&mut out, "paging error: ");
                push_text(&mut out, cause.text());
            },
            StorageError::Logger { cause } => {
                push_text(&mut out, "logger error: ");
                push_text(&mut out, cause.text());
            },
            StorageError::Engine { action, cause } => {
                push_text(&mut out, "engine error during ");
                push_text(&mut out, action.text());
                push_text(&mut out, ": ");
                push_text(&mut out, cause.text());
            },
        }
        assert(out@ =~= self.message());
        out
    }
}

/// `StorageEngine` defines the interface through which higher-level components
/// (such as DSL statements or CLI commands) interact with the storage layer.
/// What an operation has to show to the user is its result.
pub trait StorageEngine {
    /// The engine can take an operation.
    spec fn ready(&self) -> bool;

    /// Carries out a command.
    fn execute(&mut self, command: Command) -> (r: Result<Option<String>, StorageError>)
        requires
            old(self).ready(),
        ensures
            final(self).ready(),
    ;

    /// Carries out a statement.
    fn evaluate_statement(&mut self, statement: Statement) -> (r: Result<
        Option<String>,
        StorageError,
    >)
        requires
            old(self).ready(),
        ensures
            final(self).ready(),
    ;
}

} // verus!
