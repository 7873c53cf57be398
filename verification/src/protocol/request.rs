//! What a client asks of the server.
use vstd::prelude::*;
use vstd::std_specs::convert::FromSpecImpl;
use crate::command::{Command, CommandView};
use crate::statement::{Statement, StatementView};
use crate::storage::row::Row;

verus! {

/// The kind of statement that a query carries.
#[derive(Debug, Clone, Copy, PartialEq, Eq, Structural)]
pub enum QueryKind {
    Select,
    Insert,
    Delete,
    Update,
}

/// What a client asks of the server.
#[derive(Debug, PartialEq, Eq)]
pub enum Request {
    Query { kind: QueryKind, row: Vec<u8> },
    CloseConnection,
    Populate(usize),
    PrintStructure,
    Ping,
}

/// What a request is.
pub enum RequestView {
    Query { kind: QueryKind, row: Seq<u8> },
    CloseConnection,
    Populate(usize),
    PrintStructure,
    Ping,
}

impl View for Request {
    type V = RequestView;

    open spec fn view(&self) -> RequestView {
        match self {
            Request::Query { kind, row } => RequestView::Query { kind: *kind, row: row@ },
            Request::CloseConnection => RequestView::CloseConnection,
            Request::Populate(n) => RequestView::Populate(*n),
            Request::PrintStructure => RequestView::PrintStructure,
            Request::Ping => RequestView::Ping,
        }
    }
}

impl StatementView {
    /// The kind of query that carries the statement.
    pub open spec fn kind(self) -> QueryKind {
        match self {
            StatementView::Insert { .. } => QueryKind::Insert,
            StatementView::Update { .. } => QueryKind::Update,
            StatementView::Select => QueryKind::Select,
            StatementView::Delete { .. } => QueryKind::Delete,
        }
    }
}

impl CommandView {
    /// The request that carries the command: a statement goes as a query
    /// with the bytes of its row.
    pub open spec fn request(self) -> RequestView {
        match self {
            CommandView::Statement(s) => RequestView::Query { kind: s.kind(), row: s.row().bytes() },
            CommandView::Exit => RequestView::CloseConnection,
            CommandView::Populate(n) => RequestView::Populate(n),
            CommandView::Structure(_) => RequestView::PrintStructure,
            CommandView::Ping => RequestView::Ping,
        }
    }
}

impl From<Command> for Request {
    fn from(value: Command) -> (r: Self)
        ensures
            r@ == value@.request(),
    {
        match value {
            Command::Statement(statement) => {
                let kind = match statement {
                    Statement::Insert { .. } => QueryKind::Insert,
                    Statement::Update { .. } => QueryKind::Update,
                    Statement::Select => QueryKind::Select,
                    Statement::Delete { .. } => QueryKind::Delete,
                };
                let row: Row = Row::from(statement);
                Request::Query { kind, row: row.as_bytes() }
            },
            Command::Exit => Request::CloseConnection,
            Command::Populate(i) => Request::Populate(i),
            Command::Structure(_) => Request::PrintStructure,
            Command::Ping => Request::Ping,
        }
    }
}

impl FromSpecImpl<Command> for Request {
    open spec fn obeys_from_spec() -> bool {
        false
    }

    open spec fn from_spec(v: Command) -> Self {
        arbitrary()
    }
}

} // verus!
