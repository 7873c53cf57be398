use cryo::protocol::request::QueryKind;
use cryo::protocol::response::ResponseError;
use cryo::protocol::{handle_request, Request, Response};
use cryo::storage::log::Logger;
use cryo::storage::pager::Pager;
use cryo::storage::row::{Row, RowType};
use cryo::{Command, Statement};

fn open() -> Logger {
    Logger::open(Vec::new(), Pager::open(Vec::new()).unwrap()).unwrap()
}

fn query(kind: QueryKind, row: &Row) -> Request {
    Request::Query { kind, row: row.as_bytes() }
}

#[test]
fn query_statement_command() {
    let statement = Statement::Insert { id: 0, username: vec![], email: vec![] };
    let command = Command::Statement(statement.clone());
    let row: Row = statement.into();
    let request: Request = command.into();

    assert_eq!(request, Request::Query { kind: QueryKind::Insert, row: row.as_bytes() })
}

#[test]
fn request_exit_command() {
    let command = Command::Exit;
    let request: Request = command.into();

    assert_eq!(request, Request::CloseConnection)
}

#[test]
fn request_populate_command() {
    let command = Command::Populate(1);
    let request: Request = command.into();

    assert_eq!(request, Request::Populate(1))
}

#[test]
fn request_structure_command() {
    let command = Command::Structure(None);
    let request: Request = command.into();

    assert_eq!(request, Request::PrintStructure)
}

#[test]
fn request_kinds_follow_the_statement() {
    let kinds = vec![
        (Statement::Select, QueryKind::Select),
        (Statement::Delete { id: 3 }, QueryKind::Delete),
        (Statement::Update { id: 3, username: vec!['a'], email: vec![] }, QueryKind::Update),
    ];
    for (statement, kind) in kinds {
        let row: Row = statement.clone().into();
        let request: Request = Command::Statement(statement).into();
        assert_eq!(request, Request::Query { kind, row: row.as_bytes() });
    }
    let request: Request = Command::Ping.into();
    assert_eq!(request, Request::Ping);
}

#[test]
fn server_answers_ping_and_close() {
    let mut logger = open();
    assert_eq!(handle_request(&mut logger, Request::Ping), Response::Pong);
    assert_eq!(handle_request(&mut logger, Request::CloseConnection), Response::ConnectionClosed);
}

#[test]
fn server_logs_changes_and_answers_queries() {
    let mut logger = open();
    let mut one = Row::new(1, RowType::Leaf);
    one.set_value(&[1]);
    let two = Row::new(2, RowType::Leaf);

    assert_eq!(handle_request(&mut logger, query(QueryKind::Insert, &two)), Response::StateChanged);
    assert_eq!(handle_request(&mut logger, query(QueryKind::Insert, &one)), Response::StateChanged);
    assert_eq!(logger.list_entries().unwrap().len(), 2);

    let mut rows = one.as_bytes();
    rows.extend_from_slice(&two.as_bytes());
    let select = query(QueryKind::Select, &Row::new(0, RowType::Leaf));
    assert_eq!(handle_request(&mut logger, select), Response::Query { rows });

    one.set_value(&[5, 6]);
    assert_eq!(handle_request(&mut logger, query(QueryKind::Update, &one)), Response::StateChanged);
    assert_eq!(handle_request(&mut logger, query(QueryKind::Delete, &two)), Response::StateChanged);
    let select = query(QueryKind::Select, &Row::new(0, RowType::Leaf));
    assert_eq!(handle_request(&mut logger, select), Response::Query { rows: one.as_bytes() });
    assert_eq!(logger.list_entries().unwrap().len(), 4);
}

#[test]
fn server_turns_errors_into_responses() {
    let mut logger = open();
    let row = Row::new(1, RowType::Leaf);
    handle_request(&mut logger, query(QueryKind::Insert, &row));
    assert_eq!(
        handle_request(&mut logger, query(QueryKind::Insert, &row)),
        Response::Error {
            code: ResponseError::Query,
            description: String::from("engine error during insert: duplicate row"),
        }
    );
    assert_eq!(
        handle_request(&mut logger, query(QueryKind::Delete, &Row::new(9, RowType::Leaf))),
        Response::Error {
            code: ResponseError::Query,
            description: String::from("page error: key does not exist"),
        }
    );
    assert_eq!(
        handle_request(&mut logger, Request::Query { kind: QueryKind::Select, row: vec![1, 2] }),
        Response::Error {
            code: ResponseError::Read,
            description: String::from("page error: corrupt page"),
        }
    );
    assert_eq!(logger.list_entries().unwrap().len(), 1);
}

#[test]
fn server_populates_and_prints_the_structure() {
    let mut logger = open();
    assert_eq!(handle_request(&mut logger, Request::Populate(2)), Response::StateChanged);
    assert_eq!(logger.wal().len(), 0);
    assert_eq!(logger.select().unwrap().len(), 2);
    assert_eq!(
        handle_request(&mut logger, Request::PrintStructure),
        Response::Structure {
            out: String::from("digraph {\n    edge [style=\"dashed\"]\n   1 -> 1\n}")
        }
    );
    assert_eq!(
        handle_request(&mut logger, Request::Populate(2)),
        Response::Error {
            code: ResponseError::Command,
            description: String::from("engine error during insert: duplicate row"),
        }
    );
}
