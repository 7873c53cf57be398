use cryo::protocol::{handle_request, Request, Response};
use cryo::statement::print_row;
use cryo::storage::log::{LogEntry, Logger};
use cryo::storage::pager::Pager;
use cryo::storage::row::Row;
use cryo::Command;

fn open(wal: Vec<u8>, file: Vec<u8>) -> Logger {
    Logger::open(wal, Pager::open(file).unwrap()).unwrap()
}

fn run(logger: &mut Logger, line: &str) -> Response {
    let command = Command::parse(line).unwrap();
    handle_request(logger, Request::from(command))
}

fn lines(response: Response) -> Vec<String> {
    let mut rows = match response {
        Response::Query { rows } => rows,
        other => panic!("no rows: {other:?}"),
    };
    let mut out = Vec::new();
    while !rows.is_empty() {
        let row = Row::try_from(rows.as_slice()).unwrap();
        rows.drain(0..row.as_bytes().len());
        out.push(print_row(&row));
    }
    out
}

#[test]
fn scenario_basic_round_trip() {
    let mut logger = open(Vec::new(), Vec::new());
    assert_eq!(run(&mut logger, "insert 1 a a@x"), Response::StateChanged);
    assert_eq!(run(&mut logger, "insert 2 b b@x"), Response::StateChanged);
    assert_eq!(lines(run(&mut logger, "select")), vec!["1,a,a@x", "2,b,b@x"]);

    logger.log(LogEntry::GlobalCheckpoint).unwrap();
    let wal = logger.wal().clone();
    let file = logger.pager().file().clone();
    assert!(wal.is_empty());
    drop(logger);

    let mut logger = open(wal, file);
    assert_eq!(lines(run(&mut logger, "select")), vec!["1,a,a@x", "2,b,b@x"]);
}

#[test]
fn scenario_crash_recovery() {
    let mut logger = open(Vec::new(), Vec::new());
    assert_eq!(run(&mut logger, "insert 42 x x@y"), Response::StateChanged);
    let wal = logger.wal().clone();
    let file = logger.pager().file().clone();
    drop(logger);

    let mut logger = open(wal, file);
    assert_eq!(lines(run(&mut logger, "select")), vec!["42,x,x@y"]);
}

#[test]
fn scenario_update_and_delete_over_the_wire() {
    let mut logger = open(Vec::new(), Vec::new());
    run(&mut logger, "insert 1 a a@x");
    run(&mut logger, "insert 2 b b@x");
    assert_eq!(run(&mut logger, "update 1 anna anna@x"), Response::StateChanged);
    assert_eq!(run(&mut logger, "delete 2"), Response::StateChanged);
    assert_eq!(lines(run(&mut logger, "select")), vec!["1,anna,anna@x"]);
    assert_eq!(run(&mut logger, ".ping"), Response::Pong);
    assert_eq!(run(&mut logger, ".exit"), Response::ConnectionClosed);
}

#[test]
fn scenario_checkpoints_in_between_change_nothing() {
    let mut plain = open(Vec::new(), Vec::new());
    let mut checked = open(Vec::new(), Vec::new());
    for i in 1..=300usize {
        let line = format!("insert {} u{} m{}@x", (i * 37) % 1000, i, i);
        assert_eq!(run(&mut plain, &line), run(&mut checked, &line));
        if i % 50 == 0 {
            checked.log(LogEntry::GlobalCheckpoint).unwrap();
        }
    }
    let expected = lines(run(&mut plain, "select"));
    assert_eq!(lines(run(&mut checked, "select")), expected);

    let wal = checked.wal().clone();
    let file = checked.pager().file().clone();
    let mut again = open(wal, file);
    assert_eq!(lines(run(&mut again, "select")), expected);

    let wal = plain.wal().clone();
    let mut replayed = open(wal, Vec::new());
    assert_eq!(lines(run(&mut replayed, "select")), expected);
}
