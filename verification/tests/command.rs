use cryo::command::{parse_trimmed, CommandError};
use cryo::{Command, Statement};

fn message(input: &str) -> String {
    Command::parse(input).unwrap_err().message()
}

#[test]
fn command_from_string() {
    let inputs = vec![
        (".exit", Command::Exit),
        (".structure", Command::Structure(None)),
        (".populate 10", Command::Populate(10)),
        ("select", Command::Statement(Statement::Select)),
    ];

    for (cmd, expected) in inputs {
        let command: Command = cmd.try_into().unwrap();
        assert_eq!(command, expected);
    }
}

#[test]
fn command_dot_commands() {
    assert_eq!(Command::parse(".ping").unwrap(), Command::Ping);
    assert_eq!(Command::parse("  .exit \n").unwrap(), Command::Exit);
    assert_eq!(
        Command::parse(".structure out.dot").unwrap(),
        Command::Structure(Some(String::from("out.dot")))
    );
    assert_eq!(Command::parse(".structure a b").unwrap(), Command::Structure(None));
    assert_eq!(Command::parse(".populate +7").unwrap(), Command::Populate(7));
}

#[test]
fn command_statements() {
    assert_eq!(
        Command::parse("insert 1 a a@x\n").unwrap(),
        Command::Statement(Statement::Insert {
            id: 1,
            username: vec!['a'],
            email: vec!['a', '@', 'x']
        })
    );
    assert_eq!(
        Command::parse("update 22 bob b@y").unwrap(),
        Command::Statement(Statement::Update {
            id: 22,
            username: vec!['b', 'o', 'b'],
            email: vec!['b', '@', 'y']
        })
    );
    assert_eq!(
        Command::parse("INSERT 3 c d").unwrap(),
        Command::Statement(Statement::Update { id: 3, username: vec!['c'], email: vec!['d'] })
    );
    assert_eq!(
        Command::parse("delete 5").unwrap(),
        Command::Statement(Statement::Delete { id: 5 })
    );
    assert_eq!(Command::parse("SELECT").unwrap(), Command::Statement(Statement::Select));
    assert_eq!(Command::parse("selection").unwrap(), Command::Statement(Statement::Select));
}

#[test]
fn command_errors() {
    assert_eq!(message("frobnicate"), "unrecognized command 'frobnicate'");
    assert_eq!(message(""), "unrecognized command ''");
    assert_eq!(
        message(".populate"),
        "invalid '.populate' command, requires integer argument for number of records. Example: .populate 10"
    );
    assert_eq!(
        message(".populate ten"),
        "invalid '.populate' command, invalid integer argument; argument should be a non-negative number."
    );
    assert_eq!(
        message("delete"),
        "invalid statement, delete statement requires an id. Example: delete 1"
    );
    assert_eq!(
        message("delete -1"),
        "invalid statement, delete statement requires a valid non-negative integer."
    );
    assert_eq!(
        message("insert 1 a"),
        "invalid statement, insert statement requires id, username, email fields. Example: insert 1 test test@example.com"
    );
    assert_eq!(
        message("update x a b"),
        "invalid statement, update statement requires a valid non-negative integer."
    );
}

#[test]
fn command_limits_of_username_and_email() {
    let name32 = "n".repeat(32);
    let name33 = "n".repeat(33);
    let mail255 = "m".repeat(255);
    let mail256 = "m".repeat(256);
    assert!(Command::parse(&format!("insert 1 {name32} {mail255}")).is_ok());
    assert_eq!(
        message(&format!("insert 1 {name33} {mail255}")),
        "invalid statement, username should be less than or equal to 32."
    );
    assert_eq!(
        message(&format!("insert 1 {name32} {mail256}")),
        "invalid statement, email should be less than or equal to 255."
    );
    let wide = "\u{e9}".repeat(32);
    assert!(Command::parse(&format!("insert 1 {wide} x")).is_ok());
}

#[test]
fn command_parse_works_on_the_trimmed_line() {
    assert_eq!(parse_trimmed(".exit", ".exit").unwrap(), Command::Exit);
    assert!(matches!(
        parse_trimmed(" .exit", " .exit"),
        Err(CommandError::UnrecognizedCommand(s)) if s == " .exit"
    ));
    assert_eq!(
        parse_trimmed("Delete 4", "delete 4").unwrap(),
        Command::Statement(Statement::Delete { id: 4 })
    );
    assert!(matches!(
        parse_trimmed("Delete 4", "Delete 4"),
        Err(CommandError::UnrecognizedCommand(_))
    ));
}

#[test]
fn command_error_messages() {
    assert_eq!(CommandError::Empty.message(), "no command provided");
    assert_eq!(
        CommandError::UnrecognizedStatement(String::from("merge")).message(),
        "unsupported statement 'merge'"
    );
    let copy = CommandError::InvalidStatement { reason: String::from("r") }.clone();
    assert_eq!(copy.message(), "invalid statement, r");
    assert_eq!(Command::Populate(3).clone(), Command::Populate(3));
}
