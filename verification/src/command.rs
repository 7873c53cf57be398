//! The commands of the DSL, and the parser that reads them from a line.
//!
//! ```text
//! insert <id> <username> <email>
//! update <id> <username> <email>
//! delete <id>
//! select
//! .exit | .ping | .populate <n> | .structure [path]
//! ```
use vstd::prelude::*;
use vstd::std_specs::convert::TryFromSpecImpl;
use vstd::string::{StrSliceExecFns, StringExecFns};
use crate::statement::{Statement, StatementView};
use crate::text::{
    count_of, lowercased, parse_usize, pieces, push_text, split_spaces, starts_with, text_eq, texts,
    to_lowercase, trim, trimmed,
};
use crate::utilities::{EMAIL_MAX_LENGTH, USERNAME_MAX_LENGTH};

verus! {

/// List of possible error that a command can throw.
#[derive(Debug)]
pub enum CommandError {
    UnrecognizedCommand(String),
    InvalidCommandArguments { command: String, reason: String },
    InvalidStatement { reason: String },
    UnrecognizedStatement(String),
    Empty,
}

/// What a command error is.
pub enum CommandErrorView {
    UnrecognizedCommand(Seq<char>),
    InvalidCommandArguments { command: Seq<char>, reason: Seq<char> },
    InvalidStatement { reason: Seq<char> },
    UnrecognizedStatement(Seq<char>),
    Empty,
}

impl View for CommandError {
    type V = CommandErrorView;

    open spec fn view(&self) -> CommandErrorView {
        match self {
            CommandError::UnrecognizedCommand(s) => CommandErrorView::UnrecognizedCommand(s@),
            CommandError::InvalidCommandArguments {
                command,
                reason,
            } => CommandErrorView::InvalidCommandArguments { command: command@, reason: reason@ },
            CommandError::InvalidStatement { reason } => CommandErrorView::InvalidStatement {
                reason: reason@,
            },
            CommandError::UnrecognizedStatement(s) => CommandErrorView::UnrecognizedStatement(s@),
            CommandError::Empty => CommandErrorView::Empty,
        }
    }
}

impl Clone for CommandError {
    fn clone(&self) -> (r: Self)
        ensures
            r@ == self@,
    {
        match self {
            CommandError::UnrecognizedCommand(s) => CommandError::UnrecognizedCommand(s.clone()),
            CommandError::InvalidCommandArguments {
                command,
                reason,
            } => CommandError::InvalidCommandArguments {
                command: command.clone(),
                reason: reason.clone(),
            },
            CommandError::InvalidStatement { reason } => CommandError::InvalidStatement {
                reason: reason.clone(),
            },
            CommandError::UnrecognizedStatement(s) => CommandError::UnrecognizedStatement(
                s.clone(),
            ),
            CommandError::Empty => CommandError::Empty,
        }
    }
}

impl CommandErrorView {
    /// The text that describes the error.
    pub open spec fn message(self) -> Seq<char> {
        match self {
            CommandErrorView::UnrecognizedCommand(s) => "unrecognized command '"@ + s + "'"@,
            CommandErrorView::InvalidCommandArguments { command, reason } => "invalid '"@ + command
                + "' command, "@ + reason,
            CommandErrorView::InvalidStatement { reason } => "invalid statement, "@ + reason,
            CommandErrorView::UnrecognizedStatement(s) => "unsupported statement '"@ + s + "'"@,
            CommandErrorView::Empty => "no command provided"@,
        }
    }
}

impl CommandError {
    /// The text that describes the error.
    pub fn message(&self) -> (r: String)
        ensures
            r@ == self@.message(),
    {
        let mut out = String::new();
        match self {
            CommandError::UnrecognizedCommand(s) => {
                push_text(&mut out, "unrecognized command '");
                push_text(&mut out, s.as_str());
                push_text(&mut out, "'");
            },
            CommandError::InvalidCommandArguments { command, reason } => {
                push_text(&mut out, "invalid '");
                push_text(&mut out, command.as_str());
                push_text(&mut out, "' command, ");
                push_text(&mut out, reason.as_str());
            },
            CommandError::InvalidStatement { reason } => {
                push_text(&mut out, "invalid statement, ");
                push_text(&mut out, reason.as_str());
            },
            CommandError::UnrecognizedStatement(s) => {
                push_text(&mut out, "unsupported statement '");
                push_text(&mut out, s.as_str());
                push_text(&mut out, "'");
            },
            CommandError::Empty => {
                push_text(&mut out, "no command provided");
            },
        }
        assert(out@ =~= self@.message());
        out
    }
}

/// High-level user supplied commands to execute on a StorageEngine
#[derive(Debug, PartialEq, Eq)]
pub enum Command {
    /// Possible statement to provide to the storage engine
    Statement(Statement),
    /// Requests the storage engine to close connection and
    /// terminate process
    Exit,
    /// Requests the storage engine to populate the database
    /// with test data.
    Populate(usize),
    /// Requests the storage engine to write out a representation
    /// of it's storage structure, to the file of the given path if there
    /// is one.
    Structure(Option<String>),
    /// Checks if the connect is still open.
    Ping,
}

/// What a command is.
pub enum CommandView {
    Statement(StatementView),
    Exit,
    Populate(usize),
    Structure(Option<Seq<char>>),
    Ping,
}

impl View for Command {
    type V = CommandView;

    open spec fn view(&self) -> CommandView {
        match self {
            Command::Statement(s) => CommandView::Statement(s@),
            Command::Exit => CommandView::Exit,
            Command::Populate(n) => CommandView::Populate(*n),
            Command::Structure(p) => CommandView::Structure(
                match p {
                    Some(s) => Some(s@),
                    None => None,
                },
            ),
            Command::Ping => CommandView::Ping,
        }
    }
}

impl Clone for Command {
    fn clone(&self) -> (r: Self)
        ensures
            r@ == self@,
    {
        match self {
            Command::Statement(s) => Command::Statement(s.clone()),
            Command::Exit => Command::Exit,
            Command::Populate(n) => Command::Populate(*n),
            Command::Structure(p) => Command::Structure(
                match p {
                    Some(s) => Some(s.clone()),
                    None => None,
                },
            ),
            Command::Ping => Command::Ping,
        }
    }
}

/// The error of a statement that is not as the DSL wants it.
pub open spec fn invalid(reason: Seq<char>) -> Result<CommandView, CommandErrorView> {
    Err(CommandErrorView::InvalidStatement { reason })
}

/// What `.structure` with its arguments stands for: the one argument, if
/// there is just one, is the path.
pub open spec fn structure_of(parts: Seq<Seq<char>>) -> Result<CommandView, CommandErrorView> {
    Ok(
        CommandView::Structure(
            if parts.len() == 2 {
                Some(parts[1])
            } else {
                None
            },
        ),
    )
}

/// What `.populate` with its arguments stands for: the first argument is
/// the number of records.
pub open spec fn populate_of(parts: Seq<Seq<char>>) -> Result<CommandView, CommandErrorView> {
    if parts.len() < 2 {
        Err(
            CommandErrorView::InvalidCommandArguments {
                command: ".populate"@,
                reason: "requires integer argument for number of records. Example: .populate 10"@,
            },
        )
    } else {
        match count_of(parts[1]) {
            None => Err(
                CommandErrorView::InvalidCommandArguments {
                    command: ".populate"@,
                    reason: "invalid integer argument; argument should be a non-negative number."@,
                },
            ),
            Some(n) => Ok(CommandView::Populate(n)),
        }
    }
}

/// What `delete` with its arguments stands for: the first argument is the
/// key.
pub open spec fn delete_of(parts: Seq<Seq<char>>) -> Result<CommandView, CommandErrorView> {
    if parts.len() < 2 {
        invalid("delete statement requires an id. Example: delete 1"@)
    } else {
        match count_of(parts[1]) {
            None => invalid("delete statement requires a valid non-negative integer."@),
            Some(id) => Ok(CommandView::Statement(StatementView::Delete { id })),
        }
    }
}

/// What `insert` or `update` with its arguments stands for: key, username
/// and email, the username of at most 32 characters, the email of at most
/// 255. The statement is an insert where its first word is `insert` in
/// lower case.
pub open spec fn change_of(parts: Seq<Seq<char>>) -> Result<CommandView, CommandErrorView> {
    if parts.len() < 4 {
        invalid(
            parts[0] + " statement requires id, username, email fields. Example: "@ + parts[0]
                + " 1 test test@example.com"@,
        )
    } else {
        match count_of(parts[1]) {
            None => invalid(parts[0] + " statement requires a valid non-negative integer."@),
            Some(id) => if parts[2].len() > USERNAME_MAX_LENGTH {
                invalid("username should be less than or equal to 32."@)
            } else if parts[3].len() > EMAIL_MAX_LENGTH {
                invalid("email should be less than or equal to 255."@)
            } else if parts[0] == "insert"@ {
                Ok(
                    CommandView::Statement(
                        StatementView::Insert { id, username: parts[2], email: parts[3] },
                    ),
                )
            } else {
                Ok(
                    CommandView::Statement(
                        StatementView::Update { id, username: parts[2], email: parts[3] },
                    ),
                )
            },
        }
    }
}

/// What a line stands for, given the line without the white space at its
/// ends and the same in lower case. Commands start with a dot and are
/// told by the line as it is, statements by the line in lower case.
pub open spec fn command_of(t: Seq<char>, l: Seq<char>) -> Result<CommandView, CommandErrorView> {
    if t == ".exit"@ {
        Ok(CommandView::Exit)
    } else if t == ".ping"@ {
        Ok(CommandView::Ping)
    } else if ".structure"@.is_prefix_of(t) {
        structure_of(pieces(t))
    } else if ".populate"@.is_prefix_of(t) {
        populate_of(pieces(t))
    } else if "select"@.is_prefix_of(l) {
        Ok(CommandView::Statement(StatementView::Select))
    } else if "delete"@.is_prefix_of(l) {
        delete_of(pieces(t))
    } else if "insert"@.is_prefix_of(l) || "update"@.is_prefix_of(l) {
        change_of(pieces(t))
    } else {
        Err(CommandErrorView::UnrecognizedCommand(t))
    }
}

/// The characters of a text.
pub fn chars_of_text(s: &str) -> (r: Vec<char>)
    ensures
        r@ == s@,
{
    let n = s.unicode_len();
    let mut out: Vec<char> = Vec::new();
    let mut i: usize = 0;
    while i < n
        invariant
            0 <= i <= n,
            n == s@.len(),
            out@ == s@.subrange(0, i as int),
        decreases n - i,
    {
        out.push(s.get_char(i));
        assert(out@ =~= s@.subrange(0, i + 1));
        i = i + 1;
    }
    assert(s@.subrange(0, n as int) =~= s@);
    out
}

/// The error of a statement that is not as the DSL wants it.
fn invalid_statement(reason: String) -> (r: Result<Command, CommandError>)
    ensures
        r matches Err(e) && Err::<CommandView, CommandErrorView>(e@) == invalid(reason@),
{
    Err(CommandError::InvalidStatement { reason })
}

/// Reads `.populate` with its arguments.
fn parse_populate(parts: &Vec<String>) -> (r: Result<Command, CommandError>)
    requires
        parts@.len() >= 1,
    ensures
        match populate_of(texts(parts@)) {
            Ok(c) => r matches Ok(x) && x@ == c,
            Err(e) => r matches Err(x) && x@ == e,
        },
{
    if parts.len() < 2 {
        return Err(
            CommandError::InvalidCommandArguments {
                command: String::from_str(".populate"),
                reason: String::from_str(
                    "requires integer argument for number of records. Example: .populate 10",
                ),
            },
        );
    }
    assert(texts(parts@)[1] == parts@[1]@);
    match parse_usize(parts[1].as_str()) {
        Some(n) => Ok(Command::Populate(n)),
        None => Err(
            CommandError::InvalidCommandArguments {
                command: String::from_str(".populate"),
                reason: String::from_str(
                    "invalid integer argument; argument should be a non-negative number.",
                ),
            },
        ),
    }
}

/// Reads `delete` with its arguments.
fn parse_delete(parts: &Vec<String>) -> (r: Result<Command, CommandError>)
    requires
        parts@.len() >= 1,
    ensures
        match delete_of(texts(parts@)) {
            Ok(c) => r matches Ok(x) && x@ == c,
            Err(e) => r matches Err(x) && x@ == e,
        },
{
    if parts.len() < 2 {
        return invalid_statement(
            String::from_str("delete statement requires an id. Example: delete 1"),
        );
    }
    assert(texts(parts@)[1] == parts@[1]@);
    match parse_usize(parts[1].as_str()) {
        Some(id) => Ok(Command::Statement(Statement::Delete { id })),
        None => invalid_statement(
            String::from_str("delete statement requires a valid non-negative integer."),
        ),
    }
}

/// Reads `insert` or `update` with its arguments.
fn parse_change(parts: &Vec<String>) -> (r: Result<Command, CommandError>)
    requires
        parts@.len() >= 1,
    ensures
        match change_of(texts(parts@)) {
            Ok(c) => r matches Ok(x) && x@ == c,
            Err(e) => r matches Err(x) && x@ == e,
        },
{
    assert(texts(parts@)[0] == parts@[0]@);
    if parts.len() < 4 {
        let mut reason = String::new();
        push_text(&mut reason, parts[0].as_str());
        push_text(&mut reason, " statement requires id, username, email fields. Example: ");
        push_text(&mut reason, parts[0].as_str());
        push_text(&mut reason, " 1 test test@example.com");
        assert(reason@ =~= parts@[0]@
            + " statement requires id, username, email fields. Example: "@ + parts@[0]@
            + " 1 test test@example.com"@);
        return invalid_statement(reason);
    }
    assert(texts(parts@)[1] == parts@[1]@);
    assert(texts(parts@)[2] == parts@[2]@);
    assert(texts(parts@)[3] == parts@[3]@);
    let id = match parse_usize(parts[1].as_str()) {
        Some(id) => id,
        None => {
            let mut reason = String::new();
            push_text(&mut reason, parts[0].as_str());
            push_text(&mut reason, " statement requires a valid non-negative integer.");
            assert(reason@ =~= parts@[0]@ + " statement requires a valid non-negative integer."@);
            return invalid_statement(reason);
        },
    };
    let username = chars_of_text(parts[2].as_str());
    if username.len() > USERNAME_MAX_LENGTH {
        return invalid_statement(String::from_str("username should be less than or equal to 32."));
    }
    let email = chars_of_text(parts[3].as_str());
    if email.len() > EMAIL_MAX_LENGTH {
        return invalid_statement(String::from_str("email should be less than or equal to 255."));
    }
    if text_eq(parts[0].as_str(), "insert") {
        Ok(Command::Statement(Statement::Insert { id, username, email }))
    } else {
        Ok(Command::Statement(Statement::Update { id, username, email }))
    }
}

/// Reads a command from a line without white space at its ends, given
/// the same line in lower case.
pub fn parse_trimmed(t: &str, l: &str) -> (r: Result<Command, CommandError>)
    ensures
        match command_of(t@, l@) {
            Ok(c) => r matches Ok(x) && x@ == c,
            Err(e) => r matches Err(x) && x@ == e,
        },
{
    if text_eq(t, ".exit") {
        Ok(Command::Exit)
    } else if text_eq(t, ".ping") {
        Ok(Command::Ping)
    } else if starts_with(t, ".structure") {
        let parts = split_spaces(t);
        let path = if parts.len() == 2 {
            assert(texts(parts@)[1] == parts@[1]@);
            Some(parts[1].clone())
        } else {
            None
        };
        Ok(Command::Structure(path))
    } else if starts_with(t, ".populate") {
        let parts = split_spaces(t);
        parse_populate(&parts)
    } else if starts_with(l, "select") {
        Ok(Command::Statement(Statement::Select))
    } else if starts_with(l, "delete") {
        let parts = split_spaces(t);
        parse_delete(&parts)
    } else if starts_with(l, "insert") || starts_with(l, "update") {
        let parts = split_spaces(t);
        parse_change(&parts)
    } else {
        Err(CommandError::UnrecognizedCommand(String::from_str(t)))
    }
}

impl Command {
    /// Reads a command from a line.
    pub fn parse(input: &str) -> (r: Result<Command, CommandError>)
        ensures
            match command_of(trimmed(input@), lowercased(trimmed(input@))) {
                Ok(c) => r matches Ok(x) && x@ == c,
                Err(e) => r matches Err(x) && x@ == e,
            },
    {
        let t = trim(input);
        let l = to_lowercase(t);
        parse_trimmed(t, l.as_str())
    }
}

impl TryFrom<&str> for Command {
    type Error = CommandError;

    fn try_from(value: &str) -> (r: Result<Command, CommandError>)
        ensures
            match command_of(trimmed(value@), lowercased(trimmed(value@))) {
                Ok(c) => r matches Ok(x) && x@ == c,
                Err(e) => r matches Err(x) && x@ == e,
            },
    {
        Command::parse(value)
    }
}

impl TryFromSpecImpl<&str> for Command {
    open spec fn obeys_try_from_spec() -> bool {
        false
    }

    open spec fn try_from_spec(v: &str) -> Result<Self, Self::Error> {
        arbitrary()
    }
}

} // verus!
