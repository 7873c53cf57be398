//! The line-oriented prompt: what is shown in front of a line, and the
//! command that a line stands for.
use vstd::prelude::*;
use vstd::string::StringExecFns;
use crate::text::{
    count_of, parse_usize, pieces, push_text, split_spaces, starts_with, text_eq, texts, trim_end,
    trimmed_end,
};

verus! {

/// Possible commands from a user.
#[derive(Debug, PartialEq, Eq)]
pub enum Command {
    /// Exit command `.exit`
    Exit,
    /// Request the storage to print out it's structure
    Structure,
    /// Populate,
    Populate(usize),
    /// DSL Statements
    Statement(String),
}

/// What a command of the prompt is.
pub enum PromptView {
    Exit,
    Structure,
    Populate(usize),
    Statement(Seq<char>),
}

impl View for Command {
    type V = PromptView;

    open spec fn view(&self) -> PromptView {
        match self {
            Command::Exit => PromptView::Exit,
            Command::Structure => PromptView::Structure,
            Command::Populate(n) => PromptView::Populate(*n),
            Command::Statement(s) => PromptView::Statement(s@),
        }
    }
}

impl Clone for Command {
    fn clone(&self) -> (r: Self)
        ensures
            r@ == self@,
    {
        match self {
            Command::Exit => Command::Exit,
            Command::Structure => Command::Structure,
            Command::Populate(n) => Command::Populate(*n),
            Command::Statement(s) => Command::Statement(s.clone()),
        }
    }
}

/// What is shown to the user in front of every line.
pub fn prompt_text() -> (r: &'static str)
    ensures
        r@ == "> "@,
{
    "> "
}

/// What `.populate` with its arguments stands for at the prompt.
pub open spec fn records_of(parts: Seq<Seq<char>>) -> Result<PromptView, Seq<char>> {
    if parts.len() < 2 {
        Err("populate command requires int argument for the number of records"@)
    } else {
        match count_of(parts[1]) {
            None => Err("number of records should be a valid number"@),
            Some(n) => Ok(PromptView::Populate(n)),
        }
    }
}

/// What a line without the white space at its end stands for: a command
/// where it starts with a dot, else a statement, which is the line itself.
pub open spec fn line_of(t: Seq<char>) -> Result<PromptView, Seq<char>> {
    if t == ".exit"@ {
        Ok(PromptView::Exit)
    } else if t == ".structure"@ {
        Ok(PromptView::Structure)
    } else if ".populate"@.is_prefix_of(t) {
        records_of(pieces(t))
    } else if !"."@.is_prefix_of(t) {
        Ok(PromptView::Statement(t))
    } else {
        Err("unrecognized command '"@ + t + "'"@)
    }
}

/// Reads a command from a line without white space at its end.
pub fn read_line(t: &str) -> (r: Result<Command, String>)
    ensures
        match line_of(t@) {
            Ok(c) => r matches Ok(x) && x@ == c,
            Err(e) => r matches Err(x) && x@ == e,
        },
{
    if text_eq(t, ".exit") {
        Ok(Command::Exit)
    } else if text_eq(t, ".structure") {
        Ok(Command::Structure)
    } else if starts_with(t, ".populate") {
        let parts = split_spaces(t);
        if parts.len() < 2 {
            return Err(
                String::from_str(
                    "populate command requires int argument for the number of records",
                ),
            );
        }
        assert(texts(parts@)[1] == parts@[1]@);
        match parse_usize(parts[1].as_str()) {
            Some(n) => Ok(Command::Populate(n)),
            None => Err(String::from_str("number of records should be a valid number")),
        }
    } else if !starts_with(t, ".") {
        Ok(Command::Statement(String::from_str(t)))
    } else {
        let mut out = String::new();
        push_text(&mut out, "unrecognized command '");
        push_text(&mut out, t);
        push_text(&mut out, "'");
        assert(out@ =~= "unrecognized command '"@ + t@ + "'"@);
        Err(out)
    }
}

/// Reads a command from the line that the user gave at the prompt.
pub fn prompt(line: &str) -> (r: Result<Command, String>)
    ensures
        match line_of(trimmed_end(line@)) {
            Ok(c) => r matches Ok(x) && x@ == c,
            Err(e) => r matches Err(x) && x@ == e,
        },
{
    read_line(trim_end(line))
}

} // verus!
