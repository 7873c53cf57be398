//! The statements of the DSL, and the rows that they stand for.
//!
//! The value of a row holds the username and the email, each character in
//! a cell of four bytes, with a NUL character between the two.
use vstd::prelude::*;
use vstd::std_specs::convert::FromSpecImpl;
use crate::storage::row::{Row, RowType, RowView};
use crate::text::{decimal, push_char, push_decimal};
use crate::utilities::{byte_to_char, cells, char_to_byte, chars_of};

verus! {

/// An action that affects a row to be performed by the Storage engine.
#[derive(Debug, PartialEq, Eq)]
pub enum Statement {
    /// Insert a new row
    Insert { id: usize, username: Vec<char>, email: Vec<char> },
    /// Update an existing row
    Update { id: usize, username: Vec<char>, email: Vec<char> },
    /// Select row from storage
    Select,
    /// Delete row from storage
    Delete { id: usize },
}

/// What a statement is.
pub enum StatementView {
    Insert { id: usize, username: Seq<char>, email: Seq<char> },
    Update { id: usize, username: Seq<char>, email: Seq<char> },
    Select,
    Delete { id: usize },
}

impl View for Statement {
    type V = StatementView;

    open spec fn view(&self) -> StatementView {
        match self {
            Statement::Insert { id, username, email } => StatementView::Insert {
                id: *id,
                username: username@,
                email: email@,
            },
            Statement::Update { id, username, email } => StatementView::Update {
                id: *id,
                username: username@,
                email: email@,
            },
            Statement::Select => StatementView::Select,
            Statement::Delete { id } => StatementView::Delete { id: *id },
        }
    }
}

impl Clone for Statement {
    fn clone(&self) -> (r: Self)
        ensures
            r@ == self@,
    {
        match self {
            Statement::Insert { id, username, email } => Statement::Insert {
                id: *id,
                username: username.clone(),
                email: email.clone(),
            },
            Statement::Update { id, username, email } => Statement::Update {
                id: *id,
                username: username.clone(),
                email: email.clone(),
            },
            Statement::Select => Statement::Select,
            Statement::Delete { id } => Statement::Delete { id: *id },
        }
    }
}

/// The value of the row of a user: the cells of the username, of a NUL
/// character and of the email. A value too long for a row to count it is
/// left out.
pub open spec fn user_value(username: Seq<char>, email: Seq<char>) -> Seq<u8> {
    let value = cells(username.push('\0')) + cells(email);
    if value.len() + 17 <= usize::MAX {
        value
    } else {
        Seq::empty()
    }
}

impl StatementView {
    /// The row that the statement stands for: the user for an insert or an
    /// update, else a row without a value under the key of the statement,
    /// which is 0 for a select.
    pub open spec fn row(self) -> RowView {
        match self {
            StatementView::Insert { id, username, email } => RowView::Leaf {
                id,
                value: user_value(username, email),
            },
            StatementView::Update { id, username, email } => RowView::Leaf {
                id,
                value: user_value(username, email),
            },
            StatementView::Select => RowView::Leaf { id: 0, value: Seq::empty() },
            StatementView::Delete { id } => RowView::Leaf { id, value: Seq::empty() },
        }
    }
}

/// The row of a user.
fn user_row(id: usize, username: Vec<char>, email: Vec<char>) -> (r: Row)
    ensures
        r@ == (RowView::Leaf { id, value: user_value(username@, email@) }),
{
    let mut row = Row::new(id, RowType::Leaf);
    let mut name = username;
    name.push('\0');
    let mut value = char_to_byte(name.as_slice());
    let mut rest = char_to_byte(email.as_slice());
    value.append(&mut rest);
    if value.len() <= usize::MAX - 17 {
        row.set_value(value.as_slice());
    }
    row
}

impl From<Statement> for Row {
    fn from(value: Statement) -> (r: Self)
        ensures
            r@ == value@.row(),
    {
        match value {
            Statement::Insert { id, username, email } => user_row(id, username, email),
            Statement::Update { id, username, email } => user_row(id, username, email),
            Statement::Select => Row::new(0, RowType::Leaf),
            Statement::Delete { id } => Row::new(id, RowType::Leaf),
        }
    }
}

impl FromSpecImpl<Statement> for Row {
    open spec fn obeys_from_spec() -> bool {
        false
    }

    open spec fn from_spec(v: Statement) -> Self {
        arbitrary()
    }
}

/// The index of the first NUL character, or the length where there is
/// none.
pub open spec fn first_nul(s: Seq<char>) -> int
    decreases s.len(),
{
    if s.len() == 0 || s[0] == '\0' {
        0
    } else {
        1 + first_nul(s.drop_first())
    }
}

/// The characters in front of the first NUL character.
pub open spec fn first_field(s: Seq<char>) -> Seq<char> {
    s.subrange(0, first_nul(s))
}

/// The characters behind the first NUL character.
pub open spec fn after_field(s: Seq<char>) -> Seq<char> {
    if first_nul(s) < s.len() {
        s.subrange(first_nul(s) + 1, s.len() as int)
    } else {
        Seq::empty()
    }
}

/// The first NUL character is the one with none in front of it.
pub proof fn lemma_first_nul(s: Seq<char>, i: int)
    requires
        0 <= i <= s.len(),
        forall|k: int| 0 <= k < i ==> s[k] != '\0',
        i < s.len() ==> s[i] == '\0',
    ensures
        first_nul(s) == i,
    decreases s.len(),
{
    if s.len() == 0 || s[0] == '\0' {
        if i > 0 {
            assert(s[0] != '\0');
        }
    } else {
        let rest = s.drop_first();
        assert forall|k: int| 0 <= k < i - 1 implies rest[k] != '\0' by {
            assert(rest[k] == s[k + 1]);
        }
        lemma_first_nul(rest, i - 1);
    }
}

/// The line that shows a row: key, username and email, with commas
/// between them.
pub open spec fn row_line(id: usize, chars: Seq<char>) -> Seq<char> {
    decimal(id as nat) + seq![','] + first_field(chars) + seq![','] + first_field(
        after_field(chars),
    )
}

/// Whether the value of the row is text that `print_row` can show.
pub fn printable(row: &Row) -> (r: bool)
    ensures
        r == (row@.kind() == RowType::Leaf && chars_of(row@.value()) is Some),
{
    if row.kind() != RowType::Leaf {
        return false;
    }
    let value = row.value();
    byte_to_char(value.as_slice()).is_ok()
}

/// Appends the characters from `from` up to the next NUL character, and
/// says where that one stands.
fn push_field(out: &mut String, chars: &Vec<char>, from: usize) -> (r: usize)
    requires
        from <= chars@.len(),
    ensures
        final(out)@ == old(out)@ + first_field(chars@.subrange(from as int, chars@.len() as int)),
        r == from + first_nul(chars@.subrange(from as int, chars@.len() as int)),
        from <= r <= chars@.len(),
{
    let ghost s = chars@.subrange(from as int, chars@.len() as int);
    let mut i: usize = from;
    assert(s.subrange(0, 0) =~= Seq::<char>::empty());
    while i < chars.len() && chars[i] != '\0'
        invariant
            from <= i <= chars@.len(),
            s == chars@.subrange(from as int, chars@.len() as int),
            forall|k: int| 0 <= k < i - from ==> s[k] != '\0',
            out@ == old(out)@ + s.subrange(0, i - from),
        decreases chars@.len() - i,
    {
        let ghost prev = out@;
        push_char(out, chars[i]);
        assert(out@ =~= old(out)@ + s.subrange(0, i + 1 - from));
        i = i + 1;
    }
    proof {
        lemma_first_nul(s, i - from);
    }
    i
}

/// The line that shows a row: `id,username,email`.
pub fn print_row(row: &Row) -> (r: String)
    requires
        row@.kind() == RowType::Leaf,
        chars_of(row@.value()) is Some,
    ensures
        r@ == row_line(row@.id(), chars_of(row@.value())->0),
{
    let value = row.value();
    let chars = match byte_to_char(value.as_slice()) {
        Ok(c) => c,
        Err(_) => Vec::new(),
    };
    let mut out = String::new();
    push_decimal(&mut out, row.id());
    push_char(&mut out, ',');
    let end = push_field(&mut out, &chars, 0);
    assert(chars@.subrange(0, chars@.len() as int) =~= chars@);
    push_char(&mut out, ',');
    let next: usize = if end < chars.len() {
        end + 1
    } else {
        end
    };
    assert(chars@.subrange(next as int, chars@.len() as int) =~= after_field(chars@));
    let _ = push_field(&mut out, &chars, next);
    assert(out@ =~= row_line(row@.id(), chars@));
    out
}

} // verus!
