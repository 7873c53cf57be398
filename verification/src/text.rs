//! Text: decimal numbers, strings built character by character, the
//! pieces of a line, and what the standard library makes of a text.
use vstd::prelude::*;
use vstd::string::{StrSliceExecFns, StringExecFns};

verus! {

/// The character of a decimal digit.
pub open spec fn digit(d: nat) -> char {
    if d == 0 {
        '0'
    } else if d == 1 {
        '1'
    } else if d == 2 {
        '2'
    } else if d == 3 {
        '3'
    } else if d == 4 {
        '4'
    } else if d == 5 {
        '5'
    } else if d == 6 {
        '6'
    } else if d == 7 {
        '7'
    } else if d == 8 {
        '8'
    } else {
        '9'
    }
}

/// The decimal digits of a number, without leading zeros.
pub open spec fn decimal(n: nat) -> Seq<char>
    decreases n,
{
    if n < 10 {
        seq![digit(n)]
    } else {
        decimal(n / 10) + seq![digit(n % 10)]
    }
}

/// The character of a decimal digit.
pub fn digit_char(d: usize) -> (c: char)
    requires
        d < 10,
    ensures
        c == digit(d as nat),
{
    if d == 0 {
        '0'
    } else if d == 1 {
        '1'
    } else if d == 2 {
        '2'
    } else if d == 3 {
        '3'
    } else if d == 4 {
        '4'
    } else if d == 5 {
        '5'
    } else if d == 6 {
        '6'
    } else if d == 7 {
        '7'
    } else if d == 8 {
        '8'
    } else {
        '9'
    }
}

/// `String::push` of the standard library: the character is appended to
/// the string.
#[verifier::external_body]
pub(crate) fn push_char(s: &mut String, c: char)
    ensures
        final(s)@ == old(s)@.push(c),
{
    s.push(c)
}

/// Appends the decimal digits of `n`.
pub fn push_decimal(out: &mut String, n: usize)
    ensures
        final(out)@ == old(out)@ + decimal(n as nat),
    decreases n,
{
    if n >= 10 {
        push_decimal(out, n / 10);
    }
    push_char(out, digit_char(n % 10));
    assert(out@ =~= old(out)@ + decimal(n as nat));
}

/// Appends a copy of the text.
pub fn push_text(out: &mut String, text: &str)
    ensures
        final(out)@ == old(out)@ + text@,
{
    out.append(text);
}

/// What `str::trim` of the standard library leaves of a text: the text
/// without the white space at its ends.
pub uninterp spec fn trimmed(s: Seq<char>) -> Seq<char>;

/// What `str::trim_end` of the standard library leaves of a text: the text
/// without the white space at its end.
pub uninterp spec fn trimmed_end(s: Seq<char>) -> Seq<char>;

/// What `str::to_lowercase` of the standard library makes of a text.
pub uninterp spec fn lowercased(s: Seq<char>) -> Seq<char>;

/// The value of a decimal digit.
pub open spec fn digit_value(c: char) -> Option<nat> {
    if c == '0' {
        Some(0nat)
    } else if c == '1' {
        Some(1nat)
    } else if c == '2' {
        Some(2nat)
    } else if c == '3' {
        Some(3nat)
    } else if c == '4' {
        Some(4nat)
    } else if c == '5' {
        Some(5nat)
    } else if c == '6' {
        Some(6nat)
    } else if c == '7' {
        Some(7nat)
    } else if c == '8' {
        Some(8nat)
    } else if c == '9' {
        Some(9nat)
    } else {
        None
    }
}

/// The value of decimal digits, if all the characters are digits.
pub open spec fn digits_value(s: Seq<char>) -> Option<nat>
    decreases s.len(),
{
    if s.len() == 0 {
        Some(0nat)
    } else {
        match (digits_value(s.drop_last()), digit_value(s.last())) {
            (Some(n), Some(d)) => Some(n * 10 + d),
            _ => None,
        }
    }
}

/// The number that a text stands for: the text is one or more decimal
/// digits, with or without a `+` in front of them, and their value fits
/// 64 bits.
pub open spec fn number_of(s: Seq<char>) -> Option<u64> {
    let digits = if s.len() > 0 && s[0] == '+' {
        s.drop_first()
    } else {
        s
    };
    if digits.len() == 0 {
        None
    } else {
        match digits_value(digits) {
            Some(n) => if n <= u64::MAX {
                Some(n as u64)
            } else {
                None
            },
            None => None,
        }
    }
}

/// The count that a text stands for: the number that it stands for, if
/// the number fits a machine word.
pub open spec fn count_of(s: Seq<char>) -> Option<usize> {
    match number_of(s) {
        Some(n) => if n <= usize::MAX {
            Some(n as usize)
        } else {
            None
        },
        None => None,
    }
}

/// `str::trim` of the standard library. What it returns is given a name
/// and not spelled out: the contract claims only that it depends on the
/// text alone.
#[verifier::external_body]
pub(crate) fn trim(s: &str) -> (r: &str)
    ensures
        r@ == trimmed(s@),
{
    s.trim()
}

/// `str::trim_end` of the standard library. What it returns is given a
/// name and not spelled out: the contract claims only that it depends on
/// the text alone.
#[verifier::external_body]
pub(crate) fn trim_end(s: &str) -> (r: &str)
    ensures
        r@ == trimmed_end(s@),
{
    s.trim_end()
}

/// `str::to_lowercase` of the standard library. What it returns is given
/// a name and not spelled out: the contract claims only that it depends
/// on the text alone.
#[verifier::external_body]
pub(crate) fn to_lowercase(s: &str) -> (r: String)
    ensures
        r@ == lowercased(s@),
{
    s.to_lowercase()
}

/// `str::parse::<u64>` of the standard library: the number that the text
/// stands for. The text has to be one or more decimal digits, with or
/// without a `+` in front of them; any other character, white space
/// included, an empty text and a value beyond 64 bits give none.
#[verifier::external_body]
pub(crate) fn parse_u64(s: &str) -> (r: Option<u64>)
    ensures
        r == number_of(s@),
{
    s.parse::<u64>().ok()
}

/// The count that a text stands for: the number, if it fits a machine
/// word.
pub fn parse_usize(s: &str) -> (r: Option<usize>)
    ensures
        r == count_of(s@),
{
    match parse_u64(s) {
        Some(n) => if n <= usize::MAX as u64 {
            Some(n as usize)
        } else {
            None
        },
        None => None,
    }
}

/// Whether two texts are the same.
pub fn text_eq(a: &str, b: &str) -> (r: bool)
    ensures
        r == (a@ == b@),
{
    let n = a.unicode_len();
    if n != b.unicode_len() {
        return false;
    }
    let mut i: usize = 0;
    while i < n
        invariant
            0 <= i <= n,
            n == a@.len(),
            n == b@.len(),
            forall|k: int| 0 <= k < i ==> a@[k] == b@[k],
        decreases n - i,
    {
        if a.get_char(i) != b.get_char(i) {
            return false;
        }
        i = i + 1;
    }
    assert(a@ =~= b@);
    true
}

/// Whether a text starts with another.
pub fn starts_with(text: &str, prefix: &str) -> (r: bool)
    ensures
        r == prefix@.is_prefix_of(text@),
{
    let n = prefix.unicode_len();
    if n > text.unicode_len() {
        return false;
    }
    let mut i: usize = 0;
    while i < n
        invariant
            0 <= i <= n,
            n == prefix@.len(),
            n <= text@.len(),
            forall|k: int| 0 <= k < i ==> prefix@[k] == text@[k],
        decreases n - i,
    {
        if text.get_char(i) != prefix.get_char(i) {
            assert(prefix@[i as int] != text@.subrange(0, n as int)[i as int]);
            return false;
        }
        i = i + 1;
    }
    assert(prefix@ =~= text@.subrange(0, n as int));
    true
}

/// The index of the first space, or the length where there is none.
pub open spec fn first_space(s: Seq<char>) -> int
    decreases s.len(),
{
    if s.len() == 0 || s[0] == ' ' {
        0
    } else {
        1 + first_space(s.drop_first())
    }
}

/// The pieces of a text between its spaces; two spaces in a row have an
/// empty piece between them.
pub open spec fn pieces(s: Seq<char>) -> Seq<Seq<char>>
    decreases s.len(),
{
    if first_space(s) < 0 || first_space(s) >= s.len() {
        seq![s]
    } else {
        seq![s.subrange(0, first_space(s))] + pieces(
            s.subrange(first_space(s) + 1, s.len() as int),
        )
    }
}

/// The first space is the one with none in front of it.
pub proof fn lemma_first_space(s: Seq<char>, i: int)
    requires
        0 <= i <= s.len(),
        forall|k: int| 0 <= k < i ==> s[k] != ' ',
        i < s.len() ==> s[i] == ' ',
    ensures
        first_space(s) == i,
    decreases s.len(),
{
    if s.len() == 0 || s[0] == ' ' {
        if i > 0 {
            assert(s[0] != ' ');
        }
    } else {
        let rest = s.drop_first();
        assert forall|k: int| 0 <= k < i - 1 implies rest[k] != ' ' by {
            assert(rest[k] == s[k + 1]);
        }
        lemma_first_space(rest, i - 1);
    }
}

/// The texts of the strings.
pub open spec fn texts(v: Seq<String>) -> Seq<Seq<char>> {
    Seq::new(v.len(), |i: int| v[i]@)
}

/// Splits a text at its spaces.
pub fn split_spaces(text: &str) -> (r: Vec<String>)
    ensures
        texts(r@) == pieces(text@),
        r@.len() >= 1,
{
    let n = text.unicode_len();
    let mut out: Vec<String> = Vec::new();
    let mut start: usize = 0;
    let mut i: usize = 0;
    assert(text@.subrange(0, n as int) =~= text@);
    while i < n
        invariant
            0 <= start <= i <= n,
            n == text@.len(),
            forall|k: int| start <= k < i ==> text@[k] != ' ',
            pieces(text@) == texts(out@) + pieces(text@.subrange(start as int, n as int)),
        decreases n - i,
    {
        if text.get_char(i) == ' ' {
            let ghost tail = text@.subrange(start as int, n as int);
            proof {
                assert forall|k: int| 0 <= k < i - start implies tail[k] != ' ' by {
                    assert(tail[k] == text@[start + k]);
                }
                lemma_first_space(tail, i - start);
                assert(tail.subrange(0, i - start) =~= text@.subrange(start as int, i as int));
                assert(tail.subrange(i - start + 1, tail.len() as int) =~= text@.subrange(
                    i + 1,
                    n as int,
                ));
            }
            let piece = String::from_str(text.substring_char(start, i));
            let ghost had = texts(out@);
            out.push(piece);
            assert(texts(out@) =~= had + seq![piece@]);
            assert(texts(out@) + pieces(text@.subrange(i + 1, n as int)) =~= had + (seq![piece@]
                + pieces(text@.subrange(i + 1, n as int))));
            start = i + 1;
        }
        i = i + 1;
    }
    let ghost tail = text@.subrange(start as int, n as int);
    proof {
        assert forall|k: int| 0 <= k < tail.len() implies tail[k] != ' ' by {
            assert(tail[k] == text@[start + k]);
        }
        lemma_first_space(tail, tail.len() as int);
    }
    let piece = String::from_str(text.substring_char(start, n));
    let ghost had = texts(out@);
    out.push(piece);
    assert(texts(out@) =~= had + seq![tail]);
    out
}

} // verus!
