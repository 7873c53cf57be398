//! Text as it is stored in a row: every character takes a cell of four
//! bytes, its UTF-8 encoding followed by zeros.
use vstd::prelude::*;
use vstd::slice::slice_subrange;
use vstd::string::{StrSliceExecFns, StringExecFns};
use vstd::utf8::{
    decode_utf8, encode_scalar, encode_utf8, encode_utf8_decode_utf8, encode_utf8_valid_utf8,
    valid_utf8,
};

verus! {

pub const USERNAME_MAX_LENGTH: usize = 32;

pub const EMAIL_MAX_LENGTH: usize = 255;

/// The cell of a character: its UTF-8 encoding, filled up to four bytes
/// with zeros.
pub open spec fn cell(c: char) -> Seq<u8> {
    encode_scalar(c as u32) + Seq::new(
        (4 - encode_scalar(c as u32).len()) as nat,
        |i: int| 0u8,
    )
}

/// The cells of the characters, one after the other.
pub open spec fn cells(chars: Seq<char>) -> Seq<u8>
    decreases chars.len(),
{
    if chars.len() == 0 {
        Seq::empty()
    } else {
        cells(chars.drop_last()) + cell(chars.last())
    }
}

/// The character that a cell holds: the first one of the text that the
/// bytes encode.
pub open spec fn cell_char(chunk: Seq<u8>) -> Option<char> {
    if chunk.len() > 0 && valid_utf8(chunk) {
        Some(decode_utf8(chunk)[0])
    } else {
        None
    }
}

/// The characters of the cells that the bytes are made of; the last cell
/// may be short.
pub open spec fn chars_of(bytes: Seq<u8>) -> Option<Seq<char>>
    decreases bytes.len(),
{
    if bytes.len() == 0 {
        Some(Seq::empty())
    } else {
        let n = if bytes.len() < 4 {
            bytes.len() as int
        } else {
            4int
        };
        match (cell_char(bytes.subrange(0, n)), chars_of(bytes.subrange(n, bytes.len() as int))) {
            (Some(c), Some(rest)) => Some(seq![c] + rest),
            _ => None,
        }
    }
}

/// `char::encode_utf8` of the standard library: the UTF-8 encoding of the
/// character, one to four bytes.
#[verifier::external_body]
pub(crate) fn utf8_of(c: char) -> (r: Vec<u8>)
    ensures
        r@ == encode_scalar(c as u32),
{
    let mut buf = [0u8; 4];
    c.encode_utf8(&mut buf).as_bytes().to_vec()
}

/// `std::str::from_utf8`: the text that the bytes encode, if they are
/// valid UTF-8.
#[verifier::external_body]
pub(crate) fn utf8_str(bytes: &[u8]) -> (r: Option<&str>)
    ensures
        r is Some <==> valid_utf8(bytes@),
        r is Some ==> (r->0)@ == decode_utf8(bytes@),
{
    std::str::from_utf8(bytes).ok()
}

/// Converts a byte array into a UTF-8 character array.
pub fn byte_to_char(bytes: &[u8]) -> (r: Result<Vec<char>, String>)
    ensures
        match chars_of(bytes@) {
            Some(chars) => r matches Ok(out) && out@ == chars,
            None => r matches Err(e) && e@ == "failed to convert byte into character"@,
        },
{
    let mut out: Vec<char> = Vec::new();
    let mut i: usize = 0;
    assert(bytes@.subrange(0, bytes@.len() as int) =~= bytes@);
    while i < bytes.len()
        invariant
            0 <= i <= bytes@.len(),
            chars_of(bytes@) == (match chars_of(bytes@.subrange(i as int, bytes@.len() as int)) {
                Some(rest) => Some(out@ + rest),
                None => None,
            }),
        decreases bytes@.len() - i,
    {
        let end: usize = if bytes.len() - i < 4 {
            bytes.len()
        } else {
            i + 4
        };
        let chunk = slice_subrange(bytes, i, end);
        let ghost tail = bytes@.subrange(i as int, bytes@.len() as int);
        assert(chunk@ =~= tail.subrange(0, end - i));
        assert(bytes@.subrange(end as int, bytes@.len() as int) =~= tail.subrange(
            end - i,
            tail.len() as int,
        ));
        let text = match utf8_str(chunk) {
            Some(t) => t,
            None => {
                return Err(String::from_str("failed to convert byte into character"));
            },
        };
        let ghost prev = out@;
        let ch = text.get_char(0);
        out.push(ch);
        proof {
            match chars_of(bytes@.subrange(end as int, bytes@.len() as int)) {
                Some(rest) => {
                    assert(prev + (seq![ch] + rest) =~= out@ + rest);
                },
                None => {},
            }
        }
        i = end;
    }
    assert(out@ + Seq::<char>::empty() =~= out@);
    Ok(out)
}

/// Converts a character array into a byte array.
pub fn char_to_byte(chars: &[char]) -> (r: Vec<u8>)
    ensures
        r@ == cells(chars@),
{
    let mut out: Vec<u8> = Vec::new();
    let mut i: usize = 0;
    assert(chars@.subrange(0, 0) =~= Seq::<char>::empty());
    while i < chars.len()
        invariant
            0 <= i <= chars@.len(),
            out@ == cells(chars@.subrange(0, i as int)),
        decreases chars@.len() - i,
    {
        let ghost before = out@;
        let c = chars[i];
        let mut code = utf8_of(c);
        let ghost enc = code@;
        let mut fill: usize = code.len();
        out.append(&mut code);
        while fill < 4
            invariant
                enc == encode_scalar(c as u32),
                enc.len() <= fill <= 4,
                out@ == before + enc + Seq::new((fill - enc.len()) as nat, |i: int| 0u8),
            decreases 4 - fill,
        {
            out.push(0u8);
            fill = fill + 1;
            assert(out@ =~= before + enc + Seq::new((fill - enc.len()) as nat, |i: int| 0u8));
        }
        proof {
            let next = chars@.subrange(0, i + 1);
            assert(next.drop_last() =~= chars@.subrange(0, i as int));
            assert(next.last() == c);
            assert(out@ =~= before + cell(c));
        }
        i = i + 1;
    }
    assert(chars@.subrange(0, chars@.len() as int) =~= chars@);
    out
}

/// The text of a cell: the character and the NUL characters that fill
/// the cell.
pub open spec fn cell_text(c: char) -> Seq<char> {
    seq![c] + Seq::new((4 - encode_scalar(c as u32).len()) as nat, |i: int| '\0')
}

/// NUL characters are encoded as zero bytes.
pub proof fn lemma_nul_bytes(n: nat)
    ensures
        encode_utf8(Seq::new(n, |i: int| '\0')) == Seq::new(n, |i: int| 0u8),
    decreases n,
{
    let text = Seq::new(n, |i: int| '\0');
    if n > 0 {
        lemma_nul_bytes((n - 1) as nat);
        assert(text.drop_first() =~= Seq::new((n - 1) as nat, |i: int| '\0'));
        assert(encode_scalar('\0' as u32) =~= seq![0u8]) by {
            assert((0u32 & 0x7F) as u8 == 0u8) by (bit_vector);
        }
        assert(encode_utf8(text) =~= Seq::new(n, |i: int| 0u8));
    } else {
        assert(encode_utf8(text) =~= Seq::new(n, |i: int| 0u8));
    }
}

/// The text that is encoded in several parts is encoded part by part.
pub proof fn lemma_encode_concat(a: Seq<char>, b: Seq<char>)
    ensures
        encode_utf8(a + b) == encode_utf8(a) + encode_utf8(b),
    decreases a.len(),
{
    if a.len() == 0 {
        assert(a + b =~= b);
        assert(encode_utf8(a) + encode_utf8(b) =~= encode_utf8(b));
    } else {
        lemma_encode_concat(a.drop_first(), b);
        assert((a + b).drop_first() =~= a.drop_first() + b);
        assert((a + b)[0] == a[0]);
        assert(encode_utf8(a + b) =~= encode_utf8(a) + encode_utf8(b));
    }
}

/// A cell holds the character that it was made for.
pub proof fn lemma_cell_round_trip(c: char)
    ensures
        cell(c).len() == 4,
        cell_char(cell(c)) == Some(c),
{
    let fill = (4 - encode_scalar(c as u32).len()) as nat;
    let nuls = Seq::new(fill, |i: int| '\0');
    lemma_nul_bytes(fill);
    lemma_encode_concat(seq![c], nuls);
    assert(encode_utf8(seq![c]) =~= encode_scalar(c as u32)) by {
        assert(seq![c].drop_first() =~= Seq::<char>::empty());
        assert(encode_utf8(Seq::<char>::empty()) =~= Seq::<u8>::empty());
    }
    assert(cell(c) =~= encode_utf8(cell_text(c)));
    encode_utf8_valid_utf8(cell_text(c));
    encode_utf8_decode_utf8(cell_text(c));
}

/// The cells of a text start with the cell of its first character.
pub proof fn lemma_cells_first(chars: Seq<char>)
    requires
        chars.len() > 0,
    ensures
        cells(chars) == cell(chars[0]) + cells(chars.drop_first()),
    decreases chars.len(),
{
    if chars.len() == 1 {
        assert(chars.drop_last() =~= Seq::<char>::empty());
        assert(chars.drop_first() =~= Seq::<char>::empty());
        assert(cells(chars) =~= cell(chars[0]) + cells(chars.drop_first()));
    } else {
        lemma_cells_first(chars.drop_last());
        assert(chars.drop_last().drop_first() =~= chars.drop_first().drop_last());
        assert(chars.drop_first().last() == chars.last());
        assert(cells(chars) =~= cell(chars[0]) + cells(chars.drop_first()));
    }
}

/// Text that was laid out in cells is read back from them.
pub proof fn lemma_cells_round_trip(chars: Seq<char>)
    ensures
        cells(chars).len() == 4 * chars.len(),
        chars_of(cells(chars)) == Some(chars),
    decreases chars.len(),
{
    if chars.len() > 0 {
        let tail = chars.drop_first();
        lemma_cells_first(chars);
        lemma_cell_round_trip(chars[0]);
        lemma_cells_round_trip(tail);
        let bytes = cells(chars);
        assert(bytes.subrange(0, 4) =~= cell(chars[0]));
        assert(bytes.subrange(4, bytes.len() as int) =~= cells(tail));
        assert(seq![chars[0]] + tail =~= chars);
    }
}

} // verus!
