//! Fixed-width integer fields as they are laid out in rows and pages:
//! eight bytes, least significant first.
use vstd::prelude::*;
use vstd::bytes::*;
use vstd::slice::*;

verus! {

/// Width in bytes of every integer field.
pub const WORD: usize = 8;

/// The eight bytes that stand for `x`.
pub open spec fn word_bytes(x: usize) -> Seq<u8> {
    spec_u64_to_le_bytes(x as u64)
}

/// The integer that the eight bytes of `s` from `pos` on stand for, if it
/// fits the machine's word.
pub open spec fn word_at(s: Seq<u8>, pos: int) -> Option<usize> {
    if 0 <= pos && pos + 8 <= s.len() && spec_u64_from_le_bytes(s.subrange(pos, pos + 8))
        <= usize::MAX {
        Some(spec_u64_from_le_bytes(s.subrange(pos, pos + 8)) as usize)
    } else {
        None
    }
}

/// A field that was written is read back unchanged, whatever follows it.
pub proof fn lemma_word_round_trip(x: usize, before: Seq<u8>, after: Seq<u8>)
    ensures
        word_bytes(x).len() == 8,
        word_at(before + word_bytes(x) + after, before.len() as int) == Some(x),
{
    lemma_auto_spec_u64_to_from_le_bytes();
    let s = before + word_bytes(x) + after;
    let p = before.len() as int;
    assert(s.subrange(p, p + 8) =~= word_bytes(x));
}

/// Appends the eight bytes of `x` to `buf`.
pub fn put_word(buf: &mut Vec<u8>, x: usize)
    ensures
        final(buf)@ == old(buf)@ + word_bytes(x),
        final(buf)@.len() == old(buf)@.len() + 8,
{
    let mut field = u64_to_le_bytes(x as u64);
    buf.append(&mut field);
}

/// Reads the field that starts at `pos`.
pub fn get_word(bytes: &[u8], pos: usize) -> (r: Option<usize>)
    ensures
        r == word_at(bytes@, pos as int),
{
    if pos > bytes.len() || bytes.len() - pos < WORD {
        return None;
    }
    let v = u64_from_le_bytes(slice_subrange(bytes, pos, pos + WORD));
    if v > usize::MAX as u64 {
        None
    } else {
        Some(v as usize)
    }
}

/// Appends a copy of `bytes` to `buf`.
pub fn put_bytes(buf: &mut Vec<u8>, bytes: &[u8])
    ensures
        final(buf)@ == old(buf)@ + bytes@,
{
    let mut copy = slice_to_vec(bytes);
    buf.append(&mut copy);
}

} // verus!

