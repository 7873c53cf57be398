//! The record stored in a page, and its byte layout.
//!
//! A leaf row is laid out as `[id][kind = 1][value length][value]`, an
//! internal row as `[id][kind = 0][left][right]`; every integer takes eight
//! bytes.
use vstd::prelude::*;
use vstd::slice::*;
use super::codec::{get_word, lemma_word_round_trip, put_bytes, put_word, word_at, word_bytes};
use super::{PageError, StorageError};
use vstd::std_specs::cmp::PartialEqSpecImpl;
use vstd::std_specs::convert::TryFromSpecImpl;

verus! {

pub const ROW_ID_SIZE: usize = 8;
pub const ROW_TYPE_SIZE: usize = 1;
pub const ROW_OFFSET_SIZE: usize = 8;
pub const ROW_VALUE_LEN_SIZE: usize = 8;
pub const ROW_HEADER_SIZE: usize = 9;
pub const INTERNAL_ROW_SIZE: usize = 25;
pub const BASE_LEAF_ROW_SIZE: usize = 17;
pub const ROW_ID: usize = 0;
pub const ROW_TYPE: usize = 8;
pub const ROW_LEFT: usize = 9;
pub const ROW_RIGHT: usize = 17;
pub const ROW_VALUE_LEN: usize = 9;
pub const ROW_VALUE: usize = 17;

/// The two kinds of row.
#[derive(Debug, Clone, Copy, PartialEq, Eq, Structural)]
pub enum RowType {
    /// Carries a value; lives in leaf pages.
    Leaf,
    /// Carries a separator key and two child pages; lives in internal pages.
    Internal,
}

impl RowType {
    /// The byte that marks the kind in a serialized row.
    pub open spec fn tag(self) -> u8 {
        match self {
            RowType::Leaf => 1u8,
            RowType::Internal => 0u8,
        }
    }

    /// The byte that marks the kind in a serialized row.
    pub fn to_u8(self) -> (r: u8)
        ensures
            r == self.tag(),
    {
        match self {
            RowType::Leaf => 1,
            RowType::Internal => 0,
        }
    }

    /// The kind that a marker byte stands for.
    pub fn from_u8(value: u8) -> (r: Option<RowType>)
        ensures
            r == (if value == 0 {
                Some(RowType::Internal)
            } else if value == 1 {
                Some(RowType::Leaf)
            } else {
                None::<RowType>
            }),
    {
        if value == 0 {
            Some(RowType::Internal)
        } else if value == 1 {
            Some(RowType::Leaf)
        } else {
            None
        }
    }
}

/// What a row is, apart from how it is stored.
pub enum RowView {
    Leaf { id: usize, value: Seq<u8> },
    Internal { id: usize, left: usize, right: usize },
}

impl RowView {
    pub open spec fn id(self) -> usize {
        match self {
            RowView::Leaf { id, .. } => id,
            RowView::Internal { id, .. } => id,
        }
    }

    pub open spec fn kind(self) -> RowType {
        match self {
            RowView::Leaf { .. } => RowType::Leaf,
            RowView::Internal { .. } => RowType::Internal,
        }
    }

    pub open spec fn left(self) -> usize {
        match self {
            RowView::Leaf { .. } => 0,
            RowView::Internal { left, .. } => left,
        }
    }

    pub open spec fn right(self) -> usize {
        match self {
            RowView::Leaf { .. } => 0,
            RowView::Internal { right, .. } => right,
        }
    }

    pub open spec fn value(self) -> Seq<u8> {
        match self {
            RowView::Leaf { value, .. } => value,
            RowView::Internal { .. } => Seq::empty(),
        }
    }

    /// The number of bytes the serialized row takes.
    pub open spec fn size(self) -> nat {
        match self {
            RowView::Leaf { value, .. } => 17 + value.len(),
            RowView::Internal { .. } => 25,
        }
    }

    /// A row can be stored when the length of its value is itself a field.
    pub open spec fn storable(self) -> bool {
        self.size() <= usize::MAX
    }

    /// The serialized row.
    pub open spec fn bytes(self) -> Seq<u8> {
        match self {
            RowView::Leaf { id, value } => word_bytes(id) + seq![1u8] + word_bytes(
                value.len() as usize,
            ) + value,
            RowView::Internal { id, left, right } => word_bytes(id) + seq![0u8] + word_bytes(left)
                + word_bytes(right),
        }
    }

    /// The row that `b` starts with, if it starts with one.
    pub open spec fn parse(b: Seq<u8>) -> Option<RowView> {
        match word_at(b, 0) {
            None => None,
            Some(id) => if b.len() < 17 {
                None
            } else if b[8] == 0 {
                match (word_at(b, 9), word_at(b, 17)) {
                    (Some(left), Some(right)) => Some(RowView::Internal { id, left, right }),
                    _ => None,
                }
            } else if b[8] == 1 {
                match word_at(b, 9) {
                    Some(n) => if 17 + n <= b.len() {
                        Some(RowView::Leaf { id, value: b.subrange(17, 17 + n) })
                    } else {
                        None
                    },
                    None => None,
                }
            } else {
                None
            },
        }
    }
}

/// In-memory representation of a page record.
#[derive(Debug)]
pub struct Row {
    id: usize,
    _type: RowType,
    left: usize,
    right: usize,
    value: Vec<u8>,
}

impl Row {
    /// The length of the value is itself a field of the serialized row, so
    /// the whole row has to be countable in a machine word.
    #[verifier::type_invariant]
    spec fn countable(self) -> bool {
        self.value.len() + 17 <= usize::MAX
    }
}

impl View for Row {
    type V = RowView;

    closed spec fn view(&self) -> RowView {
        match self._type {
            RowType::Leaf => RowView::Leaf { id: self.id, value: self.value@ },
            RowType::Internal => RowView::Internal {
                id: self.id,
                left: self.left,
                right: self.right,
            },
        }
    }
}

impl PartialEq for Row {
    /// Rows are compared by kind and key alone.
    fn eq(&self, other: &Self) -> (r: bool) {
        self._type == other._type && self.id == other.id
    }
}

impl PartialEqSpecImpl for Row {
    open spec fn obeys_eq_spec() -> bool {
        true
    }

    open spec fn eq_spec(&self, other: &Self) -> bool {
        self@.kind() == other@.kind() && self@.id() == other@.id()
    }
}

impl Eq for Row {

}

impl Clone for Row {
    fn clone(&self) -> (r: Self)
        ensures
            r@ == self@,
    {
        proof {
            use_type_invariant(self);
        }
        Row {
            id: self.id,
            _type: self._type,
            left: self.left,
            right: self.right,
            value: self.value.clone(),
        }
    }
}

impl Row {
    /// Create a new row: a leaf row has an empty value, an internal row
    /// points to page 0 on both sides.
    pub fn new(id: usize, _type: RowType) -> (r: Self)
        ensures
            r@ == (match _type {
                RowType::Leaf => RowView::Leaf { id, value: Seq::empty() },
                RowType::Internal => RowView::Internal { id, left: 0, right: 0 },
            }),
    {
        Row { id, _type, left: 0, right: 0, value: Vec::new() }
    }

    /// Retrieve row ID
    pub fn id(&self) -> (r: usize)
        ensures
            r == self@.id(),
    {
        self.id
    }

    /// The row's kind.
    pub fn kind(&self) -> (r: RowType)
        ensures
            r == self@.kind(),
    {
        self._type
    }

    /// Retrieve row value; only a leaf row has one.
    pub fn value(&self) -> (r: Vec<u8>)
        requires
            self@.kind() == RowType::Leaf,
        ensures
            r@ == self@.value(),
    {
        self.value.clone()
    }

    /// Retrieve row left offset; only an internal row has one.
    pub fn left_offset(&self) -> (r: usize)
        requires
            self@.kind() == RowType::Internal,
        ensures
            r == self@.left(),
    {
        self.left
    }

    /// Retrieve row right offset; only an internal row has one.
    pub fn right_offset(&self) -> (r: usize)
        requires
            self@.kind() == RowType::Internal,
        ensures
            r == self@.right(),
    {
        self.right
    }

    /// The number of bytes the serialized row takes.
    pub fn size(&self) -> (r: usize)
        ensures
            r == self@.size(),
            self@.storable(),
    {
        proof {
            use_type_invariant(self);
        }
        match self._type {
            RowType::Leaf => BASE_LEAF_ROW_SIZE + self.value.len(),
            RowType::Internal => INTERNAL_ROW_SIZE,
        }
    }

    /// Set row ID value
    pub fn set_id(&mut self, id: usize)
        ensures
            final(self)@ == (match old(self)@ {
                RowView::Leaf { value, .. } => RowView::Leaf { id, value },
                RowView::Internal { left, right, .. } => RowView::Internal { id, left, right },
            }),
    {
        proof {
            use_type_invariant(&*self);
        }
        self.id = id;
    }

    /// Set row value; only a leaf row has one.
    pub fn set_value(&mut self, value: &[u8])
        requires
            old(self)@.kind() == RowType::Leaf,
            value@.len() + 17 <= usize::MAX,
        ensures
            final(self)@ == (RowView::Leaf { id: old(self)@.id(), value: value@ }),
    {
        self.value = slice_to_vec(value);
    }

    /// Set row left offset value; only an internal row has one.
    pub fn set_left_offset(&mut self, offset: usize)
        requires
            old(self)@.kind() == RowType::Internal,
        ensures
            final(self)@ == (RowView::Internal {
                id: old(self)@.id(),
                left: offset,
                right: old(self)@.right(),
            }),
    {
        proof {
            use_type_invariant(&*self);
        }
        self.left = offset;
    }

    /// Set row right offset value; only an internal row has one.
    pub fn set_right_offset(&mut self, offset: usize)
        requires
            old(self)@.kind() == RowType::Internal,
        ensures
            final(self)@ == (RowView::Internal {
                id: old(self)@.id(),
                left: old(self)@.left(),
                right: offset,
            }),
    {
        proof {
            use_type_invariant(&*self);
        }
        self.right = offset;
    }

    /// Returns byte representation of the row
    pub fn as_bytes(&self) -> (r: Vec<u8>)
        ensures
            r@ == self@.bytes(),
    {
        let mut out: Vec<u8> = Vec::new();
        put_word(&mut out, self.id);
        match self._type {
            RowType::Leaf => {
                out.push(1u8);
                put_word(&mut out, self.value.len());
                put_bytes(&mut out, self.value.as_slice());
            },
            RowType::Internal => {
                out.push(0u8);
                put_word(&mut out, self.left);
                put_word(&mut out, self.right);
            },
        }
        out
    }

    /// Reads the row that `value` starts with. Bytes after the row are
    /// ignored; bytes that start with no row are reported as corrupt.
    pub fn decode(value: &[u8]) -> (r: Result<Row, StorageError>)
        ensures
            match RowView::parse(value@) {
                Some(v) => r matches Ok(row) && row@ == v,
                None => r == Err::<Row, StorageError>(
                    StorageError::Page { cause: PageError::Corrupt },
                ),
            },
    {
        let corrupt = Err(StorageError::Page { cause: PageError::Corrupt });
        let id = match get_word(value, ROW_ID) {
            Some(id) => id,
            None => { return corrupt; },
        };
        if value.len() < BASE_LEAF_ROW_SIZE {
            return corrupt;
        }
        let _type = match RowType::from_u8(value[ROW_TYPE]) {
            Some(t) => t,
            None => { return corrupt; },
        };
        match _type {
            RowType::Internal => {
                let left = get_word(value, ROW_LEFT);
                let right = get_word(value, ROW_RIGHT);
                match (left, right) {
                    (Some(left), Some(right)) => Ok(
                        Row { id, _type, left, right, value: Vec::new() },
                    ),
                    _ => corrupt,
                }
            },
            RowType::Leaf => {
                let len = match get_word(value, ROW_VALUE_LEN) {
                    Some(n) => n,
                    None => { return corrupt; },
                };
                if len > value.len() - ROW_VALUE {
                    return corrupt;
                }
                let payload = slice_to_vec(slice_subrange(value, ROW_VALUE, ROW_VALUE + len));
                Ok(Row { id, _type, left: 0, right: 0, value: payload })
            },
        }
    }
}

impl TryFrom<&[u8]> for Row {
    type Error = StorageError;

    fn try_from(value: &[u8]) -> (r: Result<Row, StorageError>)
        ensures
            match RowView::parse(value@) {
                Some(v) => r matches Ok(row) && row@ == v,
                None => r == Err::<Row, StorageError>(
                    StorageError::Page { cause: PageError::Corrupt },
                ),
            },
    {
        Row::decode(value)
    }
}

impl TryFromSpecImpl<&[u8]> for Row {
    open spec fn obeys_try_from_spec() -> bool {
        false
    }

    open spec fn try_from_spec(v: &[u8]) -> Result<Self, Self::Error> {
        arbitrary()
    }
}

/// Encode-then-decode is the identity on rows, whatever follows the row.
pub proof fn lemma_row_round_trip(v: RowView, rest: Seq<u8>)
    requires
        v.storable(),
    ensures
        v.bytes().len() == v.size(),
        RowView::parse(v.bytes() + rest) == Some(v),
{
    vstd::bytes::lemma_auto_spec_u64_to_from_le_bytes();
    let b = v.bytes() + rest;
    match v {
        RowView::Leaf { id, value } => {
            let n = value.len() as usize;
            lemma_word_round_trip(id, Seq::empty(), seq![1u8] + word_bytes(n) + value + rest);
            assert(b =~= Seq::<u8>::empty() + word_bytes(id) + (seq![1u8] + word_bytes(n) + value
                + rest));
            lemma_word_round_trip(n, word_bytes(id) + seq![1u8], value + rest);
            assert(b =~= (word_bytes(id) + seq![1u8]) + word_bytes(n) + (value + rest));
            assert(b.subrange(17, 17 + n) =~= value);
        },
        RowView::Internal { id, left, right } => {
            lemma_word_round_trip(
                id,
                Seq::empty(),
                seq![0u8] + word_bytes(left) + word_bytes(right) + rest,
            );
            assert(b =~= Seq::<u8>::empty() + word_bytes(id) + (seq![0u8] + word_bytes(left)
                + word_bytes(right) + rest));
            lemma_word_round_trip(left, word_bytes(id) + seq![0u8], word_bytes(right) + rest);
            assert(b =~= (word_bytes(id) + seq![0u8]) + word_bytes(left) + (word_bytes(right)
                + rest));
            lemma_word_round_trip(right, word_bytes(id) + seq![0u8] + word_bytes(left), rest);
            assert(b =~= (word_bytes(id) + seq![0u8] + word_bytes(left)) + word_bytes(right)
                + rest);
        },
    }
}

} // verus!
