//! The fixed-size node of the tree.
//!
//! A page is 4096 bytes: a header `[kind][has parent][parent][row count]`
//! followed by the serialized rows, packed in key order, and zero padding.
//! The rows of a leaf page carry values; the rows of an internal page carry
//! separator keys and child pages.
use vstd::prelude::*;
use vstd::slice::slice_subrange;
use vstd::std_specs::convert::TryFromSpecImpl;
use super::codec::{get_word, lemma_word_round_trip, put_bytes, put_word, word_at, word_bytes};
use super::row::{lemma_row_round_trip, Row, RowType, RowView};
use super::{PageError, StorageError};

verus! {

/// Standard page size; 4KB
pub const PAGE_SIZE: usize = 4096;

pub const PAGE_KIND_SIZE: usize = 1;

pub const PAGE_HAS_PARENT_SIZE: usize = 1;

pub const PAGE_PARENT_SIZE: usize = 8;

pub const PAGE_ROWS_SIZE: usize = 8;

pub const PAGE_HEADER_SIZE: usize = 18;

/// The bytes of a page that are available to rows.
pub const ROW_SPACE: usize = 4078;

pub const PAGE_TYPE: usize = 0;

pub const PAGE_HAS_PARENT: usize = 1;

pub const PAGE_PARENT: usize = 2;

pub const PAGE_ROWS: usize = 10;

/// Flags to denote whether a page has a parent or not
pub const HAS_PARENT: u8 = 3;

pub const IS_ROOT: u8 = 4;

/// List of support page types
#[derive(Debug, Clone, Copy, PartialEq, Eq, Structural)]
pub enum PageType {
    Internal,
    Leaf,
}

impl PageType {
    /// The byte that marks the kind in a serialized page.
    pub open spec fn tag(self) -> u8 {
        match self {
            PageType::Leaf => 0u8,
            PageType::Internal => 1u8,
        }
    }

    /// The kind that a marker byte stands for.
    pub open spec fn of_tag(b: u8) -> Option<PageType> {
        if b == 0 {
            Some(PageType::Leaf)
        } else if b == 1 {
            Some(PageType::Internal)
        } else {
            None
        }
    }

    /// The kind of row that a page of this kind holds.
    pub open spec fn row_kind(self) -> RowType {
        match self {
            PageType::Leaf => RowType::Leaf,
            PageType::Internal => RowType::Internal,
        }
    }

    /// The byte that marks the kind in a serialized page.
    pub fn to_u8(self) -> (r: u8)
        ensures
            r == self.tag(),
    {
        match self {
            PageType::Leaf => 0,
            PageType::Internal => 1,
        }
    }

    /// The kind that a marker byte stands for.
    pub fn from_u8(value: u8) -> (r: Option<PageType>)
        ensures
            r == PageType::of_tag(value),
    {
        if value == 0 {
            Some(PageType::Leaf)
        } else if value == 1 {
            Some(PageType::Internal)
        } else {
            None
        }
    }

    /// The kind of row that a page of this kind holds.
    pub fn row_type(self) -> (r: RowType)
        ensures
            r == self.row_kind(),
    {
        match self {
            PageType::Leaf => RowType::Leaf,
            PageType::Internal => RowType::Internal,
        }
    }
}

/// What each of the rows is.
pub open spec fn views(rows: Seq<Row>) -> Seq<RowView> {
    Seq::new(rows.len(), |i: int| rows[i]@)
}

/// Keys grow strictly from each row to the next.
pub open spec fn ids_increasing(rows: Seq<RowView>) -> bool {
    forall|i: int, j: int| 0 <= i < j < rows.len() ==> rows[i].id() < rows[j].id()
}

/// Every row is of the given kind.
pub open spec fn all_of_kind(rows: Seq<RowView>, kind: RowType) -> bool {
    forall|i: int| 0 <= i < rows.len() ==> (#[trigger] rows[i]).kind() == kind
}

/// Each row's right child is the next row's left child.
pub open spec fn linked(rows: Seq<RowView>) -> bool {
    forall|i: int| 0 <= i && i + 1 < rows.len() ==> (#[trigger] rows[i]).right() == rows[i + 1].left()
}

/// The bytes that the rows take together.
pub open spec fn total_size(rows: Seq<RowView>) -> nat
    decreases rows.len(),
{
    if rows.len() == 0 {
        0
    } else {
        total_size(rows.drop_last()) + rows.last().size()
    }
}

/// The rows, serialized one after the other.
pub open spec fn rows_bytes(rows: Seq<RowView>) -> Seq<u8>
    decreases rows.len(),
{
    if rows.len() == 0 {
        Seq::empty()
    } else {
        rows_bytes(rows.drop_last()) + rows.last().bytes()
    }
}

/// `p` parts the rows into those with a smaller key and the others.
pub open spec fn is_slot(rows: Seq<RowView>, id: usize, p: int) -> bool {
    &&& 0 <= p <= rows.len()
    &&& forall|i: int| 0 <= i < p ==> (#[trigger] rows[i]).id() < id
    &&& forall|i: int| p <= i < rows.len() ==> (#[trigger] rows[i]).id() >= id
}

/// Where a row with key `id` stands or would be inserted.
pub open spec fn slot(rows: Seq<RowView>, id: usize) -> int {
    choose|p: int| is_slot(rows, id, p)
}

/// Some row carries the key.
pub open spec fn has_id(rows: Seq<RowView>, id: usize) -> bool {
    exists|i: int| 0 <= i < rows.len() && (#[trigger] rows[i]).id() == id
}

/// The row with another left child; a leaf row has none and stays.
pub open spec fn with_left(r: RowView, left: usize) -> RowView {
    match r {
        RowView::Internal { id, right, .. } => RowView::Internal { id, left, right },
        RowView::Leaf { .. } => r,
    }
}

/// The row with another right child; a leaf row has none and stays.
pub open spec fn with_right(r: RowView, right: usize) -> RowView {
    match r {
        RowView::Internal { id, left, .. } => RowView::Internal { id, left, right },
        RowView::Leaf { .. } => r,
    }
}

/// The rows after the neighbours of row `p` were made to agree with it:
/// the row before takes its left child as right child, the row after
/// takes its right child as left child.
pub open spec fn relink(rows: Seq<RowView>, p: int) -> Seq<RowView> {
    let a = if 0 < p < rows.len() {
        rows.update(p - 1, with_right(rows[p - 1], rows[p].left()))
    } else {
        rows
    };
    if 0 <= p && p + 1 < rows.len() {
        a.update(p + 1, with_left(rows[p + 1], rows[p].right()))
    } else {
        a
    }
}

/// There is at most one slot, and a key is present exactly when the row
/// at its slot carries it.
pub proof fn lemma_slot(rows: Seq<RowView>, id: usize, p: int)
    requires
        is_slot(rows, id, p),
        ids_increasing(rows),
    ensures
        slot(rows, id) == p,
        has_id(rows, id) <==> (p < rows.len() && rows[p].id() == id),
{
    if has_id(rows, id) {
        let i = choose|i: int| 0 <= i < rows.len() && (#[trigger] rows[i]).id() == id;
        if i < p {
            assert(rows[i].id() < id);
        }
        if i > p {
            assert(rows[p].id() >= id);
            assert(rows[p].id() < rows[i].id());
        }
    }
    let q = slot(rows, id);
    assert(is_slot(rows, id, q));
    if q < p {
        assert(rows[q].id() < id);
        assert(rows[q].id() >= id);
    }
    if p < q {
        assert(rows[p].id() < id);
        assert(rows[p].id() >= id);
    }
}

/// The sizes of two runs of rows add up.
pub proof fn lemma_total_size_concat(a: Seq<RowView>, b: Seq<RowView>)
    ensures
        total_size(a + b) == total_size(a) + total_size(b),
        rows_bytes(a + b) == rows_bytes(a) + rows_bytes(b),
    decreases b.len(),
{
    if b.len() == 0 {
        assert(a + b =~= a);
        assert(rows_bytes(a) + rows_bytes(b) =~= rows_bytes(a));
    } else {
        assert((a + b).drop_last() =~= a + b.drop_last());
        assert((a + b).last() == b.last());
        lemma_total_size_concat(a, b.drop_last());
        assert(rows_bytes(a + b) =~= rows_bytes(a) + rows_bytes(b));
    }
}

/// The size of one row, as a run of its own.
pub proof fn lemma_total_size_one(r: RowView)
    ensures
        total_size(seq![r]) == r.size(),
        rows_bytes(seq![r]) == r.bytes(),
{
    assert(seq![r].drop_last() =~= Seq::<RowView>::empty());
    assert(total_size(seq![r].drop_last()) == 0);
    assert(rows_bytes(seq![r].drop_last()) =~= Seq::<u8>::empty());
    assert(rows_bytes(seq![r]) =~= r.bytes());
}

/// A run of rows is made of its part before `m` and its part from `m` on.
pub proof fn lemma_total_size_split(rows: Seq<RowView>, m: int)
    requires
        0 <= m <= rows.len(),
    ensures
        total_size(rows) == total_size(rows.subrange(0, m)) + total_size(
            rows.subrange(m, rows.len() as int),
        ),
{
    assert(rows =~= rows.subrange(0, m) + rows.subrange(m, rows.len() as int));
    lemma_total_size_concat(rows.subrange(0, m), rows.subrange(m, rows.len() as int));
}

/// Inserting a row adds its size.
pub proof fn lemma_total_size_insert(rows: Seq<RowView>, p: int, r: RowView)
    requires
        0 <= p <= rows.len(),
    ensures
        total_size(rows.insert(p, r)) == total_size(rows) + r.size(),
{
    let a = rows.subrange(0, p);
    let b = rows.subrange(p, rows.len() as int);
    assert(rows.insert(p, r) =~= a + seq![r] + b);
    lemma_total_size_split(rows, p);
    lemma_total_size_one(r);
    lemma_total_size_concat(a, seq![r]);
    lemma_total_size_concat(a + seq![r], b);
}

/// Removing a row takes its size away.
pub proof fn lemma_total_size_remove(rows: Seq<RowView>, p: int)
    requires
        0 <= p < rows.len(),
    ensures
        total_size(rows) == total_size(rows.remove(p)) + rows[p].size(),
{
    assert(rows.remove(p).insert(p, rows[p]) =~= rows);
    lemma_total_size_insert(rows.remove(p), p, rows[p]);
}

/// Replacing a row exchanges its size for the new one's.
pub proof fn lemma_total_size_update(rows: Seq<RowView>, p: int, r: RowView)
    requires
        0 <= p < rows.len(),
    ensures
        total_size(rows.update(p, r)) + rows[p].size() == total_size(rows) + r.size(),
{
    assert(rows.update(p, r) =~= rows.remove(p).insert(p, r));
    lemma_total_size_remove(rows, p);
    lemma_total_size_insert(rows.remove(p), p, r);
}

/// Making the neighbours agree changes neither keys nor kinds nor sizes,
/// and the three rows around `p` are linked afterwards.
pub proof fn lemma_relink(rows: Seq<RowView>, p: int)
    requires
        0 <= p < rows.len(),
    ensures
        relink(rows, p).len() == rows.len(),
        forall|i: int|
            0 <= i < rows.len() ==> {
                &&& (#[trigger] relink(rows, p)[i]).id() == rows[i].id()
                &&& relink(rows, p)[i].kind() == rows[i].kind()
                &&& relink(rows, p)[i].size() == rows[i].size()
            },
        relink(rows, p)[p] == rows[p],
        total_size(relink(rows, p)) == total_size(rows),
        ids_increasing(rows) ==> ids_increasing(relink(rows, p)),
{
    let a = if 0 < p {
        rows.update(p - 1, with_right(rows[p - 1], rows[p].left()))
    } else {
        rows
    };
    if 0 < p {
        lemma_total_size_update(rows, p - 1, with_right(rows[p - 1], rows[p].left()));
    }
    if p + 1 < rows.len() {
        lemma_total_size_update(a, p + 1, with_left(rows[p + 1], rows[p].right()));
    }
    let out = relink(rows, p);
    assert forall|i: int| 0 <= i < rows.len() implies {
        &&& (#[trigger] out[i]).id() == rows[i].id()
        &&& out[i].kind() == rows[i].kind()
        &&& out[i].size() == rows[i].size()
    } by {}
    if ids_increasing(rows) {
        assert forall|i: int, j: int| 0 <= i < j < out.len() implies out[i].id() < out[j].id() by {
            assert(out[i].id() == rows[i].id());
            assert(out[j].id() == rows[j].id());
        }
    }
}

/// Inserting a row of an internal page at its slot and making the
/// neighbours agree keeps the page linked.
pub proof fn lemma_insert_keeps_links(rows: Seq<RowView>, p: int, r: RowView)
    requires
        0 <= p <= rows.len(),
        linked(rows),
        all_of_kind(rows, RowType::Internal),
        r.kind() == RowType::Internal,
    ensures
        linked(relink(rows.insert(p, r), p)),
{
    let ins = rows.insert(p, r);
    let out = relink(ins, p);
    assert forall|i: int| 0 <= i && i + 1 < out.len() implies (#[trigger] out[i]).right()
        == out[i + 1].left() by {
        if i + 1 < p - 1 {
            assert(out[i] == rows[i]);
            assert(out[i + 1] == rows[i + 1]);
        } else if i + 1 == p - 1 {
            assert(out[i] == rows[i]);
            assert(rows[i + 1].kind() == RowType::Internal);
            assert(out[i + 1].left() == rows[i + 1].left());
        } else if i + 1 == p {
            assert(rows[i].kind() == RowType::Internal);
        } else if i == p {
            assert(rows[p].kind() == RowType::Internal);
        } else if i == p + 1 {
            assert(rows[p].kind() == RowType::Internal);
            assert(out[i].right() == rows[i - 1].right());
            assert(out[i + 1] == rows[i]);
        } else {
            assert(out[i] == rows[i - 1]);
            assert(out[i + 1] == rows[i]);
        }
    }
}

/// What a page is, apart from how it is stored.
pub struct PageView {
    pub kind: PageType,
    pub parent: Option<usize>,
    pub rows: Seq<RowView>,
}

impl PageView {
    /// Keys grow strictly, every row is of the page's kind, and the rows
    /// fit into the body.
    pub open spec fn well_formed(self) -> bool {
        &&& ids_increasing(self.rows)
        &&& all_of_kind(self.rows, self.kind.row_kind())
        &&& total_size(self.rows) <= ROW_SPACE
    }

    /// The page with other rows.
    pub open spec fn with_rows(self, rows: Seq<RowView>) -> PageView {
        PageView { kind: self.kind, parent: self.parent, rows }
    }

    /// The page under another parent.
    pub open spec fn with_parent(self, parent: Option<usize>) -> PageView {
        PageView { kind: self.kind, parent, rows: self.rows }
    }

    /// What inserting `row` makes of the page: a key that is present is a
    /// duplicate; a row that does not fit finds the page full; else the
    /// row goes to its slot and its neighbours are made to agree with it.
    pub open spec fn insert(self, row: RowView) -> Result<PageView, PageError> {
        let p = slot(self.rows, row.id());
        if has_id(self.rows, row.id()) {
            Err(PageError::Duplicate)
        } else if total_size(self.rows) + row.size() > ROW_SPACE {
            Err(PageError::Full)
        } else {
            Ok(self.with_rows(relink(self.rows.insert(p, row), p)))
        }
    }

    /// What updating to `row` makes of the page, and the row that was
    /// replaced: the key has to be present, and the new row has to fit in
    /// place of the old one.
    pub open spec fn update(self, row: RowView) -> Result<(PageView, RowView), PageError> {
        let p = slot(self.rows, row.id());
        if !has_id(self.rows, row.id()) {
            Err(PageError::MissingKey)
        } else if total_size(self.rows) - self.rows[p].size() + row.size() > ROW_SPACE {
            Err(PageError::Full)
        } else {
            Ok((self.with_rows(self.rows.update(p, row)), self.rows[p]))
        }
    }

    /// What deleting the key `id` makes of the page: the key has to be
    /// present.
    pub open spec fn delete(self, id: usize) -> Result<PageView, PageError> {
        let p = slot(self.rows, id);
        if !has_id(self.rows, id) {
            Err(PageError::MissingKey)
        } else {
            Ok(self.with_rows(self.rows.remove(p)))
        }
    }

    /// The eighteen bytes in front of the rows.
    pub open spec fn header(self) -> Seq<u8> {
        seq![self.kind.tag()] + (match self.parent {
            Some(p) => seq![HAS_PARENT] + word_bytes(p),
            None => seq![IS_ROOT] + word_bytes(0),
        }) + word_bytes(self.rows.len() as usize)
    }

    /// The serialized page: header, rows, zero padding.
    pub open spec fn bytes(self) -> Seq<u8> {
        self.header() + rows_bytes(self.rows) + Seq::new(
            (ROW_SPACE - total_size(self.rows)) as nat,
            |i: int| 0u8,
        )
    }

    /// The parent that the header of `b` names: none for the root flag.
    pub open spec fn parse_parent(b: Seq<u8>) -> Option<Option<usize>> {
        if b[1] == IS_ROOT {
            Some(None)
        } else {
            match word_at(b, 2) {
                Some(p) => Some(Some(p)),
                None => None,
            }
        }
    }

    /// The `n` rows that are packed in `b` from `off` on, if there are as
    /// many.
    pub open spec fn parse_rows(b: Seq<u8>, off: int, n: nat) -> Option<Seq<RowView>>
        decreases n,
    {
        if n == 0 {
            Some(Seq::empty())
        } else if off < 0 || off > b.len() {
            None
        } else {
            match RowView::parse(b.subrange(off, b.len() as int)) {
                None => None,
                Some(r) => match Self::parse_rows(b, off + r.size(), (n - 1) as nat) {
                    None => None,
                    Some(rest) => Some(seq![r] + rest),
                },
            }
        }
    }

    /// The page that `b` describes, if it describes one: `b` is a whole
    /// page, its header names a kind, a parent and a row count, that many
    /// rows follow, all of the page's kind and in strictly growing key
    /// order.
    pub open spec fn parse(b: Seq<u8>) -> Option<PageView> {
        if b.len() != PAGE_SIZE {
            None
        } else {
            match (PageType::of_tag(b[0]), Self::parse_parent(b), word_at(b, 10)) {
                (Some(kind), Some(parent), Some(n)) => match Self::parse_rows(b, 18, n as nat) {
                    Some(rows) => if ids_increasing(rows) && all_of_kind(rows, kind.row_kind()) {
                        Some(PageView { kind, parent, rows })
                    } else {
                        None
                    },
                    None => None,
                },
                _ => None,
            }
        }
    }
}

/// Representation of Page
///
/// Pages are the core unit of IO operation in the database.
#[derive(Debug)]
pub struct Page {
    pub _type: PageType,
    pub offset: usize,
    pub parent: Option<usize>,
    /// The bytes that the rows take.
    pub size: usize,
    pub rows: Vec<Row>,
}

impl View for Page {
    type V = PageView;

    open spec fn view(&self) -> PageView {
        PageView { kind: self._type, parent: self.parent, rows: views(self.rows@) }
    }
}

/// A copy of the rows.
pub fn clone_rows(rows: &Vec<Row>) -> (r: Vec<Row>)
    ensures
        views(r@) == views(rows@),
        r@.len() == rows@.len(),
{
    let mut out: Vec<Row> = Vec::new();
    let mut i: usize = 0;
    while i < rows.len()
        invariant
            0 <= i <= rows.len(),
            out@.len() == i,
            forall|k: int| 0 <= k < i ==> (#[trigger] out@[k])@ == rows@[k]@,
        decreases rows.len() - i,
    {
        out.push(rows[i].clone());
        i = i + 1;
    }
    assert(views(out@) =~= views(rows@));
    out
}

/// The slot of the key `id` among rows in key order, and whether the row
/// at the slot carries the key.
pub fn search_rows(rows: &Vec<Row>, id: usize) -> (r: (usize, bool))
    requires
        ids_increasing(views(rows@)),
    ensures
        r.0 == slot(views(rows@), id),
        is_slot(views(rows@), id, r.0 as int),
        r.1 == has_id(views(rows@), id),
        r.1 ==> r.0 < rows@.len() && rows@[r.0 as int]@.id() == id,
{
    let ghost v = views(rows@);
    let mut lo: usize = 0;
    let mut hi: usize = rows.len();
    while lo < hi
        invariant
            0 <= lo <= hi <= rows@.len(),
            v == views(rows@),
            ids_increasing(v),
            forall|i: int| 0 <= i < lo ==> (#[trigger] v[i]).id() < id,
            forall|i: int| hi <= i < v.len() ==> (#[trigger] v[i]).id() >= id,
        decreases hi - lo,
    {
        let mid: usize = lo + (hi - lo) / 2;
        let key = rows[mid].id();
        assert(v[mid as int].id() == key);
        if key < id {
            lo = mid + 1;
        } else {
            hi = mid;
        }
    }
    proof {
        lemma_slot(v, id, lo as int);
    }
    let found = lo < rows.len() && rows[lo].id() == id;
    assert(lo < rows@.len() ==> v[lo as int].id() == rows@[lo as int]@.id());
    (lo, found)
}

/// Whether the rows are of the given kind and in strictly growing key
/// order.
pub fn check_rows(rows: &Vec<Row>, kind: RowType) -> (r: bool)
    ensures
        r == (ids_increasing(views(rows@)) && all_of_kind(views(rows@), kind)),
{
    let ghost v = views(rows@);
    let mut i: usize = 0;
    while i < rows.len()
        invariant
            0 <= i <= rows@.len(),
            v == views(rows@),
            forall|a: int, b: int| 0 <= a < b < i ==> v[a].id() < v[b].id(),
            forall|a: int| 0 <= a < i ==> (#[trigger] v[a]).kind() == kind,
        decreases rows.len() - i,
    {
        assert(v[i as int] == rows@[i as int]@);
        if rows[i].kind() != kind {
            return false;
        }
        if i > 0 {
            assert(v[i - 1] == rows@[i - 1]@);
            if rows[i - 1].id() >= rows[i].id() {
                return false;
            }
            assert forall|a: int, b: int| 0 <= a < b < i + 1 implies v[a].id() < v[b].id() by {
                if b == i && a < i - 1 {
                    assert(v[a].id() < v[i - 1].id());
                }
            }
        }
        i = i + 1;
    }
    true
}

impl Clone for Page {
    fn clone(&self) -> (r: Self)
        ensures
            r@ == self@,
            r.size == self.size,
            r.offset == self.offset,
    {
        Page {
            _type: self._type,
            offset: self.offset,
            parent: self.parent,
            size: self.size,
            rows: clone_rows(&self.rows),
        }
    }
}

impl Page {
    /// The page satisfies the invariant of its view, and `size` is what
    /// its rows take.
    pub open spec fn well_formed(&self) -> bool {
        &&& self@.well_formed()
        &&& self.size == total_size(self@.rows)
    }

    /// Create new page instance
    pub fn new(_type: PageType, parent: Option<usize>, rows: Vec<Row>, size: usize) -> (r: Self)
        ensures
            r._type == _type,
            r.offset == 0,
            r.parent == parent,
            r.rows == rows,
            r.size == size,
    {
        Self { _type, offset: 0, parent, rows, size }
    }

    /// Select all rows present in the page.
    pub fn select(&self) -> (r: Vec<Row>)
        ensures
            views(r@) == self@.rows,
    {
        clone_rows(&self.rows)
    }

    /// Inserts a new row into the page.
    ///
    /// # Errors
    ///
    /// `Duplicate` if a row of the page carries the key, else `Full` if the
    /// row does not fit. The page is then unchanged.
    pub fn insert(&mut self, row: Row) -> (r: Result<(), StorageError>)
        requires
            old(self).well_formed(),
            row@.kind() == old(self)._type.row_kind(),
        ensures
            match old(self)@.insert(row@) {
                Ok(v) => r is Ok && final(self)@ == v && final(self).well_formed() && final(self).offset == old(self).offset,
                Err(e) => r == Err::<(), StorageError>(StorageError::Page { cause: e })
                    && *final(self) == *old(self),
            },
    {
        let (pos, found) = search_rows(&self.rows, row.id());
        if found {
            return Err(StorageError::Page { cause: PageError::Duplicate });
        }
        let len = row.size();
        if len > ROW_SPACE - self.size {
            return Err(StorageError::Page { cause: PageError::Full });
        }
        let ghost before = views(self.rows@);
        let ghost rv = row@;
        let internal = self._type == PageType::Internal;
        let (left, right) = if internal {
            (row.left_offset(), row.right_offset())
        } else {
            (0, 0)
        };
        self.rows.insert(pos, row);
        self.size = self.size + len;
        let ghost inserted = before.insert(pos as int, rv);
        assert(views(self.rows@) =~= inserted);
        if internal {
            if pos > 0 {
                assert(inserted[pos - 1].kind() == RowType::Internal);
                let mut before_row = self.rows[pos - 1].clone();
                before_row.set_right_offset(left);
                self.rows[pos - 1] = before_row;
            }
            assert(pos < self.rows.len());
            if pos + 1 < self.rows.len() {
                assert(inserted[pos + 1].kind() == RowType::Internal);
                let mut after_row = self.rows[pos + 1].clone();
                after_row.set_left_offset(right);
                self.rows[pos + 1] = after_row;
            }
            assert(views(self.rows@) =~= relink(inserted, pos as int));
        } else {
            assert forall|i: int| 0 <= i < inserted.len() implies (#[trigger] inserted[i]).kind()
                == RowType::Leaf by {
                if i < pos {
                    assert(inserted[i] == before[i]);
                } else if i > pos {
                    assert(inserted[i] == before[i - 1]);
                }
            }
            assert(relink(inserted, pos as int) =~= inserted);
        }
        proof {
            lemma_total_size_insert(before, pos as int, rv);
            assert forall|i: int, j: int| 0 <= i < j < inserted.len() implies inserted[i].id()
                < inserted[j].id() by {
                if j < pos {
                } else if j == pos {
                    assert(before[i].id() < rv.id());
                } else if i == pos {
                    assert(before[j - 1].id() >= rv.id());
                    assert(before[j - 1].id() != rv.id());
                } else if i < pos {
                    assert(before[i].id() < before[j - 1].id());
                } else {
                    assert(before[i - 1].id() < before[j - 1].id());
                }
            }
            lemma_relink(inserted, pos as int);
            let out = relink(inserted, pos as int);
            assert forall|i: int| 0 <= i < out.len() implies (#[trigger] out[i]).kind()
                == self._type.row_kind() by {
                assert(out[i].kind() == inserted[i].kind());
                if i < pos {
                    assert(inserted[i] == before[i]);
                } else if i > pos {
                    assert(inserted[i] == before[i - 1]);
                }
            }
        }
        Ok(())
    }

    /// Update an existing row in the page; the row that was replaced is
    /// returned.
    ///
    /// # Errors
    ///
    /// `MissingKey` if no row of the page carries the key, else `Full` if
    /// the new row does not fit in place of the old one. The page is then
    /// unchanged.
    pub fn update(&mut self, row: Row) -> (r: Result<Row, StorageError>)
        requires
            old(self).well_formed(),
            row@.kind() == old(self)._type.row_kind(),
        ensures
            match old(self)@.update(row@) {
                Ok((v, replaced)) => r matches Ok(out) && out@ == replaced && final(self)@ == v
                    && final(self).well_formed() && final(self).offset == old(self).offset,
                Err(e) => r == Err::<Row, StorageError>(StorageError::Page { cause: e })
                    && *final(self) == *old(self),
            },
    {
        let (pos, found) = search_rows(&self.rows, row.id());
        if !found {
            return Err(StorageError::Page { cause: PageError::MissingKey });
        }
        let ghost before = views(self.rows@);
        let ghost rv = row@;
        assert(before[pos as int] == self.rows@[pos as int]@);
        proof {
            lemma_total_size_remove(before, pos as int);
            lemma_total_size_update(before, pos as int, rv);
        }
        let old_len = self.rows[pos].size();
        let len = row.size();
        if len > ROW_SPACE - (self.size - old_len) {
            return Err(StorageError::Page { cause: PageError::Full });
        }
        let out = self.rows.remove(pos);
        self.rows.insert(pos, row);
        self.size = self.size - old_len + len;
        proof {
            let after = before.update(pos as int, rv);
            assert(views(self.rows@) =~= after);
            assert forall|i: int, j: int| 0 <= i < j < after.len() implies after[i].id()
                < after[j].id() by {
                assert(before[i].id() < before[j].id());
            }
            assert forall|i: int| 0 <= i < after.len() implies (#[trigger] after[i]).kind()
                == self._type.row_kind() by {
                if i != pos {
                    assert(after[i] == before[i]);
                }
            }
        }
        Ok(out)
    }

    /// Delete the row of the page that carries the key of `row`.
    ///
    /// # Errors
    ///
    /// `MissingKey` if no row of the page carries the key. The page is then
    /// unchanged.
    pub fn delete(&mut self, row: Row) -> (r: Result<(), StorageError>)
        requires
            old(self).well_formed(),
        ensures
            match old(self)@.delete(row@.id()) {
                Ok(v) => r is Ok && final(self)@ == v && final(self).well_formed() && final(self).offset == old(self).offset,
                Err(e) => r == Err::<(), StorageError>(StorageError::Page { cause: e })
                    && *final(self) == *old(self),
            },
    {
        let (pos, found) = search_rows(&self.rows, row.id());
        if !found {
            return Err(StorageError::Page { cause: PageError::MissingKey });
        }
        let ghost before = views(self.rows@);
        assert(before[pos as int] == self.rows@[pos as int]@);
        proof {
            lemma_total_size_remove(before, pos as int);
        }
        let old_len = self.rows[pos].size();
        let _ = self.rows.remove(pos);
        self.size = self.size - old_len;
        proof {
            let after = before.remove(pos as int);
            assert(views(self.rows@) =~= after);
            assert forall|i: int, j: int| 0 <= i < j < after.len() implies after[i].id()
                < after[j].id() by {
                let a = if i < pos { i } else { i + 1 };
                let b = if j < pos { j } else { j + 1 };
                assert(before[a].id() < before[b].id());
            }
            assert forall|i: int| 0 <= i < after.len() implies (#[trigger] after[i]).kind()
                == self._type.row_kind() by {
                let a = if i < pos { i } else { i + 1 };
                assert(after[i] == before[a]);
            }
        }
        Ok(())
    }
}

impl Page {
    /// Returns the byte representation of the page.
    pub fn as_bytes(&self) -> (r: [u8; PAGE_SIZE])
        requires
            total_size(self@.rows) <= ROW_SPACE,
        ensures
            r@ == self@.bytes(),
    {
        let bytes = self.encode();
        let mut buf = [0u8; PAGE_SIZE];
        let mut i: usize = 0;
        while i < PAGE_SIZE
            invariant
                0 <= i <= PAGE_SIZE,
                bytes@.len() == PAGE_SIZE,
                forall|k: int| 0 <= k < i ==> buf@[k] == bytes@[k],
            decreases PAGE_SIZE - i,
        {
            buf[i] = bytes[i];
            i = i + 1;
        }
        assert(buf@ =~= bytes@);
        buf
    }

    /// The byte representation of the page, as a vector.
    pub fn encode(&self) -> (r: Vec<u8>)
        requires
            total_size(self@.rows) <= ROW_SPACE,
        ensures
            r@ == self@.bytes(),
            r@.len() == PAGE_SIZE,
    {
        let ghost v = self@.rows;
        let mut buf: Vec<u8> = Vec::new();
        buf.push(self._type.to_u8());
        match self.parent {
            Some(p) => {
                buf.push(HAS_PARENT);
                put_word(&mut buf, p);
            },
            None => {
                buf.push(IS_ROOT);
                put_word(&mut buf, 0);
            },
        }
        put_word(&mut buf, self.rows.len());
        assert(buf@ =~= self@.header());
        assert(v.subrange(0, 0) =~= Seq::<RowView>::empty());
        let mut i: usize = 0;
        while i < self.rows.len()
            invariant
                0 <= i <= self.rows@.len(),
                v == views(self.rows@),
                v == self@.rows,
                total_size(v) <= ROW_SPACE,
                buf@ == self@.header() + rows_bytes(v.subrange(0, i as int)),
                buf@.len() == 18 + total_size(v.subrange(0, i as int)),
            decreases self.rows@.len() - i,
        {
            let bytes = self.rows[i].as_bytes();
            let _ = self.rows[i].size();
            proof {
                let r = v[i as int];
                assert(r == self.rows@[i as int]@);
                lemma_row_round_trip(r, Seq::empty());
                let next = v.subrange(0, i + 1);
                assert(next.drop_last() =~= v.subrange(0, i as int));
                assert(next.last() == r);
                lemma_total_size_split(v, i + 1);
                assert(self@.header() + rows_bytes(v.subrange(0, i as int)) + r.bytes()
                    =~= self@.header() + rows_bytes(next));
            }
            put_bytes(&mut buf, bytes.as_slice());
            i = i + 1;
        }
        assert(v.subrange(0, v.len() as int) =~= v);
        let ghost used = buf@;
        while buf.len() < PAGE_SIZE
            invariant
                18 + total_size(v) <= buf@.len() <= PAGE_SIZE,
                used.len() == 18 + total_size(v),
                buf@ == used + Seq::new((buf@.len() - used.len()) as nat, |i: int| 0u8),
            decreases PAGE_SIZE - buf@.len(),
        {
            let ghost prev = buf@;
            buf.push(0u8);
            assert(buf@ =~= used + Seq::new((buf@.len() - used.len()) as nat, |i: int| 0u8));
        }
        buf
    }

    /// Reads a page from its byte representation. Bytes that describe no
    /// page are reported as corrupt.
    pub fn decode(value: &[u8]) -> (r: Result<Page, StorageError>)
        ensures
            match PageView::parse(value@) {
                Some(v) => r matches Ok(page) && page@ == v && page.well_formed() && page.offset
                    == 0,
                None => r == Err::<Page, StorageError>(
                    StorageError::Page { cause: PageError::Corrupt },
                ),
            },
    {
        let corrupt = Err(StorageError::Page { cause: PageError::Corrupt });
        if value.len() != PAGE_SIZE {
            return corrupt;
        }
        let _type = match PageType::from_u8(value[PAGE_TYPE]) {
            Some(t) => t,
            None => { return corrupt; },
        };
        let parent = if value[PAGE_HAS_PARENT] == IS_ROOT {
            None
        } else {
            match get_word(value, PAGE_PARENT) {
                Some(p) => Some(p),
                None => { return corrupt; },
            }
        };
        let num_rows = match get_word(value, PAGE_ROWS) {
            Some(n) => n,
            None => { return corrupt; },
        };
        let ghost b = value@;
        let mut rows: Vec<Row> = Vec::new();
        let mut offset: usize = PAGE_HEADER_SIZE;
        let mut i: usize = 0;
        while i < num_rows
            invariant
                0 <= i <= num_rows,
                b == value@,
                b.len() == PAGE_SIZE,
                PageType::of_tag(b[0]) == Some(_type),
                PageView::parse_parent(b) == Some(parent),
                word_at(b, 10) == Some(num_rows),
                18 <= offset <= PAGE_SIZE,
                offset == 18 + total_size(views(rows@)),
                rows@.len() == i,
                PageView::parse_rows(b, 18, num_rows as nat) == (match PageView::parse_rows(
                    b,
                    offset as int,
                    (num_rows - i) as nat,
                ) {
                    Some(rest) => Some(views(rows@) + rest),
                    None => None,
                }),
            decreases num_rows - i,
        {
            let ghost acc = views(rows@);
            let row = match Row::decode(slice_subrange(value, offset, value.len())) {
                Ok(row) => row,
                Err(_) => {
                    assert(PageView::parse_rows(b, offset as int, (num_rows - i) as nat) is None);
                    return Err(StorageError::Page { cause: PageError::Corrupt });
                },
            };
            let len = row.size();
            proof {
                let rv = row@;
                let next = acc.push(rv);
                assert(next.drop_last() =~= acc);
                match PageView::parse_rows(b, offset + len, (num_rows - i - 1) as nat) {
                    Some(rest) => {
                        assert(acc + (seq![rv] + rest) =~= next + rest);
                    },
                    None => {},
                }
            }
            offset = offset + len;
            rows.push(row);
            assert(views(rows@) =~= acc.push(row@));
            i = i + 1;
        }
        assert(views(rows@) + Seq::<RowView>::empty() =~= views(rows@));
        if !check_rows(&rows, _type.row_type()) {
            return corrupt;
        }
        Ok(Page { _type, offset: 0, parent, size: offset - PAGE_HEADER_SIZE, rows })
    }
}

impl TryFrom<[u8; PAGE_SIZE]> for Page {
    type Error = StorageError;

    fn try_from(value: [u8; PAGE_SIZE]) -> (r: Result<Page, StorageError>)
        ensures
            match PageView::parse(value@) {
                Some(v) => r matches Ok(page) && page@ == v && page.well_formed() && page.offset
                    == 0,
                None => r == Err::<Page, StorageError>(
                    StorageError::Page { cause: PageError::Corrupt },
                ),
            },
    {
        Page::decode(value.as_slice())
    }
}

impl TryFrom<&[u8]> for Page {
    type Error = StorageError;

    fn try_from(value: &[u8]) -> (r: Result<Page, StorageError>)
        ensures
            match PageView::parse(value@) {
                Some(v) => r matches Ok(page) && page@ == v && page.well_formed() && page.offset
                    == 0,
                None => r == Err::<Page, StorageError>(
                    StorageError::Page { cause: PageError::Corrupt },
                ),
            },
    {
        Page::decode(value)
    }
}

impl TryFromSpecImpl<&[u8]> for Page {
    open spec fn obeys_try_from_spec() -> bool {
        false
    }

    open spec fn try_from_spec(v: &[u8]) -> Result<Self, Self::Error> {
        arbitrary()
    }
}

impl TryFromSpecImpl<[u8; PAGE_SIZE]> for Page {
    open spec fn obeys_try_from_spec() -> bool {
        false
    }

    open spec fn try_from_spec(v: [u8; PAGE_SIZE]) -> Result<Self, Self::Error> {
        arbitrary()
    }
}

/// Rows that are packed from `off` on are read back, whatever follows.
pub proof fn lemma_parse_rows(b: Seq<u8>, off: int, rows: Seq<RowView>, rest: Seq<u8>)
    requires
        0 <= off <= b.len(),
        b.subrange(off, b.len() as int) == rows_bytes(rows) + rest,
        forall|i: int| 0 <= i < rows.len() ==> (#[trigger] rows[i]).storable(),
    ensures
        PageView::parse_rows(b, off, rows.len()) == Some(rows),
        rows_bytes(rows).len() == total_size(rows),
    decreases rows.len(),
{
    if rows.len() == 0 {
        assert(rows =~= Seq::<RowView>::empty());
    } else {
        let first = rows[0];
        let tail = rows.subrange(1, rows.len() as int);
        assert(rows =~= seq![first] + tail);
        lemma_total_size_concat(seq![first], tail);
        lemma_total_size_one(first);
        lemma_row_round_trip(first, rows_bytes(tail) + rest);
        assert(first.bytes() + rows_bytes(tail) + rest =~= first.bytes() + (rows_bytes(tail)
            + rest));
        let next = off + first.size();
        assert(b.subrange(next, b.len() as int) =~= rows_bytes(tail) + rest) by {
            let whole = b.subrange(off, b.len() as int);
            assert(whole.len() == first.bytes().len() + rows_bytes(tail).len() + rest.len());
            assert forall|k: int| 0 <= k < b.len() - next implies b.subrange(
                next,
                b.len() as int,
            )[k] == (rows_bytes(tail) + rest)[k] by {
                assert(b[next + k] == whole[first.size() + k]);
            }
        }
        lemma_parse_rows(b, next, tail, rest);
        assert(seq![first] + tail =~= rows);
    }
}

/// Encode-then-decode is the identity on pages.
pub proof fn lemma_page_round_trip(v: PageView)
    requires
        v.well_formed(),
        forall|i: int| 0 <= i < v.rows.len() ==> (#[trigger] v.rows[i]).storable(),
    ensures
        v.bytes().len() == PAGE_SIZE,
        PageView::parse(v.bytes()) == Some(v),
{
    vstd::bytes::lemma_auto_spec_u64_to_from_le_bytes();
    let b = v.bytes();
    let pad = Seq::new((ROW_SPACE - total_size(v.rows)) as nat, |i: int| 0u8);
    let body = rows_bytes(v.rows) + pad;
    assert(v.rows.len() <= total_size(v.rows)) by {
        lemma_rows_count(v.rows);
    }
    let n = v.rows.len() as usize;
    let parent_word = match v.parent {
        Some(p) => p,
        None => 0usize,
    };
    let flag = match v.parent {
        Some(p) => HAS_PARENT,
        None => IS_ROOT,
    };
    let head2 = seq![v.kind.tag(), flag];
    assert(v.header() =~= head2 + word_bytes(parent_word) + word_bytes(n));
    lemma_word_round_trip(parent_word, head2, word_bytes(n) + body);
    assert(b =~= head2 + word_bytes(parent_word) + (word_bytes(n) + body));
    lemma_word_round_trip(n, head2 + word_bytes(parent_word), body);
    assert(b =~= (head2 + word_bytes(parent_word)) + word_bytes(n) + body);
    assert(b[0] == v.kind.tag());
    assert(b[1] == flag);
    assert(v.header().len() == 18);
    assert(b.subrange(18, b.len() as int) =~= rows_bytes(v.rows) + pad);
    lemma_parse_rows(b, 18, v.rows, pad);
}

/// Every row takes at least one byte, so there are no more rows than
/// bytes.
pub proof fn lemma_rows_count(rows: Seq<RowView>)
    ensures
        rows.len() <= total_size(rows),
    decreases rows.len(),
{
    if rows.len() > 0 {
        lemma_rows_count(rows.drop_last());
    }
}

/// No row takes more than all the rows together.
pub proof fn lemma_row_within_total(rows: Seq<RowView>, i: int)
    requires
        0 <= i < rows.len(),
    ensures
        rows[i].size() <= total_size(rows),
    decreases rows.len(),
{
    if i < rows.len() - 1 {
        lemma_row_within_total(rows.drop_last(), i);
    }
}

/// The rows that are read from `off` on take no more bytes than there are.
pub proof fn lemma_parsed_rows_fit(b: Seq<u8>, off: int, n: nat)
    requires
        0 <= off <= b.len(),
        PageView::parse_rows(b, off, n) is Some,
    ensures
        PageView::parse_rows(b, off, n)->0.len() == n,
        off + total_size(PageView::parse_rows(b, off, n)->0) <= b.len(),
    decreases n,
{
    if n > 0 {
        let first = RowView::parse(b.subrange(off, b.len() as int))->0;
        lemma_parsed_rows_fit(b, off + first.size(), (n - 1) as nat);
        let rest = PageView::parse_rows(b, off + first.size(), (n - 1) as nat)->0;
        lemma_total_size_one(first);
        lemma_total_size_concat(seq![first], rest);
    }
}

/// Every page that is read from bytes is well formed: its rows are in
/// strictly growing key order, of the page's kind, and fit the body.
pub proof fn lemma_parsed_page_well_formed(b: Seq<u8>)
    requires
        PageView::parse(b) is Some,
    ensures
        PageView::parse(b)->0.well_formed(),
{
    let n = word_at(b, 10)->0;
    lemma_parsed_rows_fit(b, 18, n as nat);
}

/// A run of linked rows is linked.
pub proof fn lemma_part_linked(rows: Seq<RowView>, a: int, b: int)
    requires
        0 <= a <= b <= rows.len(),
        linked(rows),
    ensures
        linked(rows.subrange(a, b)),
{
    let part = rows.subrange(a, b);
    assert forall|i: int| 0 <= i && i + 1 < part.len() implies (#[trigger] part[i]).right()
        == part[i + 1].left() by {
        assert(rows[a + i].right() == rows[a + i + 1].left());
    }
}

/// Inserting a row into a well-formed page adds its key to the keys of the
/// page and leaves the page well formed.
pub proof fn lemma_insert_keys(page: PageView, row: RowView, id: usize)
    requires
        page.well_formed(),
        row.kind() == page.kind.row_kind(),
        page.insert(row) is Ok,
    ensures
        page.insert(row)->Ok_0.well_formed(),
        has_id(page.insert(row)->Ok_0.rows, id) <==> (has_id(page.rows, id) || id == row.id()),
{
    let p = slot(page.rows, row.id());
    assert(is_slot(page.rows, row.id(), p)) by {
        lemma_slot_exists(page.rows, row.id());
    }
    let ins = page.rows.insert(p, row);
    let out = relink(ins, p);
    lemma_relink(ins, p);
    lemma_total_size_insert(page.rows, p, row);
    assert forall|i: int, j: int| 0 <= i < j < ins.len() implies ins[i].id() < ins[j].id() by {
        if j < p {
        } else if j == p {
            assert(page.rows[i].id() < row.id());
        } else if i == p {
            assert(page.rows[j - 1].id() >= row.id());
            assert(page.rows[j - 1].id() != row.id());
        } else if i < p {
            assert(page.rows[i].id() < page.rows[j - 1].id());
        } else {
            assert(page.rows[i - 1].id() < page.rows[j - 1].id());
        }
    }
    assert forall|i: int| 0 <= i < out.len() implies (#[trigger] out[i]).kind()
        == page.kind.row_kind() by {
        assert(out[i].kind() == ins[i].kind());
        if i < p {
            assert(ins[i] == page.rows[i]);
        } else if i > p {
            assert(ins[i] == page.rows[i - 1]);
        }
    }
    if has_id(out, id) {
        let i = choose|i: int| 0 <= i < out.len() && (#[trigger] out[i]).id() == id;
        assert(out[i].id() == ins[i].id());
        if i < p {
            assert(page.rows[i].id() == id);
        } else if i > p {
            assert(page.rows[i - 1].id() == id);
        }
    }
    if has_id(page.rows, id) {
        let i = choose|i: int| 0 <= i < page.rows.len() && (#[trigger] page.rows[i]).id() == id;
        let j = if i < p { i } else { i + 1 };
        assert(ins[j] == page.rows[i]);
        assert(out[j].id() == id);
    }
    if id == row.id() {
        assert(out[p].id() == id);
    }
}

/// Among rows in key order every key has its slot.
pub proof fn lemma_slot_exists(rows: Seq<RowView>, id: usize)
    requires
        ids_increasing(rows),
    ensures
        is_slot(rows, id, slot(rows, id)),
    decreases rows.len(),
{
    if rows.len() == 0 {
        assert(is_slot(rows, id, 0));
    } else {
        let init = rows.drop_last();
        assert(ids_increasing(init)) by {
            assert forall|i: int, j: int| 0 <= i < j < init.len() implies init[i].id()
                < init[j].id() by {
                assert(rows[i].id() < rows[j].id());
            }
        }
        lemma_slot_exists(init, id);
        let p = slot(init, id);
        if rows.last().id() < id {
            assert forall|i: int| 0 <= i < rows.len() implies (#[trigger] rows[i]).id() < id by {
                if i < rows.len() - 1 {
                    assert(rows[i].id() < rows[rows.len() - 1].id());
                }
            }
            assert(is_slot(rows, id, rows.len() as int));
        } else {
            assert forall|i: int| 0 <= i < p implies (#[trigger] rows[i]).id() < id by {
                assert(init[i].id() < id);
            }
            assert forall|i: int| p <= i < rows.len() implies (#[trigger] rows[i]).id() >= id by {
                if i < init.len() {
                    assert(init[i].id() >= id);
                }
            }
            assert(is_slot(rows, id, p));
        }
    }
}

/// Making the neighbours of a row agree with it changes nothing in a leaf
/// page, whose rows have no children.
pub proof fn lemma_leaf_rows_stay(leaf: PageView, row: RowView)
    requires
        leaf.well_formed(),
        leaf.kind == PageType::Leaf,
        row.kind() == RowType::Leaf,
        leaf.insert(row) is Ok,
    ensures
        leaf.insert(row)->Ok_0.rows == leaf.rows.insert(slot(leaf.rows, row.id()), row),
{
    let p = slot(leaf.rows, row.id());
    lemma_slot_exists(leaf.rows, row.id());
    let ins = leaf.rows.insert(p, row);
    assert forall|i: int| 0 <= i < ins.len() implies (#[trigger] ins[i]).kind()
        == RowType::Leaf by {
        if i < p {
            assert(ins[i] == leaf.rows[i]);
            assert(leaf.rows[i].kind() == RowType::Leaf);
        } else if i > p {
            assert(ins[i] == leaf.rows[i - 1]);
            assert(leaf.rows[i - 1].kind() == RowType::Leaf);
        }
    }
    assert(relink(ins, p) =~= ins);
}

/// Deleting a row leaves a page well formed, without the key and with the
/// other keys.
pub proof fn lemma_delete_keys(page: PageView, key: usize, id: usize)
    requires
        page.well_formed(),
        page.delete(key) is Ok,
    ensures
        page.delete(key)->Ok_0.well_formed(),
        has_id(page.delete(key)->Ok_0.rows, id) <==> (has_id(page.rows, id) && id != key),
{
    let p = slot(page.rows, key);
    lemma_slot_exists(page.rows, key);
    lemma_slot(page.rows, key, p);
    let out = page.rows.remove(p);
    lemma_total_size_remove(page.rows, p);
    assert forall|i: int, j: int| 0 <= i < j < out.len() implies out[i].id() < out[j].id() by {
        let a = if i < p { i } else { i + 1 };
        let b = if j < p { j } else { j + 1 };
        assert(page.rows[a].id() < page.rows[b].id());
    }
    assert forall|i: int| 0 <= i < out.len() implies (#[trigger] out[i]).kind()
        == page.kind.row_kind() by {
        let a = if i < p { i } else { i + 1 };
        assert(out[i] == page.rows[a]);
    }
    if has_id(out, id) {
        let i = choose|i: int| 0 <= i < out.len() && (#[trigger] out[i]).id() == id;
        let a = if i < p { i } else { i + 1 };
        assert(out[i] == page.rows[a]);
        assert(page.rows[a].id() == id);
        if a < p {
            assert(page.rows[a].id() < page.rows[p].id());
        } else {
            assert(page.rows[p].id() < page.rows[a].id());
        }
    }
    if has_id(page.rows, id) && id != key {
        let i = choose|i: int| 0 <= i < page.rows.len() && (#[trigger] page.rows[i]).id() == id;
        let a = if i < p { i } else { i - 1 };
        assert(out[a] == page.rows[i]);
        assert(out[a].id() == id);
    }
}

/// Updating a row leaves a page well formed, with the same keys; the row
/// that is replaced is the one that carried the key.
pub proof fn lemma_update_keys(page: PageView, row: RowView, id: usize)
    requires
        page.well_formed(),
        row.kind() == page.kind.row_kind(),
        page.update(row) is Ok,
    ensures
        (page.update(row)->Ok_0).0.well_formed(),
        (page.update(row)->Ok_0).1.id() == row.id(),
        has_id((page.update(row)->Ok_0).0.rows, id) <==> has_id(page.rows, id),
{
    let p = slot(page.rows, row.id());
    lemma_slot_exists(page.rows, row.id());
    lemma_slot(page.rows, row.id(), p);
    let out = page.rows.update(p, row);
    lemma_total_size_update(page.rows, p, row);
    assert forall|i: int, j: int| 0 <= i < j < out.len() implies out[i].id() < out[j].id() by {
        assert(page.rows[i].id() < page.rows[j].id());
    }
    assert forall|i: int| 0 <= i < out.len() implies (#[trigger] out[i]).kind()
        == page.kind.row_kind() by {
        if i != p {
            assert(out[i] == page.rows[i]);
        }
    }
    if has_id(out, id) {
        let i = choose|i: int| 0 <= i < out.len() && (#[trigger] out[i]).id() == id;
        assert(page.rows[i].id() == id);
    }
    if has_id(page.rows, id) {
        let i = choose|i: int| 0 <= i < page.rows.len() && (#[trigger] page.rows[i]).id() == id;
        assert(out[i].id() == id);
    }
}

/// A row is among two runs of rows exactly if it is among one of them.
pub proof fn lemma_rows_concat(a: Seq<RowView>, b: Seq<RowView>, r: RowView)
    ensures
        (a + b).contains(r) <==> (a.contains(r) || b.contains(r)),
{
    let c = a + b;
    if c.contains(r) {
        let i = choose|i: int| 0 <= i < c.len() && c[i] == r;
        if i < a.len() {
            assert(a[i] == r);
        } else {
            assert(b[i - a.len()] == r);
        }
    }
    if a.contains(r) {
        let i = choose|i: int| 0 <= i < a.len() && a[i] == r;
        assert(c[i] == r);
    }
    if b.contains(r) {
        let i = choose|i: int| 0 <= i < b.len() && b[i] == r;
        assert(c[a.len() + i] == r);
    }
}

/// A row that is among rows has its key among their keys.
pub proof fn lemma_contains_has_id(rows: Seq<RowView>, r: RowView)
    requires
        rows.contains(r),
    ensures
        has_id(rows, r.id()),
{
    let i = choose|i: int| 0 <= i < rows.len() && rows[i] == r;
    assert(rows[i].id() == r.id());
}

/// Inserting a row into a leaf page leaves the other rows as they are:
/// the rows of the page are then the rows that it held and the new row.
pub proof fn lemma_insert_rows(page: PageView, row: RowView, r: RowView)
    requires
        page.well_formed(),
        page.kind == PageType::Leaf,
        row.kind() == RowType::Leaf,
        page.insert(row) is Ok,
    ensures
        page.insert(row)->Ok_0.rows.contains(r) <==> (page.rows.contains(r) || r == row),
{
    lemma_leaf_rows_stay(page, row);
    let p = slot(page.rows, row.id());
    lemma_slot_exists(page.rows, row.id());
    let out = page.rows.insert(p, row);
    if out.contains(r) {
        let i = choose|i: int| 0 <= i < out.len() && out[i] == r;
        if i < p {
            assert(page.rows[i] == r);
        } else if i > p {
            assert(page.rows[i - 1] == r);
        }
    }
    if page.rows.contains(r) {
        let i = choose|i: int| 0 <= i < page.rows.len() && page.rows[i] == r;
        let j = if i < p { i } else { i + 1 };
        assert(out[j] == r);
    }
    if r == row {
        assert(out[p] == r);
    }
}

/// Updating a row leaves the other rows as they are: the rows of the page
/// are then the rows that it held under other keys and the new row.
pub proof fn lemma_update_rows(page: PageView, row: RowView, r: RowView)
    requires
        page.well_formed(),
        page.update(row) is Ok,
    ensures
        (page.update(row)->Ok_0).0.rows == page.rows.update(slot(page.rows, row.id()), row),
        (page.update(row)->Ok_0).1 == page.rows[slot(page.rows, row.id())],
        (page.update(row)->Ok_0).0.rows.contains(r) <==> ((page.rows.contains(r) && r.id()
            != row.id()) || r == row),
{
    let p = slot(page.rows, row.id());
    lemma_slot_exists(page.rows, row.id());
    lemma_slot(page.rows, row.id(), p);
    let out = page.rows.update(p, row);
    if out.contains(r) {
        let i = choose|i: int| 0 <= i < out.len() && out[i] == r;
        if i != p {
            assert(page.rows[i] == r);
            if i < p {
                assert(page.rows[i].id() < page.rows[p].id());
            } else {
                assert(page.rows[p].id() < page.rows[i].id());
            }
        }
    }
    if page.rows.contains(r) && r.id() != row.id() {
        let i = choose|i: int| 0 <= i < page.rows.len() && page.rows[i] == r;
        assert(out[i] == r);
    }
    if r == row {
        assert(out[p] == r);
    }
}

/// Deleting a row leaves the other rows as they are: the rows of the page
/// are then the rows that it held under other keys.
pub proof fn lemma_delete_rows(page: PageView, key: usize, r: RowView)
    requires
        page.well_formed(),
        page.delete(key) is Ok,
    ensures
        page.delete(key)->Ok_0.rows.contains(r) <==> (page.rows.contains(r) && r.id() != key),
{
    let p = slot(page.rows, key);
    lemma_slot_exists(page.rows, key);
    lemma_slot(page.rows, key, p);
    let out = page.rows.remove(p);
    if out.contains(r) {
        let i = choose|i: int| 0 <= i < out.len() && out[i] == r;
        let a = if i < p { i } else { i + 1 };
        assert(page.rows[a] == r);
        if a < p {
            assert(page.rows[a].id() < page.rows[p].id());
        } else {
            assert(page.rows[p].id() < page.rows[a].id());
        }
    }
    if page.rows.contains(r) && r.id() != key {
        let i = choose|i: int| 0 <= i < page.rows.len() && page.rows[i] == r;
        let a = if i < p { i } else { i - 1 };
        assert(out[a] == r);
    }
}

} // verus!
