//! Page management over the bytes of the database file.
//!
//! The pager hands out page ids, keeps the pages that were read or written
//! in a cache, and copies the cache into its image of the file when it is
//! flushed. Page 0 holds the metadata: `[root][page count][free list
//! length][free list ...]`, zero padded. The pager never touches a file
//! itself: it is opened on the bytes of the file and its image is what the
//! file has to hold after a flush.
use std::collections::BTreeMap;
use vstd::prelude::*;
use vstd::slice::{slice_subrange, slice_to_vec};
use super::codec::{get_word, lemma_word_round_trip, put_word, word_at, word_bytes};
use super::page::{total_size, Page, PageType, PageView, PAGE_SIZE, ROW_SPACE};
use super::{PagerError, StorageError};

verus! {

broadcast use {vstd::std_specs::btree::group_btree_axioms, vstd::laws_cmp::group_laws_cmp};

pub const ROOT_PAGE_SIZE: usize = 8;

pub const NUM_PAGES_SIZE: usize = 8;

pub const FREE_PAGES_LEN_SIZE: usize = 8;

pub const METADATA_HEADER_SIZE: usize = 24;

pub const FREE_PAGE_SIZE: usize = 8;

pub const ROOT_PAGE: usize = 0;

pub const NUM_PAGES: usize = 8;

pub const FREE_PAGES_LEN: usize = 16;

pub const METADATA_PAGE_ID: usize = 0;

/// The longest free list that the metadata page can hold.
pub const MAX_FREE_PAGES: usize = 509;

/// The most pages whose offsets fit a machine word.
pub const MAX_PAGES: usize = usize::MAX / 4096;

/// `n` zero bytes.
pub open spec fn zeros(n: int) -> Seq<u8> {
    Seq::new(
        if n < 0 {
            0nat
        } else {
            n as nat
        },
        |i: int| 0u8,
    )
}

/// The integers, eight bytes each, one after the other.
pub open spec fn words(s: Seq<usize>) -> Seq<u8>
    decreases s.len(),
{
    if s.len() == 0 {
        Seq::empty()
    } else {
        words(s.drop_last()) + word_bytes(s.last())
    }
}

/// The `n` integers that stand in `b` from `off` on, if there are as many.
pub open spec fn parse_words(b: Seq<u8>, off: int, n: nat) -> Option<Seq<usize>> {
    if forall|k: int| 0 <= k < n ==> (#[trigger] word_at(b, off + 8 * k)) is Some {
        Some(Seq::new(n, |k: int| word_at(b, off + 8 * k)->0))
    } else {
        None
    }
}

/// What the allocator knows: the root of the tree, the number of pages of
/// the file, and the pages that can be handed out again.
pub struct MetaView {
    pub root: usize,
    pub pages: usize,
    pub free: Seq<usize>,
}

impl MetaView {
    /// The free list names no page twice and no page beyond the page
    /// count; it fits the metadata page; the metadata page itself is
    /// counted, and every page offset fits a machine word.
    pub open spec fn well_formed(self) -> bool {
        &&& self.free.no_duplicates()
        &&& forall|i: int| 0 <= i < self.free.len() ==> (#[trigger] self.free[i]) < self.pages
        &&& self.free.len() <= MAX_FREE_PAGES
        &&& 1 <= self.pages <= MAX_PAGES
    }

    /// The serialized metadata page.
    pub open spec fn bytes(self) -> Seq<u8> {
        word_bytes(self.root) + word_bytes(self.pages) + word_bytes(self.free.len() as usize)
            + words(self.free) + zeros(PAGE_SIZE - 24 - 8 * self.free.len())
    }

    /// The metadata that `b` describes, if it describes any: the root, the
    /// page count and the length of the free list, then as many free pages
    /// as that length says, and the whole well formed.
    pub open spec fn parse(b: Seq<u8>) -> Option<MetaView> {
        match (word_at(b, 0), word_at(b, 8), word_at(b, 16)) {
            (Some(root), Some(pages), Some(n)) => if n > MAX_FREE_PAGES {
                None
            } else {
                match parse_words(b, 24, n as nat) {
                    Some(free) => {
                        let m = MetaView { root, pages, free };
                        if m.well_formed() {
                            Some(m)
                        } else {
                            None
                        }
                    },
                    None => None,
                }
            },
            _ => None,
        }
    }
}

/// The allocator state that page 0 holds.
#[derive(Debug)]
pub struct PagerMetadata {
    pub free_pages: Vec<usize>,
    pub pages: usize,
    pub root: usize,
}

impl View for PagerMetadata {
    type V = MetaView;

    open spec fn view(&self) -> MetaView {
        MetaView { root: self.root, pages: self.pages, free: self.free_pages@ }
    }
}

/// Whether `id` is among the first `n` entries of `list`.
fn listed(list: &Vec<usize>, n: usize, id: usize) -> (r: bool)
    requires
        n <= list@.len(),
    ensures
        r == list@.subrange(0, n as int).contains(id),
{
    let mut i: usize = 0;
    while i < n
        invariant
            0 <= i <= n <= list@.len(),
            forall|k: int| 0 <= k < i ==> list@[k] != id,
        decreases n - i,
    {
        if list[i] == id {
            assert(list@.subrange(0, n as int)[i as int] == id);
            return true;
        }
        i = i + 1;
    }
    false
}

impl PagerMetadata {
    /// Reads the metadata from the bytes of page 0. Bytes that describe no
    /// well-formed metadata are reported as corrupt.
    pub fn from_u8(value: &[u8]) -> (r: Result<PagerMetadata, StorageError>)
        ensures
            match MetaView::parse(value@) {
                Some(m) => r matches Ok(meta) && meta@ == m,
                None => r == Err::<PagerMetadata, StorageError>(
                    StorageError::Pager { cause: PagerError::Corrupt },
                ),
            },
    {
        let root = match get_word(value, ROOT_PAGE) {
            Some(v) => v,
            None => { return Err(StorageError::Pager { cause: PagerError::Corrupt }); },
        };
        let pages = match get_word(value, NUM_PAGES) {
            Some(v) => v,
            None => { return Err(StorageError::Pager { cause: PagerError::Corrupt }); },
        };
        let free_pages_len = match get_word(value, FREE_PAGES_LEN) {
            Some(v) => v,
            None => { return Err(StorageError::Pager { cause: PagerError::Corrupt }); },
        };
        if free_pages_len > MAX_FREE_PAGES || pages > MAX_PAGES || pages == 0 {
            assert(MetaView::parse(value@) is None);
            return Err(StorageError::Pager { cause: PagerError::Corrupt });
        }
        let ghost b = value@;
        let mut free_pages: Vec<usize> = Vec::new();
        let mut i: usize = 0;
        while i < free_pages_len
            invariant
                0 <= i <= free_pages_len <= MAX_FREE_PAGES,
                b == value@,
                1 <= pages <= MAX_PAGES,
                word_at(b, 0) == Some(root),
                word_at(b, 8) == Some(pages),
                word_at(b, 16) == Some(free_pages_len),
                free_pages@.len() == i,
                forall|k: int| 0 <= k < i ==> (#[trigger] word_at(b, 24 + 8 * k)) == Some(free_pages@[k]),
                free_pages@.no_duplicates(),
                forall|k: int| 0 <= k < i ==> (#[trigger] free_pages@[k]) < pages,
            decreases free_pages_len - i,
        {
            let page_id = match get_word(value, METADATA_HEADER_SIZE + FREE_PAGE_SIZE * i) {
                Some(v) => v,
                None => {
                    assert(word_at(b, 24 + 8 * (i as int)) is None);
                    assert(parse_words(b, 24, free_pages_len as nat) is None);
                    return Err(StorageError::Pager { cause: PagerError::Corrupt });
                },
            };
            let twice = listed(&free_pages, i, page_id);
            assert(free_pages@.subrange(0, i as int) =~= free_pages@);
            if twice || page_id >= pages {
                proof {
                    match parse_words(b, 24, free_pages_len as nat) {
                        Some(free) => {
                            assert(free[i as int] == page_id);
                            if twice {
                                let k = choose|k: int|
                                    0 <= k < free_pages@.len() && free_pages@[k] == page_id;
                                assert(word_at(b, 24 + 8 * k) == Some(free_pages@[k]));
                                assert(free[k] == page_id);
                                assert(!free.no_duplicates());
                            }
                        },
                        None => {},
                    }
                }
                return Err(StorageError::Pager { cause: PagerError::Corrupt });
            }
            free_pages.push(page_id);
            i = i + 1;
        }
        proof {
            assert(parse_words(b, 24, free_pages_len as nat) is Some);
            assert(parse_words(b, 24, free_pages_len as nat)->0 =~= free_pages@);
        }
        Ok(PagerMetadata { root, pages, free_pages })
    }

    /// Returns the byte representation of the metadata page.
    pub fn as_bytes(&self) -> (r: Vec<u8>)
        requires
            self.free_pages@.len() <= MAX_FREE_PAGES,
        ensures
            r@ == self@.bytes(),
            r@.len() == PAGE_SIZE,
    {
        let ghost free = self.free_pages@;
        let mut buf: Vec<u8> = Vec::new();
        put_word(&mut buf, self.root);
        put_word(&mut buf, self.pages);
        put_word(&mut buf, self.free_pages.len());
        let ghost head = buf@;
        assert(free.subrange(0, 0) =~= Seq::<usize>::empty());
        let mut i: usize = 0;
        while i < self.free_pages.len()
            invariant
                0 <= i <= free.len() <= MAX_FREE_PAGES,
                free == self.free_pages@,
                head.len() == 24,
                buf@ == head + words(free.subrange(0, i as int)),
                buf@.len() == 24 + 8 * i,
            decreases free.len() - i,
        {
            proof {
                let next = free.subrange(0, i + 1);
                assert(next.drop_last() =~= free.subrange(0, i as int));
                assert(head + words(free.subrange(0, i as int)) + word_bytes(free[i as int])
                    =~= head + words(next));
            }
            put_word(&mut buf, self.free_pages[i]);
            i = i + 1;
        }
        assert(free.subrange(0, free.len() as int) =~= free);
        let ghost used = buf@;
        while buf.len() < PAGE_SIZE
            invariant
                used.len() <= buf@.len() <= PAGE_SIZE,
                buf@ == used + zeros(buf@.len() - used.len()),
            decreases PAGE_SIZE - buf@.len(),
        {
            buf.push(0u8);
            assert(buf@ =~= used + zeros(buf@.len() - used.len()));
        }
        buf
    }
}

/// The free list that was written is read back, whatever follows it.
pub proof fn lemma_words_round_trip(before: Seq<u8>, s: Seq<usize>, after: Seq<u8>)
    ensures
        words(s).len() == 8 * s.len(),
        parse_words(before + words(s) + after, before.len() as int, s.len()) == Some(s),
    decreases s.len(),
{
    vstd::bytes::lemma_auto_spec_u64_to_from_le_bytes();
    let b = before + words(s) + after;
    if s.len() == 0 {
        assert(parse_words(b, before.len() as int, 0)->0 =~= s);
    } else {
        let init = s.drop_last();
        lemma_words_round_trip(before, init, word_bytes(s.last()) + after);
        assert(b =~= before + words(init) + (word_bytes(s.last()) + after));
        lemma_word_round_trip(s.last(), before + words(init), after);
        assert(b =~= (before + words(init)) + word_bytes(s.last()) + after);
        let got = parse_words(b, before.len() as int, init.len());
        assert forall|k: int| 0 <= k < s.len() implies (#[trigger] word_at(
            b,
            before.len() + 8 * k,
        )) == Some(s[k]) by {
            if k < init.len() {
                assert(got->0[k] == init[k]);
            }
        }
        assert(parse_words(b, before.len() as int, s.len())->0 =~= s);
    }
}

/// Encode-then-decode is the identity on well-formed metadata.
pub proof fn lemma_meta_round_trip(m: MetaView)
    requires
        m.well_formed(),
    ensures
        m.bytes().len() == PAGE_SIZE,
        MetaView::parse(m.bytes()) == Some(m),
{
    vstd::bytes::lemma_auto_spec_u64_to_from_le_bytes();
    let b = m.bytes();
    let n = m.free.len() as usize;
    let tail = words(m.free) + zeros(PAGE_SIZE - 24 - 8 * m.free.len());
    lemma_word_round_trip(m.root, Seq::empty(), word_bytes(m.pages) + word_bytes(n) + tail);
    assert(b =~= Seq::<u8>::empty() + word_bytes(m.root) + (word_bytes(m.pages) + word_bytes(n)
        + tail));
    lemma_word_round_trip(m.pages, word_bytes(m.root), word_bytes(n) + tail);
    assert(b =~= word_bytes(m.root) + word_bytes(m.pages) + (word_bytes(n) + tail));
    lemma_word_round_trip(n, word_bytes(m.root) + word_bytes(m.pages), tail);
    assert(b =~= (word_bytes(m.root) + word_bytes(m.pages)) + word_bytes(n) + tail);
    let head = word_bytes(m.root) + word_bytes(m.pages) + word_bytes(n);
    lemma_words_round_trip(head, m.free, zeros(PAGE_SIZE - 24 - 8 * m.free.len()));
    assert(b =~= head + words(m.free) + zeros(PAGE_SIZE - 24 - 8 * m.free.len()));
}

/// The bytes of page `id` in a file, if the file holds the whole page.
pub open spec fn file_page(file: Seq<u8>, id: usize) -> Option<Seq<u8>> {
    if (id + 1) * PAGE_SIZE <= file.len() {
        Some(file.subrange(id * PAGE_SIZE, (id + 1) * PAGE_SIZE))
    } else {
        None
    }
}

/// The file after `bytes` were written as page `id`: a file that ends
/// before the page is first filled up with zeros.
pub open spec fn file_put(file: Seq<u8>, id: usize, bytes: Seq<u8>) -> Seq<u8> {
    let grown = file + zeros((id + 1) * PAGE_SIZE - file.len());
    grown.subrange(0, id * PAGE_SIZE) + bytes + grown.subrange(
        (id + 1) * PAGE_SIZE,
        grown.len() as int,
    )
}

/// The file after the cached pages with an id below `n` were written, in
/// the order of their ids.
pub open spec fn flushed(cache: Map<usize, Seq<u8>>, file: Seq<u8>, n: nat) -> Seq<u8>
    decreases n,
{
    if n == 0 {
        file
    } else {
        let before = flushed(cache, file, (n - 1) as nat);
        if cache.contains_key((n - 1) as usize) {
            file_put(before, (n - 1) as usize, cache[(n - 1) as usize])
        } else {
            before
        }
    }
}

/// A page that was written to a file is read back from it, and the other
/// pages that the file held stay as they were.
pub proof fn lemma_file_put(file: Seq<u8>, id: usize, bytes: Seq<u8>, other: usize)
    requires
        bytes.len() == PAGE_SIZE,
    ensures
        file_put(file, id, bytes).len() >= file.len(),
        file_page(file_put(file, id, bytes), id) == Some(bytes),
        other != id && file_page(file, other) is Some ==> file_page(
            file_put(file, id, bytes),
            other,
        ) == file_page(file, other),
{
    let out = file_put(file, id, bytes);
    assert(out.subrange(id * PAGE_SIZE, (id + 1) * PAGE_SIZE) =~= bytes);
    if other != id && file_page(file, other) is Some {
        assert(out.subrange(other * PAGE_SIZE, (other + 1) * PAGE_SIZE) =~= file.subrange(
            other * PAGE_SIZE,
            (other + 1) * PAGE_SIZE,
        ));
    }
}

/// The state of a pager.
pub struct PagerView {
    /// The pages that were read or written since the last flush.
    pub cache: Map<usize, Seq<u8>>,
    /// The bytes of the database file.
    pub file: Seq<u8>,
    pub meta: MetaView,
    /// Whether a flush may write to the file.
    pub commit: bool,
}

impl PagerView {
    /// The metadata is well formed, and the cache holds whole pages of
    /// the file only.
    pub open spec fn well_formed(self) -> bool {
        &&& self.meta.well_formed()
        &&& forall|id: usize| #[trigger]
            self.cache.contains_key(id) ==> id < self.meta.pages && self.cache[id].len()
                == PAGE_SIZE
    }

    /// The pager that is opened on an empty file: page 0 for the
    /// metadata, page 1 for the root, which is an empty leaf; both are
    /// cached and nothing is on file yet.
    pub open spec fn fresh() -> PagerView {
        let meta = MetaView { root: 1, pages: 2, free: Seq::empty() };
        let leaf = PageView { kind: PageType::Leaf, parent: None, rows: Seq::empty() };
        PagerView {
            cache: Map::<usize, Seq<u8>>::empty().insert(0, meta.bytes()).insert(1, leaf.bytes()),
            file: Seq::empty(),
            meta,
            commit: true,
        }
    }

    /// What opening a pager on the bytes of a file gives: a fresh pager
    /// for an empty file; else the metadata of page 0, which is then
    /// cached.
    pub open spec fn open(file: Seq<u8>) -> Result<PagerView, StorageError> {
        if file.len() == 0 {
            Ok(Self::fresh())
        } else {
            match file_page(file, 0) {
                None => Err(StorageError::Pager { cause: PagerError::Io }),
                Some(b) => match MetaView::parse(b) {
                    None => Err(StorageError::Pager { cause: PagerError::Corrupt }),
                    Some(meta) => Ok(
                        PagerView {
                            cache: Map::<usize, Seq<u8>>::empty().insert(0, b),
                            file,
                            meta,
                            commit: true,
                        },
                    ),
                },
            }
        }
    }

    /// The pager with the bytes of page `id` cached.
    pub open spec fn cached(self, id: usize, bytes: Seq<u8>) -> PagerView {
        PagerView { cache: self.cache.insert(id, bytes), ..self }
    }

    /// The pager with other metadata, which is cached as page 0.
    pub open spec fn with_meta(self, meta: MetaView) -> PagerView {
        PagerView { cache: self.cache.insert(0, meta.bytes()), meta, ..self }
    }

    /// A page can be read, written and freed when its id is below the page
    /// count or on the free list.
    pub open spec fn is_valid(self, id: usize) -> bool {
        id < self.meta.pages || self.meta.free.contains(id)
    }

    /// The bytes that stand for page `id`: the cached ones, else those on
    /// file.
    pub open spec fn stored(self, id: usize) -> Option<Seq<u8>> {
        if self.cache.contains_key(id) {
            Some(self.cache[id])
        } else {
            file_page(self.file, id)
        }
    }

    /// Reading page `id`: an id that is not valid is out of bounds; bytes
    /// that are nowhere are an I/O error; else the bytes are cached and
    /// decoded.
    pub open spec fn read(self, id: usize) -> (PagerView, Result<PageView, StorageError>) {
        if !self.is_valid(id) {
            (self, Err(StorageError::Pager { cause: PagerError::OutOfBounds }))
        } else {
            match self.stored(id) {
                None => (self, Err(StorageError::Pager { cause: PagerError::Io })),
                Some(b) => (
                    self.cached(id, b),
                    match PageView::parse(b) {
                        Some(v) => Ok(v),
                        None => Err(StorageError::Page { cause: super::PageError::Corrupt }),
                    },
                ),
            }
        }
    }

    /// Writing page `id`: an id that is not valid is out of bounds; else
    /// the encoded page is cached.
    pub open spec fn write(self, id: usize, page: PageView) -> (
        PagerView,
        Result<(), StorageError>,
    ) {
        if !self.is_valid(id) {
            (self, Err(StorageError::Pager { cause: PagerError::OutOfBounds }))
        } else {
            (self.cached(id, page.bytes()), Ok(()))
        }
    }

    /// Making `root` the root of the tree.
    pub open spec fn set_root(self, root: usize) -> PagerView {
        self.with_meta(MetaView { root, ..self.meta })
    }

    /// Allocating a page: the page that was freed last, else a new page at
    /// the end of the file; the new page is cached as zeros. No page is
    /// left when the page count has reached its limit.
    pub open spec fn allocate(self) -> (PagerView, Result<usize, StorageError>) {
        if self.meta.free.len() > 0 {
            let id = self.meta.free.last();
            (
                self.with_meta(MetaView { free: self.meta.free.drop_last(), ..self.meta }).cached(
                    id,
                    zeros(PAGE_SIZE as int),
                ),
                Ok(id),
            )
        } else if self.meta.pages >= MAX_PAGES {
            (self, Err(StorageError::Pager { cause: PagerError::Exhausted }))
        } else {
            let id = self.meta.pages;
            (
                self.with_meta(MetaView { pages: (id + 1) as usize, ..self.meta }).cached(
                    id,
                    zeros(PAGE_SIZE as int),
                ),
                Ok(id),
            )
        }
    }

    /// Freeing page `id`: an id that is not valid, or that is free
    /// already, is out of bounds; a full free list takes no further page;
    /// else the page leaves the cache and joins the free list.
    pub open spec fn free(self, id: usize) -> (PagerView, Result<(), StorageError>) {
        if !self.is_valid(id) || self.meta.free.contains(id) {
            (self, Err(StorageError::Pager { cause: PagerError::OutOfBounds }))
        } else if self.meta.free.len() >= MAX_FREE_PAGES {
            (self, Err(StorageError::Pager { cause: PagerError::Exhausted }))
        } else {
            (
                PagerView { cache: self.cache.remove(id), ..self }.with_meta(
                    MetaView { free: self.meta.free.push(id), ..self.meta },
                ),
                Ok(()),
            )
        }
    }

    /// Setting the commit flag.
    pub open spec fn set_commit(self, commit: bool) -> PagerView {
        PagerView { commit, ..self }
    }

    /// Flushing: nothing without the commit flag; else every cached page
    /// is written to the file, then the metadata page, and the cache is
    /// empty.
    pub open spec fn flush(self) -> PagerView {
        if !self.commit {
            self
        } else {
            PagerView {
                cache: Map::empty(),
                file: file_put(
                    flushed(self.cache, self.file, self.meta.pages as nat),
                    0,
                    self.meta.bytes(),
                ),
                ..self
            }
        }
    }
}

/// Reading a page changes neither the bytes that stand for any page nor
/// the metadata, the file or the commit flag: it only caches what it read.
pub proof fn lemma_read_keeps(s: PagerView, id: usize, other: usize)
    ensures
        s.read(id).0.stored(other) == s.stored(other),
        s.read(id).0.meta == s.meta,
        s.read(id).0.file == s.file,
        s.read(id).0.commit == s.commit,
        s.well_formed() ==> s.read(id).0.well_formed(),
{
    if s.well_formed() && s.is_valid(id) {
        assert(id < s.meta.pages) by {
            if s.meta.free.contains(id) {
                let i = choose|i: int| 0 <= i < s.meta.free.len() && s.meta.free[i] == id;
                assert(s.meta.free[i] < s.meta.pages);
            }
        }
    }
}

/// After a flush with the commit flag set, the file holds the metadata,
/// and every page that was cached is read back from the file as it was
/// cached.
pub proof fn lemma_flush_persists(p: PagerView, id: usize)
    requires
        p.well_formed(),
        p.commit,
    ensures
        p.flush().well_formed(),
        file_page(p.flush().file, 0) == Some(p.meta.bytes()),
        MetaView::parse(file_page(p.flush().file, 0)->0) == Some(p.meta),
        id != 0 && p.cache.contains_key(id) ==> p.flush().stored(id) == Some(p.cache[id]),
{
    lemma_meta_round_trip(p.meta);
    let all = flushed(p.cache, p.file, p.meta.pages as nat);
    lemma_file_put(all, 0, p.meta.bytes(), id);
    if id != 0 && p.cache.contains_key(id) {
        lemma_flushed_holds(p.cache, p.file, p.meta.pages as nat, id);
    }
}

/// A cached page with an id below `n` is on file once the pages below `n`
/// were written.
pub proof fn lemma_flushed_holds(cache: Map<usize, Seq<u8>>, file: Seq<u8>, n: nat, id: usize)
    requires
        id < n,
        n <= usize::MAX,
        cache.contains_key(id),
        forall|k: usize| #[trigger] cache.contains_key(k) ==> cache[k].len() == PAGE_SIZE,
    ensures
        file_page(flushed(cache, file, n), id) == Some(cache[id]),
    decreases n,
{
    let before = flushed(cache, file, (n - 1) as nat);
    if id == n - 1 {
        lemma_file_put(before, id, cache[id], id);
    } else {
        lemma_flushed_holds(cache, file, (n - 1) as nat, id);
        if cache.contains_key((n - 1) as usize) {
            lemma_file_put(before, (n - 1) as usize, cache[(n - 1) as usize], id);
        }
    }
}

/// Writes `bytes` as page `id` of the file image.
pub fn put_page(file: &mut Vec<u8>, id: usize, bytes: &[u8])
    requires
        bytes@.len() == PAGE_SIZE,
        id < MAX_PAGES,
    ensures
        final(file)@ == file_put(old(file)@, id, bytes@),
{
    let start: usize = id * PAGE_SIZE;
    let end: usize = start + PAGE_SIZE;
    let ghost before = file@;
    while file.len() < end
        invariant
            before.len() <= file@.len(),
            file@.len() <= end || before.len() == file@.len(),
            file@ == before + zeros(file@.len() - before.len()),
        decreases end - file@.len(),
    {
        file.push(0u8);
        assert(file@ =~= before + zeros(file@.len() - before.len()));
    }
    let ghost grown = file@;
    assert(grown =~= before + zeros(end - before.len()));
    let mut k: usize = 0;
    while k < PAGE_SIZE
        invariant
            0 <= k <= PAGE_SIZE,
            bytes@.len() == PAGE_SIZE,
            start + PAGE_SIZE == end,
            end <= grown.len(),
            file@.len() == grown.len(),
            file@ == grown.subrange(0, start as int) + bytes@.subrange(0, k as int)
                + grown.subrange(start + k, grown.len() as int),
        decreases PAGE_SIZE - k,
    {
        let ghost prev = file@;
        file[start + k] = bytes[k];
        assert(file@ =~= grown.subrange(0, start as int) + bytes@.subrange(0, k + 1)
            + grown.subrange(start + k + 1, grown.len() as int));
        k = k + 1;
    }
    assert(bytes@.subrange(0, PAGE_SIZE as int) =~= bytes@);
}

/// A copy of page `id` of the file image, if the image holds the whole
/// page.
pub fn get_page(file: &Vec<u8>, id: usize) -> (r: Option<Vec<u8>>)
    requires
        id < MAX_PAGES,
    ensures
        match file_page(file@, id) {
            Some(b) => r matches Some(v) && v@ == b,
            None => r is None,
        },
{
    let start: usize = id * PAGE_SIZE;
    let end: usize = start + PAGE_SIZE;
    if end > file.len() {
        None
    } else {
        Some(slice_to_vec(slice_subrange(file.as_slice(), start, end)))
    }
}

/// Page management over the bytes of the database file.
#[derive(Debug)]
pub struct Pager {
    cache: BTreeMap<usize, Vec<u8>>,
    /// Whether to automatically commit changes
    /// to the page. When set to false all state changes
    /// are temporary.
    commit: bool,
    metadata: PagerMetadata,
    file: Vec<u8>,
}

impl View for Pager {
    type V = PagerView;

    closed spec fn view(&self) -> PagerView {
        PagerView {
            cache: self.cache@.map_values(|b: Vec<u8>| b@),
            file: self.file@,
            meta: self.metadata@,
            commit: self.commit,
        }
    }
}

impl Pager {
    /// Loads a new pager instance for the bytes of an on-disk file.
    pub fn open(file: Vec<u8>) -> (r: Result<Pager, StorageError>)
        ensures
            match PagerView::open(file@) {
                Ok(v) => r matches Ok(p) && p@ == v && p@.well_formed(),
                Err(e) => r == Err::<Pager, StorageError>(e),
            },
    {
        let mut cache: BTreeMap<usize, Vec<u8>> = BTreeMap::new();
        if file.len() == 0 {
            let metadata = PagerMetadata { free_pages: Vec::new(), pages: 2, root: 1 };
            let leaf = Page::new(PageType::Leaf, None, Vec::new(), 0);
            assert(leaf@.rows =~= Seq::<super::row::RowView>::empty());
            cache.insert(0, metadata.as_bytes());
            cache.insert(1, leaf.encode());
            let pager = Pager { cache, commit: true, metadata, file };
            assert(pager@.cache =~= PagerView::fresh().cache);
            assert(pager@.meta.free =~= Seq::<usize>::empty());
            assert(pager@.file =~= Seq::<u8>::empty());
            Ok(pager)
        } else {
            let bytes = match get_page(&file, METADATA_PAGE_ID) {
                Some(b) => b,
                None => { return Err(StorageError::Pager { cause: PagerError::Io }); },
            };
            let metadata = match PagerMetadata::from_u8(bytes.as_slice()) {
                Ok(m) => m,
                Err(e) => { return Err(e); },
            };
            let ghost b = bytes@;
            cache.insert(0, bytes);
            let pager = Pager { cache, commit: true, metadata, file };
            assert(pager@.cache =~= Map::<usize, Seq<u8>>::empty().insert(0, b));
            Ok(pager)
        }
    }

    /// Set commit state of the pager
    pub fn commit(&mut self, commit: bool)
        ensures
            final(self)@ == old(self)@.set_commit(commit),
    {
        self.commit = commit;
    }

    /// Whether a flush may write to the file.
    pub fn commits(&self) -> (r: bool)
        ensures
            r == self@.commit,
    {
        self.commit
    }

    /// Returns the root page
    pub fn root(&self) -> (r: usize)
        ensures
            r == self@.meta.root,
    {
        self.metadata.root
    }

    /// The allocator state.
    pub fn metadata(&self) -> (r: &PagerMetadata)
        ensures
            r@ == self@.meta,
    {
        &self.metadata
    }

    /// The bytes that the database file has to hold.
    pub fn file(&self) -> (r: &Vec<u8>)
        ensures
            r@ == self@.file,
    {
        &self.file
    }

    /// Caches the bytes of the metadata as page 0.
    fn write_metadata(&mut self)
        requires
            old(self).metadata@.free.len() <= MAX_FREE_PAGES,
        ensures
            final(self)@ == old(self)@.with_meta(old(self)@.meta),
    {
        let bytes = self.metadata.as_bytes();
        let ghost b = bytes@;
        self.cache.insert(METADATA_PAGE_ID, bytes);
        assert(self@.cache =~= old(self)@.cache.insert(0, b));
    }

    /// Whether `id` is a page that the pager tracks.
    fn is_valid(&self, id: usize) -> (r: bool)
        ensures
            r == self@.is_valid(id),
    {
        let n = self.metadata.free_pages.len();
        let free = listed(&self.metadata.free_pages, n, id);
        assert(self.metadata.free_pages@.subrange(0, n as int) =~= self.metadata.free_pages@);
        id < self.metadata.pages || free
    }

    /// Set the root node of the BTree
    pub fn set_root(&mut self, root: usize) -> (r: Result<(), StorageError>)
        requires
            old(self)@.well_formed(),
        ensures
            r is Ok,
            final(self)@ == old(self)@.set_root(root),
            final(self)@.well_formed(),
    {
        self.metadata.root = root;
        self.write_metadata();
        proof {
            lemma_meta_round_trip(self@.meta);
            assert(self@.meta.well_formed());
            assert(self@.cache == old(self)@.cache.insert(0, self@.meta.bytes()));
            assert forall|id: usize| #[trigger] self@.cache.contains_key(id) implies id < self@.meta.pages && self@.cache[id].len() == PAGE_SIZE by {
                if id != 0 {
                    assert(old(self)@.cache.contains_key(id));
                }
            }
        }
        Ok(())
    }

    /// Allocates space for a new page. Returns the page id for the
    /// allocated page.
    pub fn allocate(&mut self) -> (r: Result<usize, StorageError>)
        requires
            old(self)@.well_formed(),
        ensures
            (final(self)@, r) == old(self)@.allocate(),
            final(self)@.well_formed(),
            r matches Ok(id) ==> id < final(self)@.meta.pages && final(self)@.is_valid(id),
    {
        let ghost before = self.metadata@;
        let id = match self.metadata.free_pages.pop() {
            Some(id) => {
                assert(before.free.last() == id);
                assert(before.free[before.free.len() - 1] < before.pages);
                assert(self.metadata@.free =~= before.free.drop_last());
                id
            },
            None => {
                if self.metadata.pages >= MAX_PAGES {
                    assert(self.metadata@.free =~= before.free);
                    return Err(StorageError::Pager { cause: PagerError::Exhausted });
                }
                let id = self.metadata.pages;
                self.metadata.pages = id + 1;
                assert(self.metadata@.free =~= before.free);
                id
            },
        };
        proof {
            let m = self.metadata@;
            assert forall|i: int, j: int| 0 <= i < m.free.len() && 0 <= j < m.free.len() && i
                != j implies m.free[i] != m.free[j] by {
                assert(m.free[i] == before.free[i]);
                assert(m.free[j] == before.free[j]);
            }
            assert forall|i: int| 0 <= i < m.free.len() implies (#[trigger] m.free[i])
                < m.pages by {
                assert(m.free[i] == before.free[i]);
            }
            lemma_meta_round_trip(m);
        }
        self.write_metadata();
        let blank = zero_page();
        let ghost mid = self@;
        self.cache.insert(id, blank);
        assert(self@.cache =~= mid.cache.insert(id, zeros(PAGE_SIZE as int)));
        assert forall|k: usize| #[trigger] self@.cache.contains_key(k) implies k
            < self@.meta.pages && self@.cache[k].len() == PAGE_SIZE by {
            if k != id && k != 0 {
                assert(old(self)@.cache.contains_key(k));
            }
        }
        Ok(id)
    }

    /// Discards the page; Stops tracking the page and
    /// adds it to the list of pages that should be reclaimed.
    pub fn free(&mut self, id: usize) -> (r: Result<(), StorageError>)
        requires
            old(self)@.well_formed(),
        ensures
            (final(self)@, r) == old(self)@.free(id),
            final(self)@.well_formed(),
    {
        if !self.is_valid(id) {
            return Err(StorageError::Pager { cause: PagerError::OutOfBounds });
        }
        let n = self.metadata.free_pages.len();
        let free = listed(&self.metadata.free_pages, n, id);
        assert(self.metadata.free_pages@.subrange(0, n as int) =~= self.metadata.free_pages@);
        if free {
            return Err(StorageError::Pager { cause: PagerError::OutOfBounds });
        }
        if n >= MAX_FREE_PAGES {
            return Err(StorageError::Pager { cause: PagerError::Exhausted });
        }
        let ghost before = self@;
        let _ = self.cache.remove(&id);
        assert(self@.cache =~= before.cache.remove(id));
        self.metadata.free_pages.push(id);
        proof {
            let m = self.metadata@;
            assert(m.free =~= before.meta.free.push(id));
            assert forall|i: int, j: int| 0 <= i < m.free.len() && 0 <= j < m.free.len() && i
                != j implies m.free[i] != m.free[j] by {
                if i < n && j < n {
                    assert(before.meta.free[i] != before.meta.free[j]);
                } else if i < n {
                    assert(before.meta.free.contains(before.meta.free[i]));
                } else {
                    assert(before.meta.free.contains(before.meta.free[j]));
                }
            }
            lemma_meta_round_trip(m);
        }
        self.write_metadata();
        Ok(())
    }

    /// Reads a page tracked by the pager.
    ///
    /// # Error
    /// This function errors out when accessing invalid IDs or if
    /// the stored bytes are corrupted.
    pub fn read(&mut self, id: usize) -> (r: Result<Page, StorageError>)
        requires
            old(self)@.well_formed(),
        ensures
            final(self)@ == old(self)@.read(id).0,
            final(self)@.well_formed(),
            match old(self)@.read(id).1 {
                Ok(v) => r matches Ok(page) && page@ == v && page.well_formed() && page.offset
                    == 0,
                Err(e) => r == Err::<Page, StorageError>(e),
            },
    {
        if !self.is_valid(id) {
            return Err(StorageError::Pager { cause: PagerError::OutOfBounds });
        }
        assert(id < self@.meta.pages) by {
            if self@.meta.free.contains(id) {
                let i = choose|i: int| 0 <= i < self@.meta.free.len() && self@.meta.free[i] == id;
                assert(self@.meta.free[i] < self@.meta.pages);
            }
        }
        let ghost before = self@;
        match self.cache.get(&id) {
            Some(bytes) => {
                assert(before.cache[id] == bytes@);
                assert(self@.cache =~= before.cache.insert(id, bytes@));
                Page::decode(bytes.as_slice())
            },
            None => {
                let bytes = match get_page(&self.file, id) {
                    Some(b) => b,
                    None => { return Err(StorageError::Pager { cause: PagerError::Io }); },
                };
                let page = Page::decode(bytes.as_slice());
                let ghost b = bytes@;
                self.cache.insert(id, bytes);
                assert(self@.cache =~= before.cache.insert(id, b));
                page
            },
        }
    }

    /// Updates the tracked state of the page.
    ///
    /// # Error
    /// This function errors if the `id` is out of bounds.
    pub fn write(&mut self, id: usize, page: &Page) -> (r: Result<(), StorageError>)
        requires
            old(self)@.well_formed(),
            total_size(page@.rows) <= ROW_SPACE,
        ensures
            (final(self)@, r) == old(self)@.write(id, page@),
            final(self)@.well_formed(),
    {
        if !self.is_valid(id) {
            return Err(StorageError::Pager { cause: PagerError::OutOfBounds });
        }
        assert(id < self@.meta.pages) by {
            if self@.meta.free.contains(id) {
                let i = choose|i: int| 0 <= i < self@.meta.free.len() && self@.meta.free[i] == id;
                assert(self@.meta.free[i] < self@.meta.pages);
            }
        }
        let bytes = page.encode();
        let ghost before = self@;
        let ghost b = bytes@;
        self.cache.insert(id, bytes);
        assert(self@.cache =~= before.cache.insert(id, b));
        Ok(())
    }

    /// Writes the entire cache to the file image, then the metadata page,
    /// and empties the cache. Without the commit flag nothing happens.
    pub fn flush(&mut self)
        requires
            old(self)@.well_formed(),
        ensures
            final(self)@ == old(self)@.flush(),
            final(self)@.well_formed(),
    {
        if !self.commit {
            return ;
        }
        let ghost before = self@;
        let mut id: usize = 0;
        while id < self.metadata.pages
            invariant
                0 <= id <= self.metadata.pages,
                before.well_formed(),
                self@.cache == before.cache,
                self@.meta == before.meta,
                self@.commit == before.commit,
                self@.file == flushed(before.cache, before.file, id as nat),
            decreases self.metadata.pages - id,
        {
            match self.cache.get(&id) {
                Some(bytes) => {
                    assert(before.cache.contains_key(id));
                    assert(before.cache[id] == bytes@);
                    put_page(&mut self.file, id, bytes.as_slice());
                },
                None => {
                    assert(!before.cache.contains_key(id));
                },
            }
            id = id + 1;
        }
        let meta = self.metadata.as_bytes();
        put_page(&mut self.file, METADATA_PAGE_ID, meta.as_slice());
        self.cache.clear();
        assert(self@.cache =~= Map::<usize, Seq<u8>>::empty());
    }
}

/// A page of zeros.
pub fn zero_page() -> (r: Vec<u8>)
    ensures
        r@ == zeros(PAGE_SIZE as int),
{
    let mut out: Vec<u8> = Vec::new();
    while out.len() < PAGE_SIZE
        invariant
            out@.len() <= PAGE_SIZE,
            out@ == zeros(out@.len() as int),
        decreases PAGE_SIZE - out@.len(),
    {
        out.push(0u8);
        assert(out@ =~= zeros(out@.len() as int));
    }
    out
}

} // verus!
