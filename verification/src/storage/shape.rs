//! The shape of a well-formed tree, and the rows that it holds.
//!
//! A tree of height 0 is a leaf. A tree of a greater height is an internal
//! page whose pointers are linked; its children are the left child of the
//! first pointer and the right child of every pointer, each a tree of the
//! height below, under this page, with the keys between the separators
//! beside it. No page belongs to two of the children.
use vstd::prelude::*;
use super::btree::{
    choice, locate, pushes, tree_insert, tree_select, tree_structure, walk, walk_text,
};
use super::row::RowType;
use super::{EngineAction, PageError};
use super::page::{
    has_id, ids_increasing, lemma_insert_keys, lemma_page_round_trip, lemma_row_within_total,
    lemma_slot, lemma_slot_exists, linked, slot, PageType, PageView, PAGE_SIZE,
};
use super::pager::lemma_read_keeps;
use super::StorageError;
use super::pager::PagerView;
use super::row::RowView;

verus! {

/// The page that stands under an id, if bytes stand for it that describe
/// a page.
pub open spec fn page_of(s: PagerView, id: usize) -> Option<PageView> {
    match s.stored(id) {
        Some(b) => PageView::parse(b),
        None => None,
    }
}

/// The pages of a pager, each as it would be read.
pub open spec fn pages(s: PagerView) -> Map<usize, PageView> {
    Map::new(|id: usize| page_of(s, id) is Some, |id: usize| page_of(s, id)->0)
}

/// The children of an internal page, from left to right: the left child of
/// the first pointer, then the right child of every pointer.
pub open spec fn child(rows: Seq<RowView>, i: int) -> usize {
    if i <= 0 {
        rows[0].left()
    } else {
        rows[i - 1].right()
    }
}

/// The least key that child `i` may hold.
pub open spec fn low(rows: Seq<RowView>, i: int, lo: int) -> int {
    if i <= 0 {
        lo
    } else {
        rows[i - 1].id() as int
    }
}

/// The bound below which the keys of child `i` stay.
pub open spec fn high(rows: Seq<RowView>, i: int, hi: int) -> int {
    if i >= rows.len() {
        hi
    } else {
        rows[i].id() as int
    }
}

/// Whether page `x` belongs to the tree of height `h` under `id`.
pub open spec fn in_span(m: Map<usize, PageView>, id: usize, h: nat, x: usize) -> bool
    decreases h,
{
    x == id || (h > 0 && m.contains_key(id) && exists|i: int|
        0 <= i <= m[id].rows.len() && in_span(m, #[trigger] child(m[id].rows, i), (h - 1) as nat, x))
}

/// No page belongs to both of the trees of height `h` under `a` and `b`.
pub open spec fn apart(m: Map<usize, PageView>, a: usize, b: usize, h: nat) -> bool {
    forall|x: usize| #[trigger] in_span(m, a, h, x) ==> !in_span(m, b, h, x)
}

/// Page `id` is the root of a well-formed tree of height `h` among the
/// first `n` pages, with keys from `lo` up to, but not including, `hi`,
/// and under the parent `up`, if one is given.
pub open spec fn tree(
    m: Map<usize, PageView>,
    n: usize,
    id: usize,
    h: nat,
    lo: int,
    hi: int,
    up: Option<usize>,
) -> bool
    decreases h,
{
    &&& m.contains_key(id)
    &&& 0 < id < n
    &&& m[id].well_formed()
    &&& (up is Some ==> m[id].parent == up)
    &&& forall|i: int| 0 <= i < m[id].rows.len() ==> lo <= (#[trigger] m[id].rows[i]).id() < hi
    &&& if h == 0 {
        m[id].kind == PageType::Leaf
    } else {
        &&& m[id].kind == PageType::Internal
        &&& m[id].rows.len() > 0
        &&& linked(m[id].rows)
        &&& forall|i: int|
            0 <= i <= m[id].rows.len() ==> tree(
                m,
                n,
                #[trigger] child(m[id].rows, i),
                (h - 1) as nat,
                low(m[id].rows, i, lo),
                high(m[id].rows, i, hi),
                Some(id),
            )
        &&& forall|i: int, j: int|
            0 <= i < j <= m[id].rows.len() ==> apart(
                m,
                #[trigger] child(m[id].rows, i),
                #[trigger] child(m[id].rows, j),
                (h - 1) as nat,
            )
        &&& forall|i: int|
            0 <= i <= m[id].rows.len() ==> !in_span(
                m,
                #[trigger] child(m[id].rows, i),
                (h - 1) as nat,
                id,
            )
    }
}

/// The rows of the tree of height `h` under `id`, from left to right.
pub open spec fn contents(m: Map<usize, PageView>, id: usize, h: nat) -> Seq<RowView>
    decreases h, 0nat,
{
    if !m.contains_key(id) {
        Seq::empty()
    } else if h == 0 {
        m[id].rows
    } else {
        kids(m, m[id].rows, m[id].rows.len() + 1, (h - 1) as nat)
    }
}

/// The rows of the first `k` children, each a tree of height `h`.
pub open spec fn kids(m: Map<usize, PageView>, rows: Seq<RowView>, k: nat, h: nat) -> Seq<RowView>
    decreases h, k + 1,
{
    if k == 0 {
        Seq::empty()
    } else {
        kids(m, rows, (k - 1) as nat, h) + contents(m, child(rows, k - 1), h)
    }
}

/// The span of a child is part of the span of its parent.
pub proof fn lemma_span_child(m: Map<usize, PageView>, id: usize, h: nat, i: int, x: usize)
    requires
        h > 0,
        m.contains_key(id),
        0 <= i <= m[id].rows.len(),
        in_span(m, child(m[id].rows, i), (h - 1) as nat, x),
    ensures
        in_span(m, id, h, x),
{
}

/// A tree depends on the pages of its span alone: where two maps agree on
/// the span of a tree, the tree, its span and its rows are the same in
/// both.
#[verifier::rlimit(60)]
#[verifier::spinoff_prover]
pub proof fn lemma_frame(
    m: Map<usize, PageView>,
    t: Map<usize, PageView>,
    n: usize,
    id: usize,
    h: nat,
    lo: int,
    hi: int,
    up: Option<usize>,
)
    requires
        tree(m, n, id, h, lo, hi, up),
        forall|x: usize| #[trigger] in_span(m, id, h, x) ==> t.contains_key(x) && t[x] == m[x],
    ensures
        tree(t, n, id, h, lo, hi, up),
        forall|x: usize| in_span(t, id, h, x) == in_span(m, id, h, x),
        contents(t, id, h) == contents(m, id, h),
    decreases h,
{
    assert(in_span(m, id, h, id));
    assert(t.contains_key(id) && t[id] == m[id]);
    if h > 0 {
        let rows = m[id].rows;
        let g = (h - 1) as nat;
        assert forall|i: int| 0 <= i <= rows.len() implies {
            &&& tree(
                t,
                n,
                #[trigger] child(rows, i),
                g,
                low(rows, i, lo),
                high(rows, i, hi),
                Some(id),
            )
            &&& forall|x: usize|
                in_span(t, child(rows, i), g, x) == in_span(m, child(rows, i), g, x)
            &&& contents(t, child(rows, i), g) == contents(m, child(rows, i), g)
        } by {
            assert forall|x: usize| #[trigger]
                in_span(m, child(rows, i), g, x) implies t.contains_key(x) && t[x] == m[x] by {
                lemma_span_child(m, id, h, i, x);
            }
            lemma_frame(m, t, n, child(rows, i), g, low(rows, i, lo), high(rows, i, hi), Some(id));
        }
        assert forall|x: usize| in_span(t, id, h, x) == in_span(m, id, h, x) by {
            if in_span(t, id, h, x) && x != id {
                let i = choose|i: int|
                    0 <= i <= rows.len() && in_span(t, #[trigger] child(rows, i), g, x);
                assert(in_span(m, child(rows, i), g, x));
            }
            if in_span(m, id, h, x) && x != id {
                let i = choose|i: int|
                    0 <= i <= rows.len() && in_span(m, #[trigger] child(rows, i), g, x);
                assert(in_span(t, child(rows, i), g, x));
            }
        }
        lemma_kids_frame(m, t, id, h, rows.len() + 1);
    }
}

/// The rows of the first children are the same where the rows of each of
/// them are.
pub proof fn lemma_kids_frame(
    m: Map<usize, PageView>,
    t: Map<usize, PageView>,
    id: usize,
    h: nat,
    k: nat,
)
    requires
        h > 0,
        m.contains_key(id),
        k <= m[id].rows.len() + 1,
        forall|i: int|
            0 <= i < k ==> contents(t, #[trigger] child(m[id].rows, i), (h - 1) as nat) == contents(
                m,
                child(m[id].rows, i),
                (h - 1) as nat,
            ),
    ensures
        kids(t, m[id].rows, k, (h - 1) as nat) == kids(m, m[id].rows, k, (h - 1) as nat),
    decreases k,
{
    if k > 0 {
        lemma_kids_frame(m, t, id, h, (k - 1) as nat);
        let c = child(m[id].rows, k - 1);
        assert(contents(t, c, (h - 1) as nat) == contents(m, c, (h - 1) as nat));
    }
}

/// Every key of the rows is at least `lo` and below `hi`.
pub open spec fn within(rows: Seq<RowView>, lo: int, hi: int) -> bool {
    forall|i: int| 0 <= i < rows.len() ==> lo <= (#[trigger] rows[i]).id() < hi
}

/// Rows in key order below a bound, followed by rows in key order from
/// that bound on, are in key order.
pub proof fn lemma_join_sorted(a: Seq<RowView>, b: Seq<RowView>, lo: int, mid: int, hi: int)
    requires
        ids_increasing(a),
        ids_increasing(b),
        within(a, lo, mid),
        within(b, mid, hi),
        lo <= mid <= hi,
    ensures
        ids_increasing(a + b),
        within(a + b, lo, hi),
{
    let c = a + b;
    assert forall|i: int, j: int| 0 <= i < j < c.len() implies c[i].id() < c[j].id() by {
        if j < a.len() {
            assert(a[i].id() < a[j].id());
        } else if i >= a.len() {
            assert(b[i - a.len()].id() < b[j - a.len()].id());
        } else {
            assert(a[i].id() < mid);
            assert(b[j - a.len()].id() >= mid);
        }
    }
    assert forall|i: int| 0 <= i < c.len() implies lo <= (#[trigger] c[i]).id() < hi by {
        if i < a.len() {
            assert(lo <= a[i].id() < mid);
        } else {
            assert(mid <= b[i - a.len()].id() < hi);
        }
    }
}

/// The bound below which the keys of the first `k` children stay.
pub open spec fn reach(rows: Seq<RowView>, k: int, lo: int, hi: int) -> int {
    if k <= 0 {
        lo
    } else {
        high(rows, k - 1, hi)
    }
}

/// The bounds of the children of an internal page lie in order between
/// the bounds of the page.
pub proof fn lemma_bounds(rows: Seq<RowView>, i: int, lo: int, hi: int)
    requires
        ids_increasing(rows),
        within(rows, lo, hi),
        0 <= i <= rows.len(),
        lo <= hi,
    ensures
        lo <= low(rows, i, lo) <= high(rows, i, hi) <= hi,
        i < rows.len() ==> high(rows, i, hi) == low(rows, i + 1, lo),
{
    if 0 < i < rows.len() {
        assert(rows[i - 1].id() < rows[i].id());
    }
    if i > 0 {
        assert(lo <= rows[i - 1].id() < hi);
    }
    if i < rows.len() {
        assert(lo <= rows[i].id() < hi);
    }
}

/// The rows of a well-formed tree are in strictly growing key order, and
/// every key lies within the bounds of the tree.
pub proof fn lemma_contents_sorted(
    m: Map<usize, PageView>,
    n: usize,
    id: usize,
    h: nat,
    lo: int,
    hi: int,
    up: Option<usize>,
)
    requires
        tree(m, n, id, h, lo, hi, up),
        lo <= hi,
    ensures
        ids_increasing(contents(m, id, h)),
        within(contents(m, id, h), lo, hi),
    decreases h, 0nat,
{
    if h > 0 {
        lemma_kids_sorted(m, n, id, h, lo, hi, up, m[id].rows.len() + 1);
    }
}

/// The rows of the first `k` children of a well-formed tree are in
/// strictly growing key order, below the bound of the last of them.
pub proof fn lemma_kids_sorted(
    m: Map<usize, PageView>,
    n: usize,
    id: usize,
    h: nat,
    lo: int,
    hi: int,
    up: Option<usize>,
    k: nat,
)
    requires
        tree(m, n, id, h, lo, hi, up),
        lo <= hi,
        h > 0,
        k <= m[id].rows.len() + 1,
    ensures
        ids_increasing(kids(m, m[id].rows, k, (h - 1) as nat)),
        within(kids(m, m[id].rows, k, (h - 1) as nat), lo, reach(m[id].rows, k as int, lo, hi)),
        lo <= reach(m[id].rows, k as int, lo, hi) <= hi,
    decreases (h - 1) as nat, k + 1,
{
    let rows = m[id].rows;
    let g = (h - 1) as nat;
    if k > 0 {
        let c = child(rows, k - 1);
        lemma_kids_sorted(m, n, id, h, lo, hi, up, (k - 1) as nat);
        lemma_bounds(rows, k - 1, lo, hi);
        assert(tree(m, n, c, g, low(rows, k - 1, lo), high(rows, k - 1, hi), Some(id)));
        lemma_contents_sorted(m, n, c, g, low(rows, k - 1, lo), high(rows, k - 1, hi), Some(id));
        lemma_join_sorted(
            kids(m, rows, (k - 1) as nat, g),
            contents(m, c, g),
            lo,
            low(rows, k - 1, lo),
            high(rows, k - 1, hi),
        );
    }
}

/// The child of an internal page that a key belongs to: there are as
/// many pointers in front of it as there are separators up to the key.
pub open spec fn branch(rows: Seq<RowView>, key: usize) -> int {
    if has_id(rows, key) {
        slot(rows, key) + 1
    } else {
        slot(rows, key)
    }
}

/// The descent takes the child that the key belongs to, and the key lies
/// within the bounds of that child.
#[verifier::rlimit(60)]
#[verifier::spinoff_prover]
pub proof fn lemma_branch(rows: Seq<RowView>, key: usize, lo: int, hi: int)
    requires
        ids_increasing(rows),
        linked(rows),
        rows.len() > 0,
        within(rows, lo, hi),
        lo <= key < hi,
    ensures
        0 <= branch(rows, key) <= rows.len(),
        choice(rows, key) matches Some(c) && c.1 == child(rows, branch(rows, key)) && c.0
            < rows.len(),
        low(rows, branch(rows, key), lo) <= key < high(rows, branch(rows, key), hi),
{
    lemma_slot_exists(rows, key);
    let p = slot(rows, key);
    lemma_slot(rows, key, p);
    if has_id(rows, key) {
        if p + 1 < rows.len() {
            assert(rows[p].id() < rows[p + 1].id());
        }
    } else if p == rows.len() {
        assert(rows[p - 1].id() < key);
    } else {
        assert(rows[p].id() >= key);
        if p > 0 {
            assert(rows[p - 1].id() < key);
            assert(rows[p - 1].right() == rows[p].left());
        }
    }
}

/// The child that the descent takes is the left child of the pointer that
/// it follows, or the right one; the left one is the child in the place of
/// the pointer, the right one the child behind it.
#[verifier::rlimit(60)]
#[verifier::spinoff_prover]
pub proof fn lemma_branch_pointer(rows: Seq<RowView>, key: usize)
    requires
        ids_increasing(rows),
        0 < rows.len() <= usize::MAX,
    ensures
        choice(rows, key) matches Some(c) && c.0 < rows.len() && ((branch(rows, key) == c.0 && c.1
            == rows[c.0 as int].left()) || (branch(rows, key) == c.0 + 1 && c.1
            == rows[c.0 as int].right())),
{
    lemma_slot_exists(rows, key);
    let p = slot(rows, key);
    lemma_slot(rows, key, p);
    if !has_id(rows, key) {
        if p == rows.len() {
            assert(rows[p - 1].id() < key);
        } else {
            assert(rows[p].id() >= key);
        }
    }
}

/// The leaf that the descent for a key ends in.
pub open spec fn target(m: Map<usize, PageView>, id: usize, h: nat, key: usize) -> usize
    decreases h,
{
    if h == 0 || !m.contains_key(id) {
        id
    } else {
        target(m, child(m[id].rows, branch(m[id].rows, key)), (h - 1) as nat, key)
    }
}

/// The least key that the leaf of the descent may hold.
pub open spec fn target_lo(m: Map<usize, PageView>, id: usize, h: nat, lo: int, key: usize) -> int
    decreases h,
{
    if h == 0 || !m.contains_key(id) {
        lo
    } else {
        target_lo(
            m,
            child(m[id].rows, branch(m[id].rows, key)),
            (h - 1) as nat,
            low(m[id].rows, branch(m[id].rows, key), lo),
            key,
        )
    }
}

/// The bound below which the keys of the leaf of the descent stay.
pub open spec fn target_hi(m: Map<usize, PageView>, id: usize, h: nat, hi: int, key: usize) -> int
    decreases h,
{
    if h == 0 || !m.contains_key(id) {
        hi
    } else {
        target_hi(
            m,
            child(m[id].rows, branch(m[id].rows, key)),
            (h - 1) as nat,
            high(m[id].rows, branch(m[id].rows, key), hi),
            key,
        )
    }
}

/// Reading a page leaves the pages of a pager as they are.
pub proof fn lemma_pages_after_read(s: PagerView, id: usize)
    ensures
        pages(s.read(id).0) == pages(s),
        s.read(id).0.meta == s.meta,
        s.well_formed() ==> s.read(id).0.well_formed(),
{
    let t = s.read(id).0;
    assert forall|x: usize| page_of(t, x) == page_of(s, x) by {
        lemma_read_keeps(s, id, x);
    }
    lemma_read_keeps(s, id, id);
    assert(pages(t) =~= pages(s));
}

/// A page of a tree is read as it stands in the tree.
pub proof fn lemma_read_tree_page(s: PagerView, id: usize)
    requires
        pages(s).contains_key(id),
        id < s.meta.pages,
    ensures
        s.read(id).1 == Ok::<PageView, StorageError>(pages(s)[id]),
{
}

/// The leaf of the descent is a leaf of the tree, and the key lies within
/// its bounds.
pub proof fn lemma_target(
    m: Map<usize, PageView>,
    n: usize,
    id: usize,
    h: nat,
    lo: int,
    hi: int,
    up: Option<usize>,
    key: usize,
)
    requires
        tree(m, n, id, h, lo, hi, up),
        lo <= key < hi,
    ensures
        in_span(m, id, h, target(m, id, h, key)),
        target_lo(m, id, h, lo, key) <= key < target_hi(m, id, h, hi, key),
        lo <= target_lo(m, id, h, lo, key),
        target_hi(m, id, h, hi, key) <= hi,
        tree(
            m,
            n,
            target(m, id, h, key),
            0,
            target_lo(m, id, h, lo, key),
            target_hi(m, id, h, hi, key),
            None,
        ),
    decreases h,
{
    if h > 0 {
        let rows = m[id].rows;
        let b = branch(rows, key);
        lemma_branch(rows, key, lo, hi);
        lemma_bounds(rows, b, lo, hi);
        let c = child(rows, b);
        assert(tree(m, n, c, (h - 1) as nat, low(rows, b, lo), high(rows, b, hi), Some(id)));
        lemma_target(m, n, c, (h - 1) as nat, low(rows, b, lo), high(rows, b, hi), Some(id), key);
        lemma_span_child(m, id, h, b, target(m, id, h, key));
    }
}

/// The descent in a well-formed tree ends in the leaf that the key belongs
/// to, after as many pointers as the tree is high.
#[verifier::rlimit(60)]
#[verifier::spinoff_prover]
pub proof fn lemma_locate(
    s: PagerView,
    id: usize,
    h: nat,
    lo: int,
    hi: int,
    up: Option<usize>,
    key: usize,
    crumbs: Seq<(usize, usize)>,
    fuel: nat,
)
    requires
        s.well_formed(),
        tree(pages(s), s.meta.pages, id, h, lo, hi, up),
        lo <= key < hi,
        fuel >= h,
    ensures
        locate(s, id, key, crumbs, fuel).1 matches Ok(found) && found.0 == target(
            pages(s),
            id,
            h,
            key,
        ) && found.2 == pages(s)[found.0] && found.1.len() == crumbs.len() + h,
        pages(locate(s, id, key, crumbs, fuel).0) == pages(s),
        locate(s, id, key, crumbs, fuel).0.meta == s.meta,
        locate(s, id, key, crumbs, fuel).0.well_formed(),
    decreases h,
{
    let m = pages(s);
    lemma_pages_after_read(s, id);
    lemma_read_tree_page(s, id);
    let s1 = s.read(id).0;
    if h > 0 {
        let rows = m[id].rows;
        let b = branch(rows, key);
        lemma_branch(rows, key, lo, hi);
        let c = child(rows, b);
        let q = (choice(rows, key)->0).0;
        assert(tree(m, s.meta.pages, c, (h - 1) as nat, low(rows, b, lo), high(rows, b, hi), Some(id)));
        lemma_locate(
            s1,
            c,
            (h - 1) as nat,
            low(rows, b, lo),
            high(rows, b, hi),
            Some(id),
            key,
            crumbs.push((id, q)),
            (fuel - 1) as nat,
        );
    }
}

/// The rows of the children from the `j`-th on, each a tree of height
/// `h`.
pub open spec fn rest(m: Map<usize, PageView>, rows: Seq<RowView>, j: int, h: nat) -> Seq<RowView>
    decreases rows.len() + 1 - j,
{
    if j < 0 || j > rows.len() {
        Seq::empty()
    } else {
        contents(m, child(rows, j), h) + rest(m, rows, j + 1, h)
    }
}

/// The rows of all children are those of the first `j` and those of the
/// others.
pub proof fn lemma_kids_rest(m: Map<usize, PageView>, rows: Seq<RowView>, j: nat, h: nat)
    requires
        j <= rows.len() + 1,
    ensures
        kids(m, rows, rows.len() + 1, h) == kids(m, rows, j, h) + rest(m, rows, j as int, h),
    decreases rows.len() + 1 - j,
{
    if j <= rows.len() {
        lemma_kids_rest(m, rows, j + 1, h);
        assert(kids(m, rows, j + 1, h) == kids(m, rows, j, h) + contents(
            m,
            child(rows, j as int),
            h,
        ));
        assert(kids(m, rows, j, h) + contents(m, child(rows, j as int), h) + rest(
            m,
            rows,
            j as int + 1,
            h,
        ) =~= kids(m, rows, j, h) + rest(m, rows, j as int, h));
    } else {
        assert(kids(m, rows, j, h) + rest(m, rows, j as int, h) =~= kids(m, rows, j, h));
    }
}

/// The rows of the later children are the same where the rows of each of
/// them are.
pub proof fn lemma_rest_frame(
    m: Map<usize, PageView>,
    t: Map<usize, PageView>,
    rows: Seq<RowView>,
    j: int,
    h: nat,
)
    requires
        0 <= j,
        forall|i: int|
            j <= i <= rows.len() ==> contents(t, #[trigger] child(rows, i), h) == contents(
                m,
                child(rows, i),
                h,
            ),
    ensures
        rest(t, rows, j, h) == rest(m, rows, j, h),
    decreases rows.len() + 1 - j,
{
    if j <= rows.len() {
        lemma_rest_frame(m, t, rows, j + 1, h);
        assert(contents(t, child(rows, j), h) == contents(m, child(rows, j), h));
    }
}

/// The rows in front of the leaf that a key belongs to.
pub open spec fn before(m: Map<usize, PageView>, id: usize, h: nat, key: usize) -> Seq<RowView>
    decreases h,
{
    if h == 0 || !m.contains_key(id) {
        Seq::empty()
    } else {
        kids(m, m[id].rows, branch(m[id].rows, key) as nat, (h - 1) as nat) + before(
            m,
            child(m[id].rows, branch(m[id].rows, key)),
            (h - 1) as nat,
            key,
        )
    }
}

/// The rows behind the leaf that a key belongs to.
pub open spec fn after(m: Map<usize, PageView>, id: usize, h: nat, key: usize) -> Seq<RowView>
    decreases h,
{
    if h == 0 || !m.contains_key(id) {
        Seq::empty()
    } else {
        after(m, child(m[id].rows, branch(m[id].rows, key)), (h - 1) as nat, key) + rest(
            m,
            m[id].rows,
            branch(m[id].rows, key) + 1,
            (h - 1) as nat,
        )
    }
}

/// The rows of a tree are the rows in front of the leaf that a key belongs
/// to, the rows of that leaf, and the rows behind it.
#[verifier::rlimit(60)]
#[verifier::spinoff_prover]
pub proof fn lemma_around(
    m: Map<usize, PageView>,
    n: usize,
    id: usize,
    h: nat,
    lo: int,
    hi: int,
    up: Option<usize>,
    key: usize,
)
    requires
        tree(m, n, id, h, lo, hi, up),
        lo <= key < hi,
    ensures
        contents(m, id, h) == before(m, id, h, key) + m[target(m, id, h, key)].rows + after(
            m,
            id,
            h,
            key,
        ),
    decreases h,
{
    if h == 0 {
        assert(contents(m, id, h) =~= Seq::<RowView>::empty() + m[id].rows + Seq::<
            RowView,
        >::empty());
    } else {
        let rows = m[id].rows;
        let g = (h - 1) as nat;
        let b = branch(rows, key);
        lemma_branch(rows, key, lo, hi);
        let c = child(rows, b);
        assert(tree(m, n, c, g, low(rows, b, lo), high(rows, b, hi), Some(id)));
        lemma_around(m, n, c, g, low(rows, b, lo), high(rows, b, hi), Some(id), key);
        lemma_kids_rest(m, rows, b as nat, g);
        let leaf_rows = m[target(m, id, h, key)].rows;
        assert(rest(m, rows, b, g) == contents(m, c, g) + rest(m, rows, b + 1, g));
        assert(kids(m, rows, b as nat, g) + (before(m, c, g, key) + leaf_rows + after(
            m,
            c,
            g,
            key,
        ) + rest(m, rows, b + 1, g)) =~= (kids(m, rows, b as nat, g) + before(m, c, g, key))
            + leaf_rows + (after(m, c, g, key) + rest(m, rows, b + 1, g)));
    }
}

/// Putting another well-formed leaf, with keys within the same bounds and
/// under the same parent, in place of the leaf that a key belongs to
/// leaves the tree well formed, with the same pages, and with the rows of
/// the new leaf between the rows in front and the rows behind.
#[verifier::rlimit(60)]
#[verifier::spinoff_prover]
pub proof fn lemma_put(
    m: Map<usize, PageView>,
    n: usize,
    id: usize,
    h: nat,
    lo: int,
    hi: int,
    up: Option<usize>,
    key: usize,
    page: PageView,
)
    requires
        tree(m, n, id, h, lo, hi, up),
        lo <= key < hi,
        page.kind == PageType::Leaf,
        page.well_formed(),
        page.parent == m[target(m, id, h, key)].parent,
        within(page.rows, target_lo(m, id, h, lo, key), target_hi(m, id, h, hi, key)),
    ensures
        tree(m.insert(target(m, id, h, key), page), n, id, h, lo, hi, up),
        forall|x: usize|
            in_span(m.insert(target(m, id, h, key), page), id, h, x) == in_span(m, id, h, x),
        contents(m.insert(target(m, id, h, key), page), id, h) == before(m, id, h, key) + page.rows
            + after(m, id, h, key),
    decreases h,
{
    let leaf = target(m, id, h, key);
    let t = m.insert(leaf, page);
    if h == 0 {
        assert(contents(t, id, h) =~= Seq::<RowView>::empty() + page.rows + Seq::<
            RowView,
        >::empty());
    } else {
        let rows = m[id].rows;
        let g = (h - 1) as nat;
        let b = branch(rows, key);
        lemma_branch(rows, key, lo, hi);
        let c = child(rows, b);
        assert(tree(m, n, c, g, low(rows, b, lo), high(rows, b, hi), Some(id)));
        lemma_target(m, n, c, g, low(rows, b, lo), high(rows, b, hi), Some(id), key);
        assert(in_span(m, c, g, leaf));
        assert(!in_span(m, c, g, id));
        assert(t[id] == m[id]);
        lemma_put(m, n, c, g, low(rows, b, lo), high(rows, b, hi), Some(id), key, page);
        assert forall|i: int| 0 <= i <= rows.len() && i != b implies {
            &&& tree(
                t,
                n,
                #[trigger] child(rows, i),
                g,
                low(rows, i, lo),
                high(rows, i, hi),
                Some(id),
            )
            &&& forall|x: usize|
                in_span(t, child(rows, i), g, x) == in_span(m, child(rows, i), g, x)
            &&& contents(t, child(rows, i), g) == contents(m, child(rows, i), g)
        } by {
            let d = child(rows, i);
            assert(tree(m, n, d, g, low(rows, i, lo), high(rows, i, hi), Some(id)));
            if i < b {
                assert(apart(m, child(rows, i), child(rows, b), g));
            } else {
                assert(apart(m, child(rows, b), child(rows, i), g));
            }
            assert(!in_span(m, d, g, leaf));
            assert forall|x: usize| #[trigger] in_span(m, d, g, x) implies t.contains_key(x)
                && t[x] == m[x] by {
                lemma_span_pages(m, n, d, g, low(rows, i, lo), high(rows, i, hi), Some(id), x);
            }
            lemma_frame(m, t, n, d, g, low(rows, i, lo), high(rows, i, hi), Some(id));
        }
        assert forall|i: int| 0 <= i <= rows.len() implies {
            &&& tree(
                t,
                n,
                #[trigger] child(rows, i),
                g,
                low(rows, i, lo),
                high(rows, i, hi),
                Some(id),
            )
            &&& forall|x: usize|
                in_span(t, child(rows, i), g, x) == in_span(m, child(rows, i), g, x)
        } by {
            if i == b {
            }
        }
        assert forall|x: usize| in_span(t, id, h, x) == in_span(m, id, h, x) by {
            if in_span(t, id, h, x) && x != id {
                let i = choose|i: int|
                    0 <= i <= rows.len() && in_span(t, #[trigger] child(rows, i), g, x);
                assert(in_span(m, child(rows, i), g, x));
            }
            if in_span(m, id, h, x) && x != id {
                let i = choose|i: int|
                    0 <= i <= rows.len() && in_span(m, #[trigger] child(rows, i), g, x);
                assert(in_span(t, child(rows, i), g, x));
            }
        }
        assert forall|i: int, j: int| 0 <= i < j <= rows.len() implies apart(
            t,
            #[trigger] child(rows, i),
            #[trigger] child(rows, j),
            g,
        ) by {
            assert(apart(m, child(rows, i), child(rows, j), g));
        }
        assert forall|i: int| 0 <= i <= rows.len() implies !in_span(
            t,
            #[trigger] child(rows, i),
            g,
            id,
        ) by {
            assert(!in_span(m, child(rows, i), g, id));
        }
        assert(tree(t, n, id, h, lo, hi, up));
        lemma_kids_frame(m, t, id, h, b as nat);
        lemma_rest_frame(m, t, rows, b + 1, g);
        lemma_kids_rest(t, rows, b as nat, g);
        assert(rest(t, rows, b, g) == contents(t, c, g) + rest(t, rows, b + 1, g));
        assert(kids(m, rows, b as nat, g) + (before(m, c, g, key) + page.rows + after(
            m,
            c,
            g,
            key,
        ) + rest(m, rows, b + 1, g)) =~= (kids(m, rows, b as nat, g) + before(m, c, g, key))
            + page.rows + (after(m, c, g, key) + rest(m, rows, b + 1, g)));
    }
}

/// Every page of the span of a tree is a page of the map.
pub proof fn lemma_span_pages(
    m: Map<usize, PageView>,
    n: usize,
    id: usize,
    h: nat,
    lo: int,
    hi: int,
    up: Option<usize>,
    x: usize,
)
    requires
        tree(m, n, id, h, lo, hi, up),
        in_span(m, id, h, x),
    ensures
        m.contains_key(x),
        0 < x < n,
    decreases h,
{
    if x != id {
        let rows = m[id].rows;
        let i = choose|i: int|
            0 <= i <= rows.len() && in_span(m, #[trigger] child(rows, i), (h - 1) as nat, x);
        assert(tree(
            m,
            n,
            child(rows, i),
            (h - 1) as nat,
            low(rows, i, lo),
            high(rows, i, hi),
            Some(id),
        ));
        lemma_span_pages(
            m,
            n,
            child(rows, i),
            (h - 1) as nat,
            low(rows, i, lo),
            high(rows, i, hi),
            Some(id),
            x,
        );
    }
}

/// The pages of the tree of height `h` under `id` in the order in which a
/// walk visits them: a page before its children, the children from left
/// to right.
pub open spec fn order(m: Map<usize, PageView>, id: usize, h: nat) -> Seq<usize>
    decreases h, 0nat,
{
    if h == 0 || !m.contains_key(id) {
        seq![id]
    } else {
        seq![id] + kid_orders(m, m[id].rows, m[id].rows.len() + 1, (h - 1) as nat)
    }
}

/// The pages of the first `k` children in the order of a walk.
pub open spec fn kid_orders(m: Map<usize, PageView>, rows: Seq<RowView>, k: nat, h: nat) -> Seq<
    usize,
>
    decreases h, k + 1,
{
    if k == 0 {
        Seq::empty()
    } else {
        kid_orders(m, rows, (k - 1) as nat, h) + order(m, child(rows, k - 1), h)
    }
}

/// Two pagers hold the same pages and the same metadata.
pub open spec fn alike(s: PagerView, t: PagerView) -> bool {
    &&& s.meta == t.meta
    &&& forall|x: usize| #[trigger] s.stored(x) == t.stored(x)
}

/// Reading a page gives the same in pagers that are alike, and leaves
/// them alike.
pub proof fn lemma_alike_read(s: PagerView, t: PagerView, id: usize)
    requires
        alike(s, t),
    ensures
        s.read(id).1 == t.read(id).1,
        alike(s.read(id).0, t.read(id).0),
        alike(s, s.read(id).0),
{
    assert(s.stored(id) == t.stored(id));
    assert forall|x: usize| #[trigger] s.read(id).0.stored(x) == t.read(id).0.stored(x) by {
        lemma_read_keeps(s, id, x);
        lemma_read_keeps(t, id, x);
        assert(s.stored(x) == t.stored(x));
    }
    assert forall|x: usize| #[trigger] s.stored(x) == s.read(id).0.stored(x) by {
        lemma_read_keeps(s, id, x);
    }
    lemma_read_keeps(s, id, id);
    lemma_read_keeps(t, id, id);
}

/// A walk gives the same in pagers that are alike.
pub proof fn lemma_alike_walk(
    s: PagerView,
    t: PagerView,
    stack: Seq<usize>,
    visited: Seq<usize>,
    out: Seq<RowView>,
    limit: nat,
)
    requires
        alike(s, t),
    ensures
        walk(s, stack, visited, out, limit).1 == walk(t, stack, visited, out, limit).1,
        alike(walk(s, stack, visited, out, limit).0, walk(t, stack, visited, out, limit).0),
    decreases limit - visited.len(), stack.len(),
{
    if stack.len() == 0 {
    } else if visited.contains(stack.last()) {
        lemma_alike_walk(s, t, stack.drop_last(), visited, out, limit);
    } else if visited.len() >= limit {
    } else {
        lemma_alike_read(s, t, stack.last());
        let (s1, r) = s.read(stack.last());
        let (t1, q) = t.read(stack.last());
        match r {
            Err(e) => {},
            Ok(page) => {
                if page.kind == PageType::Leaf {
                    lemma_alike_walk(
                        s1,
                        t1,
                        stack.drop_last(),
                        visited.push(stack.last()),
                        out + page.rows,
                        limit,
                    );
                } else {
                    lemma_alike_walk(
                        s1,
                        t1,
                        stack.drop_last() + pushes(page.rows),
                        visited.push(stack.last()),
                        out,
                        limit,
                    );
                }
            },
        }
    }
}

/// Different numbers below `n`.
pub open spec fn distinct_below(v: Seq<usize>, n: nat) -> bool {
    &&& v.no_duplicates()
    &&& forall|i: int| 0 <= i < v.len() ==> v[i] < n
}

/// No more than `n` different numbers are below `n`.
pub proof fn lemma_distinct_bound(v: Seq<usize>, n: nat)
    requires
        v.no_duplicates(),
        forall|i: int| 0 <= i < v.len() ==> v[i] < n,
    ensures
        v.len() <= n,
    decreases n,
{
    if n == 0 {
        if v.len() > 0 {
            assert(v[0] < n);
        }
    } else if exists|i: int| 0 <= i < v.len() && v[i] == n - 1 {
        let i = choose|i: int| 0 <= i < v.len() && v[i] == n - 1;
        let w = v.remove(i);
        assert forall|a: int, b: int| 0 <= a < w.len() && 0 <= b < w.len() && a != b implies w[a]
            != w[b] by {
            let x = if a < i { a } else { a + 1 };
            let y = if b < i { b } else { b + 1 };
            assert(v[x] != v[y]);
        }
        assert forall|a: int| 0 <= a < w.len() implies w[a] < n - 1 by {
            let x = if a < i { a } else { a + 1 };
            assert(v[x] < n);
            assert(v[x] != v[i]);
        }
        lemma_distinct_bound(w, (n - 1) as nat);
    } else {
        assert forall|a: int| 0 <= a < v.len() implies v[a] < n - 1 by {
            assert(v[a] < n);
        }
        lemma_distinct_bound(v, (n - 1) as nat);
    }
}

/// What one of two lists holds, both together hold.
pub proof fn lemma_concat_contains(a: Seq<usize>, b: Seq<usize>, x: usize)
    ensures
        (a + b).contains(x) <==> (a.contains(x) || b.contains(x)),
{
    let c = a + b;
    if c.contains(x) {
        let i = choose|i: int| 0 <= i < c.len() && c[i] == x;
        if i < a.len() {
            assert(a[i] == x);
        } else {
            assert(b[i - a.len()] == x);
        }
    }
    if a.contains(x) {
        let i = choose|i: int| 0 <= i < a.len() && a[i] == x;
        assert(c[i] == x);
    }
    if b.contains(x) {
        let i = choose|i: int| 0 <= i < b.len() && b[i] == x;
        assert(c[a.len() + i] == x);
    }
}

/// Two lists of different numbers below `n` that share no number are
/// together a list of different numbers below `n`.
pub proof fn lemma_concat_distinct(a: Seq<usize>, b: Seq<usize>, n: nat)
    requires
        distinct_below(a, n),
        distinct_below(b, n),
        forall|x: usize| a.contains(x) ==> !b.contains(x),
    ensures
        distinct_below(a + b, n),
{
    let c = a + b;
    assert forall|i: int, j: int| 0 <= i < c.len() && 0 <= j < c.len() && i != j implies c[i]
        != c[j] by {
        if i < a.len() && j < a.len() {
            assert(a[i] != a[j]);
        } else if i >= a.len() && j >= a.len() {
            assert(b[i - a.len()] != b[j - a.len()]);
        } else if i < a.len() {
            assert(a.contains(a[i]));
            assert(b.contains(b[j - a.len()]));
        } else {
            assert(a.contains(a[j]));
            assert(b.contains(b[i - a.len()]));
        }
    }
    assert forall|i: int| 0 <= i < c.len() implies c[i] < n by {
        if i < a.len() {
            assert(a[i] < n);
        } else {
            assert(b[i - a.len()] < n);
        }
    }
}

/// Page `x` belongs to one of the first `k` children.
pub open spec fn under(m: Map<usize, PageView>, rows: Seq<RowView>, k: nat, h: nat, x: usize) -> bool {
    exists|j: int| 0 <= j < k && in_span(m, #[trigger] child(rows, j), h, x)
}

/// The walk visits the pages of a well-formed tree, each once.
#[verifier::rlimit(60)]
#[verifier::spinoff_prover]
pub proof fn lemma_order(
    m: Map<usize, PageView>,
    n: usize,
    id: usize,
    h: nat,
    lo: int,
    hi: int,
    up: Option<usize>,
)
    requires
        tree(m, n, id, h, lo, hi, up),
    ensures
        distinct_below(order(m, id, h), n as nat),
        forall|x: usize| order(m, id, h).contains(x) <==> in_span(m, id, h, x),
    decreases h, 0nat,
{
    let one = seq![id];
    assert(distinct_below(one, n as nat));
    assert forall|x: usize| one.contains(x) <==> x == id by {
        if x == id {
            assert(one[0] == x);
        }
    }
    if h > 0 {
        let rows = m[id].rows;
        let g = (h - 1) as nat;
        let all = kid_orders(m, rows, rows.len() + 1, g);
        lemma_kid_orders(m, n, id, h, lo, hi, up, rows.len() + 1);
        assert forall|x: usize| one.contains(x) implies !all.contains(x) by {
            if all.contains(x) {
                assert(under(m, rows, rows.len() + 1, g, x));
                let j = choose|j: int|
                    0 <= j < rows.len() + 1 && in_span(m, #[trigger] child(rows, j), g, x);
                assert(!in_span(m, child(rows, j), g, id));
            }
        }
        lemma_concat_distinct(one, all, n as nat);
        assert forall|x: usize| order(m, id, h).contains(x) <==> in_span(m, id, h, x) by {
            lemma_concat_contains(one, all, x);
            if in_span(m, id, h, x) && x != id {
                let i = choose|i: int|
                    0 <= i <= rows.len() && in_span(m, #[trigger] child(rows, i), g, x);
                assert(0 <= i < rows.len() + 1);
                assert(under(m, rows, rows.len() + 1, g, x));
            }
            if all.contains(x) {
                assert(under(m, rows, rows.len() + 1, g, x));
            }
        }
    }
}

/// The walk visits the pages of the first `k` children, each once.
#[verifier::rlimit(60)]
#[verifier::spinoff_prover]
pub proof fn lemma_kid_orders(
    m: Map<usize, PageView>,
    n: usize,
    id: usize,
    h: nat,
    lo: int,
    hi: int,
    up: Option<usize>,
    k: nat,
)
    requires
        tree(m, n, id, h, lo, hi, up),
        h > 0,
        k <= m[id].rows.len() + 1,
    ensures
        distinct_below(kid_orders(m, m[id].rows, k, (h - 1) as nat), n as nat),
        forall|x: usize|
            #[trigger] kid_orders(m, m[id].rows, k, (h - 1) as nat).contains(x) <==> under(
                m,
                m[id].rows,
                k,
                (h - 1) as nat,
                x,
            ),
    decreases (h - 1) as nat, k + 1,
{
    let rows = m[id].rows;
    let g = (h - 1) as nat;
    if k > 0 {
        let c = child(rows, k - 1);
        let first = kid_orders(m, rows, (k - 1) as nat, g);
        let last = order(m, c, g);
        lemma_kid_orders(m, n, id, h, lo, hi, up, (k - 1) as nat);
        assert(tree(m, n, child(rows, k - 1), g, low(rows, k - 1, lo), high(rows, k - 1, hi), Some(id)));
        lemma_order(m, n, c, g, low(rows, k - 1, lo), high(rows, k - 1, hi), Some(id));
        assert forall|x: usize| first.contains(x) implies !last.contains(x) by {
            assert(under(m, rows, (k - 1) as nat, g, x));
            let j = choose|j: int| 0 <= j < k - 1 && in_span(m, #[trigger] child(rows, j), g, x);
            assert(apart(m, child(rows, j), child(rows, k - 1), g));
        }
        lemma_concat_distinct(first, last, n as nat);
        assert forall|x: usize|
            #[trigger] kid_orders(m, rows, k, g).contains(x) <==> under(m, rows, k, g, x) by {
            lemma_concat_contains(first, last, x);
            if last.contains(x) {
                assert(in_span(m, child(rows, k - 1), g, x));
            }
            if first.contains(x) {
                assert(under(m, rows, (k - 1) as nat, g, x));
                let j = choose|j: int|
                    0 <= j < k - 1 && in_span(m, #[trigger] child(rows, j), g, x);
                assert(0 <= j < k && in_span(m, child(rows, j), g, x));
            }
            if under(m, rows, k, g, x) {
                let j = choose|j: int| 0 <= j < k && in_span(m, #[trigger] child(rows, j), g, x);
                if j < k - 1 {
                    assert(under(m, rows, (k - 1) as nat, g, x));
                }
            }
        }
    }
}

/// The pages that were visited are different pages below the limit, and
/// none of them belongs to the tree under `id`.
pub open spec fn unvisited(
    m: Map<usize, PageView>,
    id: usize,
    h: nat,
    visited: Seq<usize>,
    limit: nat,
) -> bool {
    &&& distinct_below(visited, limit)
    &&& forall|x: usize| in_span(m, id, h, x) ==> !visited.contains(x)
}

/// What was visited when child `c` of a page is next: what was visited
/// before the page, the page, and the children in front of child `c`.
pub open spec fn seen(
    m: Map<usize, PageView>,
    id: usize,
    h: nat,
    visited: Seq<usize>,
    c: nat,
) -> Seq<usize> {
    visited.push(id) + kid_orders(m, m[id].rows, c, (h - 1) as nat)
}

/// When child `c` of a page is next, it has not been visited, and the
/// children in front of it have.
#[verifier::rlimit(60)]
#[verifier::spinoff_prover]
pub proof fn lemma_seen(
    m: Map<usize, PageView>,
    n: usize,
    id: usize,
    h: nat,
    lo: int,
    hi: int,
    up: Option<usize>,
    visited: Seq<usize>,
    c: nat,
)
    requires
        tree(m, n, id, h, lo, hi, up),
        h > 0,
        unvisited(m, id, h, visited, n as nat),
        c <= m[id].rows.len(),
    ensures
        unvisited(m, child(m[id].rows, c as int), (h - 1) as nat, seen(m, id, h, visited, c), n as nat),
        tree(
            m,
            n,
            child(m[id].rows, c as int),
            (h - 1) as nat,
            low(m[id].rows, c as int, lo),
            high(m[id].rows, c as int, hi),
            Some(id),
        ),
        forall|j: int|
            0 <= j < c ==> seen(m, id, h, visited, c).contains(#[trigger] child(m[id].rows, j)),
        seen(m, id, h, visited, c) + order(m, child(m[id].rows, c as int), (h - 1) as nat) == seen(
            m,
            id,
            h,
            visited,
            c + 1,
        ),
{
    let rows = m[id].rows;
    let g = (h - 1) as nat;
    let base = visited.push(id);
    let first = kid_orders(m, rows, c, g);
    let me = child(rows, c as int);
    assert(in_span(m, id, h, id));
    assert(!visited.contains(id));
    assert(distinct_below(base, n as nat)) by {
        assert forall|a: int, b: int| 0 <= a < base.len() && 0 <= b < base.len() && a
            != b implies base[a] != base[b] by {
            if a < visited.len() && b < visited.len() {
                assert(visited[a] != visited[b]);
            } else if a < visited.len() {
                assert(visited.contains(visited[a]));
            } else {
                assert(visited.contains(visited[b]));
            }
        }
        assert forall|a: int| 0 <= a < base.len() implies base[a] < n by {
            if a < visited.len() {
                assert(visited[a] < n);
            }
        }
    }
    assert forall|x: usize| base.contains(x) <==> (visited.contains(x) || x == id) by {
        lemma_concat_contains(visited, seq![id], x);
        assert(base =~= visited + seq![id]);
        if x == id {
            assert(seq![id][0] == x);
        }
    }
    lemma_kid_orders(m, n, id, h, lo, hi, up, c);
    assert forall|x: usize| base.contains(x) implies !first.contains(x) by {
        if first.contains(x) {
            assert(under(m, rows, c, g, x));
            let j = choose|j: int| 0 <= j < c && in_span(m, #[trigger] child(rows, j), g, x);
            lemma_span_child(m, id, h, j, x);
            assert(!in_span(m, child(rows, j), g, id));
        }
    }
    lemma_concat_distinct(base, first, n as nat);
    assert(tree(m, n, child(rows, c as int), g, low(rows, c as int, lo), high(rows, c as int, hi), Some(id)));
    assert forall|x: usize| in_span(m, me, g, x) implies !seen(m, id, h, visited, c).contains(
        x,
    ) by {
        lemma_concat_contains(base, first, x);
        lemma_span_child(m, id, h, c as int, x);
        assert(!in_span(m, child(rows, c as int), g, id));
        if first.contains(x) {
            assert(under(m, rows, c, g, x));
            let j = choose|j: int| 0 <= j < c && in_span(m, #[trigger] child(rows, j), g, x);
            assert(apart(m, child(rows, j), child(rows, c as int), g));
        }
    }
    assert forall|j: int| 0 <= j < c implies seen(m, id, h, visited, c).contains(
        #[trigger] child(rows, j),
    ) by {
        assert(in_span(m, child(rows, j), g, child(rows, j)));
        assert(under(m, rows, c, g, child(rows, j)));
        lemma_concat_contains(base, first, child(rows, j));
    }
    assert(kid_orders(m, rows, c + 1, g) == first + order(m, me, g));
    assert(base + first + order(m, me, g) =~= base + (first + order(m, me, g)));
}

/// The stack entries of pointers are those of the later pointers with the
/// children of the first pointer on top.
pub proof fn lemma_pushes_first(rows: Seq<RowView>)
    requires
        rows.len() > 0,
    ensures
        pushes(rows) == pushes(rows.subrange(1, rows.len() as int)).push(rows[0].right()).push(
            rows[0].left(),
        ),
    decreases rows.len(),
{
    let tail = rows.subrange(1, rows.len() as int);
    if rows.len() == 1 {
        assert(rows.drop_last() =~= Seq::<RowView>::empty());
        assert(tail =~= Seq::<RowView>::empty());
        assert(pushes(rows) =~= pushes(tail).push(rows[0].right()).push(rows[0].left()));
    } else {
        let init = rows.drop_last();
        lemma_pushes_first(init);
        assert(init.subrange(1, init.len() as int) =~= tail.drop_last());
        assert(tail.last() == rows.last());
        assert(pushes(rows) =~= pushes(tail).push(rows[0].right()).push(rows[0].left()));
    }
}

/// A walk passes over a page that was visited.
pub proof fn lemma_walk_skip(
    s: PagerView,
    stack: Seq<usize>,
    id: usize,
    visited: Seq<usize>,
    out: Seq<RowView>,
    limit: nat,
)
    requires
        visited.contains(id),
    ensures
        walk(s, stack.push(id), visited, out, limit) == walk(s, stack, visited, out, limit),
{
    let top = stack.push(id);
    assert(top.last() == id);
    assert(top.drop_last() =~= stack);
}

/// A walk through a well-formed tree visits the pages of the tree in
/// order and gives its rows from left to right: with the root of the tree
/// on top of the stack, the walk goes on as if the tree had been visited
/// and its rows were in hand.
#[verifier::rlimit(60)]
#[verifier::spinoff_prover]
pub proof fn lemma_walk(
    s: PagerView,
    id: usize,
    h: nat,
    lo: int,
    hi: int,
    up: Option<usize>,
    stack: Seq<usize>,
    visited: Seq<usize>,
    out: Seq<RowView>,
)
    requires
        s.well_formed(),
        tree(pages(s), s.meta.pages, id, h, lo, hi, up),
        unvisited(pages(s), id, h, visited, s.meta.pages as nat),
    ensures
        walk(s, stack.push(id), visited, out, s.meta.pages as nat).1 == walk(
            s,
            stack,
            visited + order(pages(s), id, h),
            out + contents(pages(s), id, h),
            s.meta.pages as nat,
        ).1,
    decreases h, 0nat,
{
    let m = pages(s);
    let limit = s.meta.pages as nat;
    let top = stack.push(id);
    assert(top.last() == id);
    assert(top.drop_last() =~= stack);
    assert(in_span(m, id, h, id));
    assert(!visited.contains(id));
    let base = visited.push(id);
    assert(visited.len() < limit) by {
        assert(distinct_below(base, limit)) by {
            assert forall|a: int, b: int| 0 <= a < base.len() && 0 <= b < base.len() && a
                != b implies base[a] != base[b] by {
                if a < visited.len() && b < visited.len() {
                    assert(visited[a] != visited[b]);
                } else if a < visited.len() {
                    assert(visited.contains(visited[a]));
                } else {
                    assert(visited.contains(visited[b]));
                }
            }
            assert forall|a: int| 0 <= a < base.len() implies base[a] < limit by {
                if a < visited.len() {
                    assert(visited[a] < limit);
                }
            }
        }
        lemma_distinct_bound(base, limit);
    }
    lemma_read_tree_page(s, id);
    lemma_alike_read(s, s, id);
    let s1 = s.read(id).0;
    let page = m[id];
    if h == 0 {
        assert(walk(s, top, visited, out, limit) == walk(s1, stack, base, out + page.rows, limit));
        lemma_alike_walk(s1, s, stack, base, out + page.rows, limit);
        assert(visited + order(m, id, h) =~= base);
    } else {
        let rows = page.rows;
        let g = (h - 1) as nat;
        assert(walk(s, top, visited, out, limit) == walk(
            s1,
            stack + pushes(rows),
            base,
            out,
            limit,
        ));
        lemma_alike_walk(s1, s, stack + pushes(rows), base, out, limit);
        assert(rows.subrange(0, rows.len() as int) =~= rows);
        assert(seen(m, id, h, visited, 0) =~= base);
        assert(out + kids(m, rows, 0, g) =~= out);
        lemma_walk_rows(s, id, h, lo, hi, up, stack, visited, out, 0);
        assert(visited + order(m, id, h) =~= seen(m, id, h, visited, rows.len() + 1));
    }
}

/// The children that were visited when pointer `i` is next: none for the
/// first pointer, else all up to the left child of the pointer.
pub open spec fn done(i: int) -> nat {
    if i <= 0 {
        0
    } else {
        (i + 1) as nat
    }
}

/// The walk through the children of an internal page, from pointer `i`
/// on: with the children of the pointers from `i` on on the stack, and the
/// children before them visited, the walk goes on as if all children had
/// been visited and their rows were in hand.
#[verifier::rlimit(60)]
#[verifier::spinoff_prover]
pub proof fn lemma_walk_rows(
    s: PagerView,
    id: usize,
    h: nat,
    lo: int,
    hi: int,
    up: Option<usize>,
    stack: Seq<usize>,
    visited: Seq<usize>,
    out: Seq<RowView>,
    i: int,
)
    requires
        s.well_formed(),
        h > 0,
        tree(pages(s), s.meta.pages, id, h, lo, hi, up),
        unvisited(pages(s), id, h, visited, s.meta.pages as nat),
        0 <= i <= pages(s)[id].rows.len(),
    ensures
        walk(
            s,
            stack + pushes(pages(s)[id].rows.subrange(i, pages(s)[id].rows.len() as int)),
            seen(pages(s), id, h, visited, done(i)),
            out + kids(pages(s), pages(s)[id].rows, done(i), (h - 1) as nat),
            s.meta.pages as nat,
        ).1 == walk(
            s,
            stack,
            seen(pages(s), id, h, visited, pages(s)[id].rows.len() + 1),
            out + kids(pages(s), pages(s)[id].rows, pages(s)[id].rows.len() + 1, (h - 1) as nat),
            s.meta.pages as nat,
        ).1,
    decreases (h - 1) as nat, pages(s)[id].rows.len() + 2 - i,
{
    let m = pages(s);
    let rows = m[id].rows;
    let n = rows.len() as int;
    let g = (h - 1) as nat;
    let limit = s.meta.pages as nat;
    let v0 = seen(m, id, h, visited, done(i));
    let o0 = out + kids(m, rows, done(i), g);
    if i == n {
        assert(rows.subrange(i, n) =~= Seq::<RowView>::empty());
        assert(stack + pushes(rows.subrange(i, n)) =~= stack);
    } else {
        let later = rows.subrange(i + 1, n);
        let here = rows.subrange(i, n);
        lemma_pushes_first(here);
        assert(here.subrange(1, here.len() as int) =~= later);
        let below = stack + pushes(later);
        let left = child(rows, i);
        let right = child(rows, i + 1);
        assert(rows[i].left() == left) by {
            if i > 0 {
                assert(rows[i - 1].right() == rows[i].left());
            }
        }
        assert(stack + pushes(here) =~= below.push(right).push(left));
        let k = (i + 1) as nat;
        let v1 = seen(m, id, h, visited, k);
        let o1 = out + kids(m, rows, k, g);
        if i == 0 {
            lemma_seen(m, s.meta.pages, id, h, lo, hi, up, visited, 0);
            lemma_walk(s, left, g, low(rows, 0, lo), high(rows, 0, hi), Some(id), below.push(right), v0, o0);
            assert(o0 + contents(m, left, g) =~= o1);
        } else {
            lemma_seen(m, s.meta.pages, id, h, lo, hi, up, visited, k);
            assert(v0.contains(child(rows, i)));
            lemma_walk_skip(s, below.push(right), left, v0, o0, limit);
        }
        assert(walk(s, stack + pushes(here), v0, o0, limit).1 == walk(
            s,
            below.push(right),
            v1,
            o1,
            limit,
        ).1);
        lemma_seen(m, s.meta.pages, id, h, lo, hi, up, visited, k);
        lemma_walk(
            s,
            right,
            g,
            low(rows, i + 1, lo),
            high(rows, i + 1, hi),
            Some(id),
            below,
            v1,
            o1,
        );
        assert(o1 + contents(m, right, g) =~= out + kids(m, rows, k + 1, g));
        assert(done(i + 1) == k + 1);
        lemma_walk_rows(s, id, h, lo, hi, up, stack, visited, out, i + 1);
    }
}

/// A select on a well-formed tree gives the rows of the tree from left to
/// right, which are in strictly growing key order.
pub proof fn lemma_select(s: PagerView, h: nat, lo: int, hi: int)
    requires
        s.well_formed(),
        tree(pages(s), s.meta.pages, s.meta.root, h, lo, hi, None),
        lo <= hi,
    ensures
        super::btree::tree_select(s).1 == Ok::<Seq<RowView>, StorageError>(
            contents(pages(s), s.meta.root, h),
        ),
        ids_increasing(contents(pages(s), s.meta.root, h)),
{
    let m = pages(s);
    let root = s.meta.root;
    let none = Seq::<usize>::empty();
    let limit = s.meta.pages as nat;
    lemma_walk(s, root, h, lo, hi, None, Seq::empty(), none, Seq::empty());
    assert(Seq::<usize>::empty().push(root) =~= seq![root]);
    assert(walk(s, Seq::empty(), none + order(m, root, h), Seq::<RowView>::empty() + contents(
        m,
        root,
        h,
    ), limit).1 == Ok::<Seq<RowView>, StorageError>(
        Seq::<RowView>::empty() + contents(m, root, h),
    ));
    assert(Seq::<RowView>::empty() + contents(m, root, h) =~= contents(m, root, h));
    lemma_contents_sorted(m, s.meta.pages, root, h, lo, hi, None);
}

/// A walk through a tree visits more pages than the tree is high.
pub proof fn lemma_order_len(
    m: Map<usize, PageView>,
    n: usize,
    id: usize,
    h: nat,
    lo: int,
    hi: int,
    up: Option<usize>,
)
    requires
        tree(m, n, id, h, lo, hi, up),
    ensures
        order(m, id, h).len() > h,
    decreases h,
{
    if h > 0 {
        let rows = m[id].rows;
        let g = (h - 1) as nat;
        assert(tree(m, n, child(rows, 0), g, low(rows, 0, lo), high(rows, 0, hi), Some(id)));
        lemma_order_len(m, n, child(rows, 0), g, low(rows, 0, lo), high(rows, 0, hi), Some(id));
        lemma_kid_orders_len(m, rows, rows.len() + 1, g);
    }
}

/// The walk through the first children visits at least the pages of the
/// first child.
pub proof fn lemma_kid_orders_len(m: Map<usize, PageView>, rows: Seq<RowView>, k: nat, h: nat)
    requires
        k >= 1,
    ensures
        kid_orders(m, rows, k, h).len() >= order(m, child(rows, 0), h).len(),
    decreases k,
{
    if k > 1 {
        lemma_kid_orders_len(m, rows, (k - 1) as nat, h);
    } else {
        assert(kid_orders(m, rows, 0, h).len() == 0);
    }
}

/// A well-formed tree is lower than there are pages.
pub proof fn lemma_height(
    m: Map<usize, PageView>,
    n: usize,
    id: usize,
    h: nat,
    lo: int,
    hi: int,
    up: Option<usize>,
)
    requires
        tree(m, n, id, h, lo, hi, up),
    ensures
        h < n,
{
    lemma_order_len(m, n, id, h, lo, hi, up);
    lemma_order(m, n, id, h, lo, hi, up);
    lemma_distinct_bound(order(m, id, h), n as nat);
}

/// The pager holds a well-formed tree of height `h` with keys of the whole
/// range.
pub open spec fn is_tree(s: PagerView, h: nat) -> bool {
    &&& s.well_formed()
    &&& tree(pages(s), s.meta.pages, s.meta.root, h, 0, usize::MAX + 1, None)
}

/// The rows of the tree of a pager, from left to right.
pub open spec fn rows_of(s: PagerView, h: nat) -> Seq<RowView> {
    contents(pages(s), s.meta.root, h)
}

/// The rows of a well-formed page can be stored, so the page is read back
/// from its bytes.
pub proof fn lemma_well_formed_round_trip(page: PageView)
    requires
        page.well_formed(),
    ensures
        page.bytes().len() == PAGE_SIZE,
        PageView::parse(page.bytes()) == Some(page),
{
    assert forall|i: int| 0 <= i < page.rows.len() implies (#[trigger] page.rows[i]).storable() by {
        lemma_row_within_total(page.rows, i);
    }
    lemma_page_round_trip(page);
}

/// Writing a well-formed page puts it in place of the page under its id
/// and leaves the other pages as they are.
pub proof fn lemma_pages_after_write(s: PagerView, id: usize, page: PageView)
    requires
        s.well_formed(),
        id < s.meta.pages,
        page.well_formed(),
    ensures
        s.write(id, page).1 is Ok,
        pages(s.write(id, page).0) == pages(s).insert(id, page),
        s.write(id, page).0.meta == s.meta,
        s.write(id, page).0.file == s.file,
        s.write(id, page).0.well_formed(),
{
    lemma_well_formed_round_trip(page);
    let t = s.write(id, page).0;
    assert forall|x: usize| page_of(t, x) == (if x == id {
        Some(page)
    } else {
        page_of(s, x)
    }) by {}
    assert(pages(t) =~= pages(s).insert(id, page));
}

/// Some row of two runs of rows carries a key exactly if some row of one
/// of them does.
pub proof fn lemma_has_id_concat(a: Seq<RowView>, b: Seq<RowView>, id: usize)
    ensures
        has_id(a + b, id) <==> (has_id(a, id) || has_id(b, id)),
{
    let c = a + b;
    if has_id(c, id) {
        let i = choose|i: int| 0 <= i < c.len() && (#[trigger] c[i]).id() == id;
        if i < a.len() {
            assert(a[i].id() == id);
        } else {
            assert(b[i - a.len()].id() == id);
        }
    }
    if has_id(a, id) {
        let i = choose|i: int| 0 <= i < a.len() && (#[trigger] a[i]).id() == id;
        assert(c[i].id() == id);
    }
    if has_id(b, id) {
        let i = choose|i: int| 0 <= i < b.len() && (#[trigger] b[i]).id() == id;
        assert(c[a.len() + i].id() == id);
    }
}

/// Rows within bounds carry no key outside the bounds.
pub proof fn lemma_within_has_id(rows: Seq<RowView>, lo: int, hi: int, id: usize)
    requires
        within(rows, lo, hi),
        has_id(rows, id),
    ensures
        lo <= id < hi,
{
    let i = choose|i: int| 0 <= i < rows.len() && (#[trigger] rows[i]).id() == id;
    assert(lo <= rows[i].id() < hi);
}

/// The rows of the children from the `j`-th on lie from the lower bound of
/// the `j`-th child on.
pub proof fn lemma_rest_bounds(
    m: Map<usize, PageView>,
    n: usize,
    id: usize,
    h: nat,
    lo: int,
    hi: int,
    up: Option<usize>,
    j: int,
)
    requires
        tree(m, n, id, h, lo, hi, up),
        lo <= hi,
        h > 0,
        0 <= j <= m[id].rows.len() + 1,
    ensures
        within(rest(m, m[id].rows, j, (h - 1) as nat), reach(m[id].rows, j, lo, hi), hi),
    decreases m[id].rows.len() + 1 - j,
{
    let rows = m[id].rows;
    let g = (h - 1) as nat;
    if j <= rows.len() {
        lemma_rest_bounds(m, n, id, h, lo, hi, up, j + 1);
        lemma_bounds(rows, j, lo, hi);
        assert(tree(m, n, child(rows, j), g, low(rows, j, lo), high(rows, j, hi), Some(id)));
        lemma_contents_sorted(m, n, child(rows, j), g, low(rows, j, lo), high(rows, j, hi), Some(id));
        let a = contents(m, child(rows, j), g);
        let b = rest(m, rows, j + 1, g);
        assert(reach(rows, j + 1, lo, hi) == high(rows, j, hi));
        assert(reach(rows, j, lo, hi) <= low(rows, j, lo)) by {
            if j > 0 {
                assert(reach(rows, j, lo, hi) == high(rows, j - 1, hi));
            }
        }
        assert forall|i: int| 0 <= i < (a + b).len() implies reach(rows, j, lo, hi) <= (
        #[trigger] (a + b)[i]).id() < hi by {
            if i < a.len() {
                assert(low(rows, j, lo) <= a[i].id() < high(rows, j, hi));
            } else {
                assert(high(rows, j, hi) <= b[i - a.len()].id() < hi);
            }
        }
    }
}

/// The rows in front of the leaf that a key belongs to lie below the
/// bounds of the leaf, and the rows behind it lie above them.
#[verifier::rlimit(60)]
#[verifier::spinoff_prover]
pub proof fn lemma_around_bounds(
    m: Map<usize, PageView>,
    n: usize,
    id: usize,
    h: nat,
    lo: int,
    hi: int,
    up: Option<usize>,
    key: usize,
)
    requires
        tree(m, n, id, h, lo, hi, up),
        lo <= key < hi,
    ensures
        within(before(m, id, h, key), lo, target_lo(m, id, h, lo, key)),
        within(after(m, id, h, key), target_hi(m, id, h, hi, key), hi),
    decreases h,
{
    if h > 0 {
        let rows = m[id].rows;
        let g = (h - 1) as nat;
        let b = branch(rows, key);
        lemma_branch(rows, key, lo, hi);
        lemma_bounds(rows, b, lo, hi);
        let c = child(rows, b);
        assert(tree(m, n, c, g, low(rows, b, lo), high(rows, b, hi), Some(id)));
        lemma_around_bounds(m, n, c, g, low(rows, b, lo), high(rows, b, hi), Some(id), key);
        lemma_target(m, n, c, g, low(rows, b, lo), high(rows, b, hi), Some(id), key);
        lemma_kids_sorted(m, n, id, h, lo, hi, up, b as nat);
        lemma_rest_bounds(m, n, id, h, lo, hi, up, b + 1);
        let tl = target_lo(m, id, h, lo, key);
        let th = target_hi(m, id, h, hi, key);
        let k = kids(m, rows, b as nat, g);
        let inner = before(m, c, g, key);
        assert(reach(rows, b, lo, hi) <= low(rows, b, lo)) by {
            if b > 0 {
                assert(reach(rows, b, lo, hi) == high(rows, b - 1, hi));
            }
        }
        assert forall|i: int| 0 <= i < (k + inner).len() implies lo <= (#[trigger] (k + inner)[i]).id()
            < tl by {
            if i < k.len() {
                assert(lo <= k[i].id() < reach(rows, b, lo, hi));
            } else {
                assert(low(rows, b, lo) <= inner[i - k.len()].id() < tl);
            }
        }
        let back = after(m, c, g, key);
        let r = rest(m, rows, b + 1, g);
        assert(reach(rows, b + 1, lo, hi) == high(rows, b, hi));
        assert forall|i: int| 0 <= i < (back + r).len() implies th <= (#[trigger] (back + r)[i]).id()
            < hi by {
            if i < back.len() {
                assert(th <= back[i].id() < high(rows, b, hi));
            } else {
                assert(high(rows, b, hi) <= r[i - back.len()].id() < hi);
            }
        }
    }
}

/// A key that a well-formed tree holds is held by the leaf that the key
/// belongs to.
pub proof fn lemma_key_in_leaf(s: PagerView, h: nat, key: usize)
    requires
        is_tree(s, h),
    ensures
        has_id(rows_of(s, h), key) <==> has_id(
            pages(s)[target(pages(s), s.meta.root, h, key)].rows,
            key,
        ),
{
    let m = pages(s);
    let root = s.meta.root;
    let n = s.meta.pages;
    let top = usize::MAX + 1;
    lemma_around(m, n, root, h, 0, top, None, key);
    lemma_around_bounds(m, n, root, h, 0, top, None, key);
    lemma_target(m, n, root, h, 0, top, None, key);
    let a = before(m, root, h, key);
    let b = m[target(m, root, h, key)].rows;
    let c = after(m, root, h, key);
    lemma_has_id_concat(a + b, c, key);
    lemma_has_id_concat(a, b, key);
    if has_id(a, key) {
        lemma_within_has_id(a, 0, target_lo(m, root, h, 0, key), key);
    }
    if has_id(c, key) {
        lemma_within_has_id(c, target_hi(m, root, h, top, key), top, key);
    }
}

/// An insert into a well-formed tree whose leaf has room for the row puts
/// the row into the leaf that its key belongs to: the tree stays well
/// formed, its rows are the rows in front of the leaf, the rows of the
/// leaf with the new row at its slot, and the rows behind the leaf; so
/// its keys are the keys that it had and the key of the row.
#[verifier::rlimit(60)]
#[verifier::spinoff_prover]
pub proof fn lemma_insert(s: PagerView, h: nat, row: RowView)
    requires
        is_tree(s, h),
        row.kind() == RowType::Leaf,
        pages(s)[target(pages(s), s.meta.root, h, row.id())].insert(row) is Ok,
    ensures
        tree_insert(s, row).1 is Ok,
        is_tree(tree_insert(s, row).0, h),
        tree_insert(s, row).0.meta == s.meta,
        rows_of(tree_insert(s, row).0, h) == before(pages(s), s.meta.root, h, row.id()) + (
        pages(s)[target(pages(s), s.meta.root, h, row.id())].insert(row)->Ok_0).rows + after(
            pages(s),
            s.meta.root,
            h,
            row.id(),
        ),
        rows_of(s, h) == before(pages(s), s.meta.root, h, row.id()) + pages(s)[target(
            pages(s),
            s.meta.root,
            h,
            row.id(),
        )].rows + after(pages(s), s.meta.root, h, row.id()),
        forall|id: usize|
            has_id(rows_of(tree_insert(s, row).0, h), id) <==> (has_id(rows_of(s, h), id) || id
                == row.id()),
        ids_increasing(rows_of(tree_insert(s, row).0, h)),
{
    let m = pages(s);
    let root = s.meta.root;
    let n = s.meta.pages;
    let top = usize::MAX + 1;
    let key = row.id();
    let leaf = target(m, root, h, key);
    let page = m[leaf];
    let grown = page.insert(row)->Ok_0;
    lemma_height(m, n, root, h, 0, top, None);
    lemma_locate(s, root, h, 0, top, None, key, Seq::empty(), n as nat);
    let s1 = locate(s, root, key, Seq::empty(), n as nat).0;
    lemma_target(m, n, root, h, 0, top, None, key);
    let tl = target_lo(m, root, h, 0, key);
    let th = target_hi(m, root, h, top, key);
    lemma_insert_keys(page, row, key);
    lemma_pages_after_write(s1, leaf, grown);
    let t = tree_insert(s, row).0;
    assert(t == s1.write(leaf, grown).0);
    assert(within(grown.rows, tl, th)) by {
        assert forall|i: int| 0 <= i < grown.rows.len() implies tl <= (
        #[trigger] grown.rows[i]).id() < th by {
            let k = grown.rows[i].id();
            lemma_insert_keys(page, row, k);
            assert(has_id(grown.rows, k));
            if has_id(page.rows, k) {
                lemma_within_has_id(page.rows, tl, th, k);
            }
        }
    }
    lemma_put(m, n, root, h, 0, top, None, key, grown);
    lemma_around(m, n, root, h, 0, top, None, key);
    let a = before(m, root, h, key);
    let c = after(m, root, h, key);
    assert forall|id: usize|
        has_id(rows_of(t, h), id) <==> (has_id(rows_of(s, h), id) || id == key) by {
        lemma_insert_keys(page, row, id);
        lemma_has_id_concat(a + grown.rows, c, id);
        lemma_has_id_concat(a, grown.rows, id);
        lemma_has_id_concat(a + page.rows, c, id);
        lemma_has_id_concat(a, page.rows, id);
    }
    lemma_contents_sorted(pages(t), n, root, h, 0, top, None);
}

/// An insert of a key that a well-formed tree holds is refused as a
/// duplicate, and the pages and the metadata are as before.
pub proof fn lemma_duplicate(s: PagerView, h: nat, row: RowView)
    requires
        is_tree(s, h),
        has_id(rows_of(s, h), row.id()),
    ensures
        tree_insert(s, row).1 == Err::<(), StorageError>(
            StorageError::Engine { action: EngineAction::Insert, cause: PageError::Duplicate },
        ),
        pages(tree_insert(s, row).0) == pages(s),
        tree_insert(s, row).0.meta == s.meta,
        is_tree(tree_insert(s, row).0, h),
{
    let n = s.meta.pages;
    lemma_key_in_leaf(s, h, row.id());
    lemma_height(pages(s), n, s.meta.root, h, 0, usize::MAX + 1, None);
    lemma_locate(s, s.meta.root, h, 0, usize::MAX + 1, None, row.id(), Seq::empty(), n as nat);
}

/// Some pointer of the page points to page `x`.
pub open spec fn points_to(page: PageView, x: usize) -> bool {
    exists|i: int|
        0 <= i < page.rows.len() && ((#[trigger] page.rows[i]).left() == x || page.rows[i].right()
            == x)
}

/// Page `x` is a child of a page of the tree under `id`, which it names as
/// its parent and which points to it.
pub open spec fn has_parent(m: Map<usize, PageView>, id: usize, h: nat, x: usize) -> bool {
    exists|p: usize|
        #[trigger] in_span(m, id, h, p) && m.contains_key(p) && m[x].parent == Some(p) && points_to(
            m[p],
            x,
        )
}

/// Every page of a well-formed tree holds its rows in strictly growing
/// key order; the pointers of every internal page are linked; and every
/// page but the root names as its parent a page of the tree that points
/// to it.
#[verifier::rlimit(60)]
#[verifier::spinoff_prover]
pub proof fn lemma_tree_pages(
    m: Map<usize, PageView>,
    n: usize,
    id: usize,
    h: nat,
    lo: int,
    hi: int,
    up: Option<usize>,
    x: usize,
)
    requires
        tree(m, n, id, h, lo, hi, up),
        in_span(m, id, h, x),
    ensures
        m.contains_key(x),
        m[x].well_formed(),
        ids_increasing(m[x].rows),
        m[x].kind == PageType::Internal ==> linked(m[x].rows),
        x != id ==> has_parent(m, id, h, x),
    decreases h,
{
    if x != id {
        let rows = m[id].rows;
        let g = (h - 1) as nat;
        let i = choose|i: int| 0 <= i <= rows.len() && in_span(m, #[trigger] child(rows, i), g, x);
        let c = child(rows, i);
        assert(tree(m, n, child(rows, i), g, low(rows, i, lo), high(rows, i, hi), Some(id)));
        lemma_tree_pages(m, n, c, g, low(rows, i, lo), high(rows, i, hi), Some(id), x);
        if x == c {
            assert(in_span(m, id, h, id));
            assert(points_to(m[id], x)) by {
                if i == 0 {
                    assert(rows[0].left() == x);
                } else {
                    assert(rows[i - 1].right() == x);
                }
            }
            assert(in_span(m, id, h, id) && m.contains_key(id) && m[x].parent == Some(id)
                && points_to(m[id], x));
        } else {
            let p = choose|p: usize|
                #[trigger] in_span(m, c, g, p) && m.contains_key(p) && m[x].parent == Some(p)
                    && points_to(m[p], x);
            lemma_span_child(m, id, h, i, p);
            assert(in_span(m, id, h, p) && m.contains_key(p) && m[x].parent == Some(p)
                && points_to(m[p], x));
        }
    }
}

/// Pagers that are alike hold the same pages.
pub proof fn lemma_alike_pages(s: PagerView, t: PagerView)
    requires
        alike(s, t),
    ensures
        pages(t) == pages(s),
        t.meta == s.meta,
{
    assert forall|x: usize| page_of(t, x) == page_of(s, x) by {
        assert(s.stored(x) == t.stored(x));
    }
    assert(pages(t) =~= pages(s));
}

/// A walk only reads: the pager after it holds the bytes and the metadata
/// that it held, and is well formed if it was.
pub proof fn lemma_walk_keeps(
    s: PagerView,
    stack: Seq<usize>,
    visited: Seq<usize>,
    out: Seq<RowView>,
    limit: nat,
)
    ensures
        alike(s, walk(s, stack, visited, out, limit).0),
        s.well_formed() ==> walk(s, stack, visited, out, limit).0.well_formed(),
    decreases limit - visited.len(), stack.len(),
{
    if stack.len() == 0 {
    } else if visited.contains(stack.last()) {
        lemma_walk_keeps(s, stack.drop_last(), visited, out, limit);
    } else if visited.len() >= limit {
    } else {
        lemma_alike_read(s, s, stack.last());
        lemma_read_keeps(s, stack.last(), stack.last());
        let (s1, r) = s.read(stack.last());
        match r {
            Err(e) => {},
            Ok(page) => {
                let next = if page.kind == PageType::Leaf {
                    walk(s1, stack.drop_last(), visited.push(stack.last()), out + page.rows, limit).0
                } else {
                    walk(
                        s1,
                        stack.drop_last() + pushes(page.rows),
                        visited.push(stack.last()),
                        out,
                        limit,
                    ).0
                };
                if page.kind == PageType::Leaf {
                    lemma_walk_keeps(
                        s1,
                        stack.drop_last(),
                        visited.push(stack.last()),
                        out + page.rows,
                        limit,
                    );
                } else {
                    lemma_walk_keeps(
                        s1,
                        stack.drop_last() + pushes(page.rows),
                        visited.push(stack.last()),
                        out,
                        limit,
                    );
                }
                assert forall|x: usize| #[trigger] s.stored(x) == next.stored(x) by {
                    assert(s.stored(x) == s1.stored(x));
                    assert(s1.stored(x) == next.stored(x));
                }
            },
        }
    }
}

/// The walk that draws the structure only reads, too.
pub proof fn lemma_walk_text_keeps(
    s: PagerView,
    queue: Seq<usize>,
    visited: Seq<usize>,
    out: Seq<char>,
    limit: nat,
)
    ensures
        alike(s, walk_text(s, queue, visited, out, limit).0),
        s.well_formed() ==> walk_text(s, queue, visited, out, limit).0.well_formed(),
    decreases limit - visited.len(), queue.len(),
{
    if queue.len() == 0 {
    } else if visited.contains(queue.last()) {
        lemma_walk_text_keeps(s, queue.drop_last(), visited, out, limit);
    } else if visited.len() >= limit {
    } else {
        lemma_alike_read(s, s, queue.last());
        lemma_read_keeps(s, queue.last(), queue.last());
        let (s1, r) = s.read(queue.last());
        match r {
            Err(e) => {},
            Ok(page) => {
                let next = if page.kind == PageType::Leaf {
                    walk_text(
                        s1,
                        queue.drop_last(),
                        visited.push(queue.last()),
                        out + super::btree::leaf_text(queue.last(), page.parent),
                        limit,
                    ).0
                } else {
                    walk_text(
                        s1,
                        pushes(page.rows) + queue.drop_last(),
                        visited.push(queue.last()),
                        out + super::btree::pointers_text(queue.last(), page.rows),
                        limit,
                    ).0
                };
                if page.kind == PageType::Leaf {
                    lemma_walk_text_keeps(
                        s1,
                        queue.drop_last(),
                        visited.push(queue.last()),
                        out + super::btree::leaf_text(queue.last(), page.parent),
                        limit,
                    );
                } else {
                    lemma_walk_text_keeps(
                        s1,
                        pushes(page.rows) + queue.drop_last(),
                        visited.push(queue.last()),
                        out + super::btree::pointers_text(queue.last(), page.rows),
                        limit,
                    );
                }
                assert forall|x: usize| #[trigger] s.stored(x) == next.stored(x) by {
                    assert(s.stored(x) == s1.stored(x));
                    assert(s1.stored(x) == next.stored(x));
                }
            },
        }
    }
}

/// A select leaves the pager with the pages and the metadata that it
/// had, whatever they are; a tree that was well formed stays so, with the
/// same rows.
pub proof fn lemma_select_keeps(s: PagerView, h: nat)
    ensures
        pages(tree_select(s).0) == pages(s),
        tree_select(s).0.meta == s.meta,
        s.well_formed() ==> tree_select(s).0.well_formed(),
        is_tree(s, h) ==> is_tree(tree_select(s).0, h) && rows_of(tree_select(s).0, h) == rows_of(
            s,
            h,
        ),
{
    lemma_walk_keeps(s, seq![s.meta.root], Seq::empty(), Seq::empty(), s.meta.pages as nat);
    lemma_alike_pages(s, tree_select(s).0);
}

/// Drawing the structure leaves the pager with the pages and the metadata
/// that it had, whatever they are; a tree that was well formed stays so,
/// with the same rows.
pub proof fn lemma_structure_keeps(s: PagerView, h: nat)
    ensures
        pages(tree_structure(s).0) == pages(s),
        tree_structure(s).0.meta == s.meta,
        s.well_formed() ==> tree_structure(s).0.well_formed(),
        is_tree(s, h) ==> is_tree(tree_structure(s).0, h) && rows_of(tree_structure(s).0, h)
            == rows_of(s, h),
{
    lemma_walk_text_keeps(
        s,
        seq![s.meta.root],
        Seq::empty(),
        "digraph {\n"@,
        s.meta.pages as nat,
    );
    lemma_alike_pages(s, tree_structure(s).0);
}

} // verus!
