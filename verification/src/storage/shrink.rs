//! How a tree shrinks: the merge of two leaves.
//!
//! When a row was deleted from a leaf under the root and the rows of the
//! leaf and of its sibling under the same pointer fit into one page, the
//! right one of the two is merged into the left one and freed, and the
//! root loses the pointer; a root that is left without a pointer gives
//! way to the leaf that stays. The tree stays well formed and holds the
//! rows that it held, without the row that was deleted.
use vstd::prelude::*;
use super::btree::{
    absorb, attempt_merge, close_gap, fold_in, gather, lemma_close_gap_links, merge, settle_root,
};
use super::growth::lemma_set_root;
use super::page::{
    all_of_kind, has_id, ids_increasing, is_slot, lemma_contains_has_id, lemma_delete_keys,
    lemma_delete_rows, lemma_rows_concat, lemma_slot, lemma_total_size_concat,
    lemma_total_size_one, lemma_total_size_remove, lemma_total_size_update, linked, total_size,
    with_left, with_right, PageType, PageView, ROW_SPACE,
};
use super::pager::{lemma_meta_round_trip, MetaView, PagerView, MAX_FREE_PAGES};
use super::row::{RowType, RowView};
use super::btree::{choice, locate, tree_delete};
use super::growth::{lemma_kids_contains, lemma_kids_has_id, sound};
use super::shape::{
    apart, branch, child, contents, high, in_span, lemma_branch, lemma_contents_sorted,
    lemma_has_id_concat, lemma_height, lemma_join_sorted, lemma_pages_after_write,
    lemma_span_child, lemma_span_pages, lemma_within_has_id, low, page_of, pages, rows_of, target,
    tree, within,
};
use super::{PageError, StorageError};

verus! {

/// Inserting rows whose keys lie between the keys of the front rows and
/// the keys of the back rows of a leaf page, the last one first, puts
/// them between the two, if all the rows fit into the page.
#[verifier::rlimit(100)]
#[verifier::spinoff_prover]
pub proof fn lemma_absorb_between(
    page: PageView,
    front: Seq<RowView>,
    back: Seq<RowView>,
    rows: Seq<RowView>,
    lo: int,
    mid: int,
    hi: int,
    top: int,
)
    requires
        page.kind == PageType::Leaf,
        page.rows == front + back,
        page.well_formed(),
        ids_increasing(rows),
        all_of_kind(rows, RowType::Leaf),
        within(front, lo, mid),
        within(rows, mid, hi),
        within(back, hi, top),
        hi <= top,
        total_size(front) + total_size(rows) + total_size(back) <= ROW_SPACE,
    ensures
        absorb(page, rows) == Ok::<PageView, PageError>(page.with_rows(front + rows + back)),
    decreases rows.len(),
{
    if rows.len() == 0 {
        assert(front + rows + back =~= front + back);
    } else {
        let last = rows.last();
        let init = rows.drop_last();
        let p = front.len() as int;
        assert(is_slot(page.rows, last.id(), p)) by {
            assert forall|i: int| 0 <= i < p implies (#[trigger] page.rows[i]).id() < last.id() by {
                assert(page.rows[i] == front[i]);
                assert(front[i].id() < mid);
                assert(mid <= rows[rows.len() - 1].id());
            }
            assert forall|i: int| p <= i < page.rows.len() implies (#[trigger] page.rows[i]).id()
                >= last.id() by {
                assert(page.rows[i] == back[i - p]);
                assert(back[i - p].id() >= hi);
                assert(rows[rows.len() - 1].id() < hi);
            }
        }
        lemma_slot(page.rows, last.id(), p);
        assert(!has_id(page.rows, last.id())) by {
            if p < page.rows.len() {
                assert(page.rows[p] == back[0]);
                assert(back[0].id() >= hi);
                assert(rows[rows.len() - 1].id() < hi);
            }
        }
        lemma_total_size_concat(front, back);
        lemma_total_size_concat(init, seq![last]);
        lemma_total_size_one(last);
        assert(rows =~= init + seq![last]);
        let ins = page.rows.insert(p, last);
        super::page::lemma_leaf_rows_stay(page, last);
        let grown = page.insert(last)->Ok_0;
        assert(grown.rows == ins);
        let new_back = seq![last] + back;
        assert(ins =~= front + new_back);
        super::page::lemma_insert_keys(page, last, last.id());
        assert(ids_increasing(init)) by {
            assert forall|i: int, j: int| 0 <= i < j < init.len() implies init[i].id()
                < init[j].id() by {
                assert(rows[i].id() < rows[j].id());
            }
        }
        assert(all_of_kind(init, RowType::Leaf)) by {
            assert forall|i: int| 0 <= i < init.len() implies (#[trigger] init[i]).kind()
                == RowType::Leaf by {
                assert(rows[i].kind() == RowType::Leaf);
            }
        }
        assert(within(init, mid, last.id() as int)) by {
            assert forall|i: int| 0 <= i < init.len() implies mid <= (#[trigger] init[i]).id()
                < last.id() by {
                assert(rows[i].id() < rows[rows.len() - 1].id());
                assert(mid <= rows[i].id());
            }
        }
        assert(rows[rows.len() - 1].id() < hi);
        assert(within(new_back, last.id() as int, top)) by {
            assert forall|i: int| 0 <= i < new_back.len() implies last.id() <= (
            #[trigger] new_back[i]).id() < top by {
                if i > 0 {
                    assert(new_back[i] == back[i - 1]);
                    assert(hi <= back[i - 1].id() < top);
                }
            }
        }
        lemma_total_size_concat(seq![last], back);
        lemma_absorb_between(grown, front, new_back, init, lo, mid, last.id() as int, top);
        assert(front + init + new_back =~= front + rows + back);
    }
}

/// Freeing a page of the pager that is not free puts it on the free list
/// and changes no page but this one and the metadata page.
#[verifier::rlimit(60)]
#[verifier::spinoff_prover]
pub proof fn lemma_free(s: PagerView, id: usize)
    requires
        s.well_formed(),
        id < s.meta.pages,
        !s.meta.free.contains(id),
        s.meta.free.len() < MAX_FREE_PAGES,
    ensures
        s.free(id).1 is Ok,
        s.free(id).0.well_formed(),
        s.free(id).0.meta == (MetaView { free: s.meta.free.push(id), ..s.meta }),
        forall|x: usize| x != 0 && x != id ==> #[trigger] page_of(s.free(id).0, x) == page_of(s, x),
{
    let m = MetaView { free: s.meta.free.push(id), ..s.meta };
    let n = s.meta.free.len() as int;
    assert forall|i: int, j: int| 0 <= i < m.free.len() && 0 <= j < m.free.len() && i
        != j implies m.free[i] != m.free[j] by {
        if i < n && j < n {
            assert(s.meta.free[i] != s.meta.free[j]);
        } else if i < n {
            assert(s.meta.free.contains(s.meta.free[i]));
        } else {
            assert(s.meta.free.contains(s.meta.free[j]));
        }
    }
    assert forall|i: int| 0 <= i < m.free.len() implies (#[trigger] m.free[i]) < m.pages by {
        if i < n {
            assert(s.meta.free[i] < s.meta.pages);
        }
    }
    lemma_meta_round_trip(m);
    let t = s.free(id).0;
    assert forall|k: usize| #[trigger] t.cache.contains_key(k) implies k < t.meta.pages
        && t.cache[k].len() == super::page::PAGE_SIZE by {
        if k != 0 {
            assert(s.cache.contains_key(k));
        }
    }
}

/// The child that child `i` of the pointers was before pointer `q` was
/// taken out: the same up to child `q`, the next one behind it.
pub open spec fn old_child(q: int, i: int) -> int {
    if i <= q {
        i
    } else {
        i + 1
    }
}

/// The pointers of a parent after pointer `q` was taken out and the
/// pointers beside it were made to point to its left child: the children
/// up to child `q` are as before, child `q + 1` is gone, and the children
/// behind it follow one place earlier; the bounds of the children are as
/// before, but that child `q` reaches up to the bound of the child that is
/// gone.
#[verifier::rlimit(100)]
#[verifier::spinoff_prover]
pub proof fn lemma_pointer_removed(rows: Seq<RowView>, q: int, lo: int, hi: int)
    requires
        ids_increasing(rows),
        linked(rows),
        all_of_kind(rows, RowType::Internal),
        within(rows, lo, hi),
        0 <= q < rows.len(),
    ensures
        close_gap(rows, q, child(rows, q)).len() == rows.len() - 1,
        linked(close_gap(rows, q, child(rows, q))),
        ids_increasing(close_gap(rows, q, child(rows, q))),
        all_of_kind(close_gap(rows, q, child(rows, q)), RowType::Internal),
        within(close_gap(rows, q, child(rows, q)), lo, hi),
        total_size(close_gap(rows, q, child(rows, q))) <= total_size(rows),
        rows.len() > 1 ==> forall|i: int|
            0 <= i <= rows.len() - 1 ==> #[trigger] child(close_gap(rows, q, child(rows, q)), i)
                == child(rows, old_child(q, i)) && low(
                close_gap(rows, q, child(rows, q)),
                i,
                lo,
            ) == (if i <= q {
                low(rows, i, lo)
            } else {
                low(rows, i + 1, lo)
            }) && high(close_gap(rows, q, child(rows, q)), i, hi) == (if i < q {
                high(rows, i, hi)
            } else {
                high(rows, i + 1, hi)
            }),
{
    let n = rows.len() as int;
    let successor = child(rows, q);
    let cut = rows.remove(q);
    let out = close_gap(rows, q, successor);
    lemma_close_gap_links(rows, q, successor);
    lemma_total_size_remove(rows, q);
    assert forall|i: int| 0 <= i < cut.len() implies (#[trigger] cut[i]).kind()
        == RowType::Internal && cut[i] == rows[old_child(q - 1, i)] by {
        let a = if i < q { i } else { i + 1 };
        assert(cut[i] == rows[a]);
        assert(rows[a].kind() == RowType::Internal);
    }
    let mid = if q > 0 {
        cut.update(q - 1, with_right(cut[q - 1], successor))
    } else {
        cut
    };
    if q > 0 {
        assert(cut[q - 1].kind() == RowType::Internal);
        lemma_total_size_update(cut, q - 1, with_right(cut[q - 1], successor));
    }
    if q < cut.len() {
        assert(cut[q].kind() == RowType::Internal);
        lemma_total_size_update(mid, q, with_left(cut[q], successor));
    }
    assert forall|i: int| 0 <= i < out.len() implies (#[trigger] out[i]).kind()
        == RowType::Internal && out[i].id() == cut[i].id() && (i != q - 1 ==> out[i].right()
        == cut[i].right()) && (i != q ==> out[i].left() == cut[i].left()) by {
        assert(cut[i].kind() == RowType::Internal);
    }
    assert forall|i: int, j: int| 0 <= i < j < out.len() implies out[i].id() < out[j].id() by {
        let x = if i < q { i } else { i + 1 };
        let y = if j < q { j } else { j + 1 };
        assert(out[i].id() == cut[i].id());
        assert(out[j].id() == cut[j].id());
        assert(rows[x].id() < rows[y].id());
    }
    assert forall|i: int| 0 <= i < out.len() implies lo <= (#[trigger] out[i]).id() < hi by {
        let x = if i < q { i } else { i + 1 };
        assert(out[i].id() == cut[i].id());
        assert(lo <= rows[x].id() < hi);
    }
    if n > 1 {
        assert forall|i: int| 0 <= i <= n - 1 implies #[trigger] child(out, i) == child(
            rows,
            old_child(q, i),
        ) && low(out, i, lo) == (if i <= q {
            low(rows, i, lo)
        } else {
            low(rows, i + 1, lo)
        }) && high(out, i, hi) == (if i < q {
            high(rows, i, hi)
        } else {
            high(rows, i + 1, hi)
        }) by {
            if i == 0 {
                if q == 0 {
                    assert(out[0].left() == successor);
                } else {
                    assert(out[0].left() == cut[0].left());
                }
            } else if i - 1 == q - 1 {
                assert(out[i - 1].right() == successor);
                assert(rows[q - 1].right() == rows[q].left());
            } else {
                assert(out[i - 1].right() == cut[i - 1].right());
            }
            if i > 0 {
                assert(out[i - 1].id() == cut[i - 1].id());
            }
            if i < n - 1 {
                assert(out[i].id() == cut[i].id());
            }
        }
    }
}

/// Reading a page that stands under an id gives the page and changes no
/// page.
pub proof fn lemma_read_page(s: PagerView, id: usize, page: PageView)
    requires
        s.well_formed(),
        id < s.meta.pages,
        page_of(s, id) == Some(page),
    ensures
        s.read(id).1 == Ok::<PageView, StorageError>(page),
        s.read(id).0.well_formed(),
        s.read(id).0.meta == s.meta,
        forall|x: usize| #[trigger] page_of(s.read(id).0, x) == page_of(s, x),
{
    assert forall|x: usize| #[trigger] page_of(s.read(id).0, x) == page_of(s, x) by {
        super::pager::lemma_read_keeps(s, id, x);
    }
    super::pager::lemma_read_keeps(s, id, id);
}

/// Writing a well-formed page puts it under its id and changes no other
/// page.
pub proof fn lemma_write_page(s: PagerView, id: usize, page: PageView)
    requires
        s.well_formed(),
        id < s.meta.pages,
        page.well_formed(),
    ensures
        s.write(id, page).1 is Ok,
        s.write(id, page).0.well_formed(),
        s.write(id, page).0.meta == s.meta,
        page_of(s.write(id, page).0, id) == Some(page),
        forall|x: usize| x != id ==> #[trigger] page_of(s.write(id, page).0, x) == page_of(s, x),
{
    lemma_pages_after_write(s, id, page);
    let t = s.write(id, page).0;
    assert(pages(t).contains_key(id) && pages(t)[id] == page);
    assert forall|x: usize| x != id implies #[trigger] page_of(t, x) == page_of(s, x) by {
        assert(pages(t).contains_key(x) == pages(s).contains_key(x));
        if pages(s).contains_key(x) {
            assert(pages(t)[x] == pages(s)[x]);
        }
    }
}

/// What the merge of two leaves under the root does to the pages: the
/// left leaf takes the rows of both, the right leaf is freed, the root
/// loses the pointer between them, and a root without a pointer gives way
/// to the left leaf; all other pages but the metadata page are as they
/// were.
#[verifier::rlimit(100)]
#[verifier::spinoff_prover]
pub proof fn lemma_merge_pages(
    s: PagerView,
    left: usize,
    right: usize,
    q: usize,
    stays: PageView,
    goes: PageView,
    above: PageView,
)
    requires
        s.well_formed(),
        0 < s.meta.root < s.meta.pages,
        0 < left < s.meta.pages,
        0 < right < s.meta.pages,
        left != right && left != s.meta.root && right != s.meta.root,
        page_of(s, left) == Some(stays),
        page_of(s, right) == Some(goes),
        page_of(s, s.meta.root) == Some(above),
        stays.kind == PageType::Leaf,
        goes.kind == PageType::Leaf,
        stays.parent == Some(s.meta.root),
        above.kind == PageType::Internal,
        q < above.rows.len(),
        absorb(stays, goes.rows) == Ok::<PageView, PageError>(
            stays.with_rows(stays.rows + goes.rows),
        ),
        stays.with_rows(stays.rows + goes.rows).well_formed(),
        above.with_rows(close_gap(above.rows, q as int, left)).well_formed(),
        !s.meta.free.contains(right),
        s.meta.free.len() < MAX_FREE_PAGES,
    ensures
        merge(s, left, right, q, Seq::empty()).1 is Ok,
        merge(s, left, right, q, Seq::empty()).0.well_formed(),
        merge(s, left, right, q, Seq::empty()).0.meta == (MetaView {
            free: s.meta.free.push(right),
            root: if above.rows.len() == 1 {
                left
            } else {
                s.meta.root
            },
            ..s.meta
        }),
        page_of(merge(s, left, right, q, Seq::empty()).0, left) == Some(
            stays.with_rows(stays.rows + goes.rows),
        ),
        page_of(merge(s, left, right, q, Seq::empty()).0, s.meta.root) == Some(
            above.with_rows(close_gap(above.rows, q as int, left)),
        ),
        forall|x: usize|
            x != 0 && x != left && x != right && x != s.meta.root ==> #[trigger] page_of(
                merge(s, left, right, q, Seq::empty()).0,
                x,
            ) == page_of(s, x),
{
    let root = s.meta.root;
    let merged = stays.with_rows(stays.rows + goes.rows);
    let shrunk = above.with_rows(close_gap(above.rows, q as int, left));
    lemma_read_page(s, left, stays);
    let s1 = s.read(left).0;
    lemma_read_page(s1, right, goes);
    let s2 = s1.read(right).0;
    lemma_read_page(s2, root, above);
    let s3 = s2.read(root).0;
    assert(gather(s, left, right) == (
        s3,
        Ok::<(PageView, PageView, usize, PageView), StorageError>((stays, goes, root, above)),
    ));
    lemma_write_page(s3, left, merged);
    let s4 = s3.write(left, merged).0;
    lemma_free(s4, right);
    let s5 = s4.free(right).0;
    assert(fold_in(s3, left, stays, right, goes) == (s5, Ok::<(), StorageError>(())));
    lemma_write_page(s5, root, shrunk);
    let s6 = s5.write(root, shrunk).0;
    lemma_set_root(s6, left);
    let s7 = settle_root(s6, shrunk.rows.len(), left);
    assert(shrunk.rows.len() == above.rows.len() - 1) by {
        let cut = above.rows.remove(q as int);
        assert(close_gap(above.rows, q as int, left).len() == cut.len());
    }
    assert(merge(s, left, right, q, Seq::empty()) == (s7, Ok::<(), StorageError>(())));
    assert forall|x: usize|
        x != 0 && x != left && x != right && x != root implies #[trigger] page_of(s7, x)
        == page_of(s, x) by {
        assert(page_of(s6, x) == page_of(s5, x));
        assert(page_of(s5, x) == page_of(s4, x));
        assert(page_of(s4, x) == page_of(s3, x));
        assert(page_of(s3, x) == page_of(s2, x));
        assert(page_of(s2, x) == page_of(s1, x));
        assert(page_of(s1, x) == page_of(s, x));
    }
    assert(page_of(s7, left) == Some(merged)) by {
        assert(page_of(s6, left) == page_of(s5, left));
        assert(page_of(s5, left) == page_of(s4, left));
    }
    assert(page_of(s7, root) == Some(shrunk));
}

/// The pages `u` come from the tree of height 1 in the pages `m` by the
/// merge of its leaves `q` and `q + 1`: the root has lost the pointer
/// between them, the left leaf holds rows within the bounds of both, and
/// the other pages of the tree but the right leaf are as they were.
pub open spec fn merged_from(
    m: Map<usize, PageView>,
    u: Map<usize, PageView>,
    n: usize,
    root: usize,
    q: int,
) -> bool {
    let rows = m[root].rows;
    let left = child(rows, q);
    let right = child(rows, q + 1);
    &&& tree(m, n, root, 1, 0, usize::MAX + 1, None)
    &&& 0 <= q < rows.len()
    &&& u.contains_key(root) && u[root] == m[root].with_rows(close_gap(rows, q, left))
    &&& u.contains_key(left)
    &&& u[left].well_formed()
    &&& u[left].kind == PageType::Leaf
    &&& u[left].parent == Some(root)
    &&& within(u[left].rows, low(rows, q, 0), high(rows, q + 1, usize::MAX + 1))
    &&& forall|x: usize|
        x != left && x != right && x != root
            && #[trigger] in_span(m, root, 1, x) ==> u.contains_key(
            x,
        ) && u[x] == m[x]
}

/// The children of a root of leaves are pages of the tree, each different
/// from the others and from the root.
#[verifier::rlimit(60)]
#[verifier::spinoff_prover]
pub proof fn lemma_leaves(m: Map<usize, PageView>, n: usize, root: usize, i: int, j: int)
    requires
        tree(m, n, root, 1, 0, usize::MAX + 1, None),
        0 <= i <= m[root].rows.len(),
        0 <= j <= m[root].rows.len(),
    ensures
        m.contains_key(child(m[root].rows, i)),
        0 < child(m[root].rows, i) < n,
        child(m[root].rows, i) != root,
        in_span(m, root, 1, child(m[root].rows, i)),
        i != j ==> child(m[root].rows, i) != child(m[root].rows, j),
        tree(
            m,
            n,
            child(m[root].rows, i),
            0,
            low(m[root].rows, i, 0),
            high(m[root].rows, i, usize::MAX + 1),
            Some(root),
        ),
{
    let rows = m[root].rows;
    let d = child(rows, i);
    let e = child(rows, j);
    assert(tree(m, n, child(rows, i), 0, low(rows, i, 0), high(rows, i, usize::MAX + 1), Some(root)));
    assert(in_span(m, d, 0, d));
    assert(in_span(m, e, 0, e));
    assert(!in_span(m, child(rows, i), 0, root));
    lemma_span_child(m, root, 1, i, d);
    if i < j {
        assert(apart(m, child(rows, i), child(rows, j), 0));
    } else if j < i {
        assert(apart(m, child(rows, j), child(rows, i), 0));
    }
}

/// After the merge of two leaves under a root with more than one pointer,
/// the pages hold a well-formed tree of height 1 under the same root,
/// whose leaves are the leaves of before without the right one of the
/// two.
#[verifier::rlimit(100)]
#[verifier::spinoff_prover]
pub proof fn lemma_merged_tree(
    m: Map<usize, PageView>,
    u: Map<usize, PageView>,
    n: usize,
    root: usize,
    q: int,
)
    requires
        merged_from(m, u, n, root, q),
        m[root].rows.len() > 1,
    ensures
        tree(u, n, root, 1, 0, usize::MAX + 1, None),
        u[root].rows.len() == m[root].rows.len() - 1,
        forall|i: int|
            0 <= i <= u[root].rows.len() ==> #[trigger] child(u[root].rows, i) == child(
                m[root].rows,
                old_child(q, i),
            ),
{
    let full = usize::MAX + 1;
    let rows = m[root].rows;
    let left = child(rows, q);
    let right = child(rows, q + 1);
    let new = u[root].rows;
    lemma_pointer_removed(rows, q, 0, full);
    assert(new == close_gap(rows, q, left));
    assert forall|i: int| 0 <= i <= new.len() implies tree(
        u,
        n,
        #[trigger] child(new, i),
        0,
        low(new, i, 0),
        high(new, i, full),
        Some(root),
    ) by {
        let x = old_child(q, i);
        assert(child(new, i) == child(rows, x));
        lemma_leaves(m, n, root, x, q);
        lemma_leaves(m, n, root, x, q + 1);
        if i != q {
            assert(u[child(rows, x)] == m[child(rows, x)]);
        }
    }
    assert forall|i: int, j: int| 0 <= i < j <= new.len() implies apart(
        u,
        #[trigger] child(new, i),
        #[trigger] child(new, j),
        0,
    ) by {
        assert(child(new, i) == child(rows, old_child(q, i)));
        assert(child(new, j) == child(rows, old_child(q, j)));
        lemma_leaves(m, n, root, old_child(q, i), old_child(q, j));
    }
    assert forall|i: int| 0 <= i <= new.len() implies !in_span(
        u,
        #[trigger] child(new, i),
        0,
        root,
    ) by {
        assert(child(new, i) == child(rows, old_child(q, i)));
        lemma_leaves(m, n, root, old_child(q, i), 0);
    }
    assert(u[root].well_formed());
    assert(u[root].kind == PageType::Internal && new.len() > 0);
}

/// After the merge of two leaves, the tree holds the keys of the leaf
/// that stays and of the other leaves but the two that were merged.
#[verifier::rlimit(100)]
#[verifier::spinoff_prover]
pub proof fn lemma_merged_keys(
    m: Map<usize, PageView>,
    u: Map<usize, PageView>,
    n: usize,
    root: usize,
    q: int,
    id: usize,
)
    requires
        merged_from(m, u, n, root, q),
        m[root].rows.len() > 1,
    ensures
        has_id(contents(u, root, 1), id) <==> (has_id(u[child(m[root].rows, q)].rows, id)
            || exists|j: int|
            0 <= j <= m[root].rows.len() && j != q && j != q + 1 && has_id(
                m[#[trigger] child(m[root].rows, j)].rows,
                id,
            )),
{
    let rows = m[root].rows;
    let new = u[root].rows;
    let left = child(rows, q);
    lemma_merged_tree(m, u, n, root, q);
    assert forall|i: int| 0 <= i < new.len() + 1 implies u.contains_key(
        #[trigger] child(new, i),
    ) by {
        assert(tree(
            u,
            n,
            child(new, i),
            0,
            low(new, i, 0),
            high(new, i, usize::MAX + 1),
            Some(root),
        ));
    }
    lemma_kids_has_id(u, new, new.len() + 1, id);
    if has_id(contents(u, root, 1), id) {
        let j = choose|j: int|
            0 <= j < new.len() + 1 && has_id(u[#[trigger] child(new, j)].rows, id);
        let x = old_child(q, j);
        assert(child(new, j) == child(rows, x));
        if j != q {
            lemma_leaves(m, n, root, x, q);
            lemma_leaves(m, n, root, x, q + 1);
            assert(u[child(rows, x)] == m[child(rows, x)]);
            assert(0 <= x <= rows.len() && x != q && x != q + 1 && has_id(
                m[child(rows, x)].rows,
                id,
            ));
        }
    }
    if has_id(u[left].rows, id) {
        assert(child(new, q) == child(rows, old_child(q, q)));
        assert(0 <= q < new.len() + 1 && has_id(u[child(new, q)].rows, id));
    }
    if exists|j: int|
        0 <= j <= rows.len() && j != q && j != q + 1 && has_id(
            m[#[trigger] child(rows, j)].rows,
            id,
        ) {
        let j = choose|j: int|
            0 <= j <= rows.len() && j != q && j != q + 1 && has_id(
                m[#[trigger] child(rows, j)].rows,
                id,
            );
        let y = if j < q { j } else { j - 1 };
        assert(old_child(q, y) == j);
        assert(child(new, y) == child(rows, old_child(q, y)));
        lemma_leaves(m, n, root, j, q);
        lemma_leaves(m, n, root, j, q + 1);
        assert(u[child(rows, j)] == m[child(rows, j)]);
        assert(0 <= y < new.len() + 1 && has_id(u[child(new, y)].rows, id));
    }
}

/// The keys of a tree of height 1 are the keys of its leaves.
#[verifier::rlimit(60)]
#[verifier::spinoff_prover]
pub proof fn lemma_leaf_keys(m: Map<usize, PageView>, n: usize, root: usize, id: usize)
    requires
        tree(m, n, root, 1, 0, usize::MAX + 1, None),
    ensures
        has_id(contents(m, root, 1), id) <==> exists|j: int|
            0 <= j <= m[root].rows.len() && has_id(m[#[trigger] child(m[root].rows, j)].rows, id),
{
    let rows = m[root].rows;
    assert forall|i: int| 0 <= i < rows.len() + 1 implies m.contains_key(
        #[trigger] child(rows, i),
    ) by {
        lemma_leaves(m, n, root, i, 0);
    }
    lemma_kids_has_id(m, rows, rows.len() + 1, id);
    if has_id(contents(m, root, 1), id) {
        let j = choose|j: int|
            0 <= j < rows.len() + 1 && has_id(m[#[trigger] child(rows, j)].rows, id);
        assert(0 <= j <= rows.len() && has_id(m[child(rows, j)].rows, id));
    }
    if exists|j: int| 0 <= j <= rows.len() && has_id(m[#[trigger] child(rows, j)].rows, id) {
        let j = choose|j: int|
            0 <= j <= rows.len() && has_id(m[#[trigger] child(rows, j)].rows, id);
        assert(0 <= j < rows.len() + 1 && has_id(m[child(rows, j)].rows, id));
    }
}

/// The pointer of the root that the descent for a key follows.
pub open spec fn pointer_at(s: PagerView, key: usize) -> usize {
    (choice(pages(s)[s.meta.root].rows, key)->0).0
}

/// The rows of the two leaves beside the pointer that the descent follows
/// fit into one page, once the row with the key is gone.
pub open spec fn can_merge(s: PagerView, key: usize) -> bool {
    let m = pages(s);
    let rows = m[s.meta.root].rows;
    let q = pointer_at(s, key) as int;
    total_size(m[child(rows, q)].rows) + total_size(m[child(rows, q + 1)].rows) - total_size(
        m[target(m, s.meta.root, 1, key)].rows,
    ) + total_size((m[target(m, s.meta.root, 1, key)].delete(key)->Ok_0).rows) <= ROW_SPACE
}

/// The state in which the merge starts when a row is deleted from a tree
/// of height 1: the leaf of the key is without the row, and all other
/// pages are as they were.
pub open spec fn without(s: PagerView, t: PagerView, key: usize) -> bool {
    let m = pages(s);
    let cur = target(m, s.meta.root, 1, key);
    &&& t.well_formed()
    &&& t.meta == s.meta
    &&& page_of(t, cur) == Some(m[cur].delete(key)->Ok_0)
    &&& forall|x: usize| x != cur ==> #[trigger] page_of(t, x) == page_of(s, x)
}

/// A delete from a tree of height 1 takes the row out of its leaf and
/// comes to the merge of the two leaves beside the pointer, the left one
/// staying, if their rows fit into one page; else it is done.
#[verifier::rlimit(100)]
#[verifier::spinoff_prover]
pub proof fn lemma_delete_reaches_merge(s: PagerView, key: usize) -> (t: PagerView)
    requires
        sound(s, 1),
        has_id(pages(s)[target(pages(s), s.meta.root, 1, key)].rows, key),
    ensures
        without(s, t, key),
        pointer_at(s, key) < pages(s)[s.meta.root].rows.len(),
        target(pages(s), s.meta.root, 1, key) == child(
            pages(s)[s.meta.root].rows,
            pointer_at(s, key) as int,
        ) || target(pages(s), s.meta.root, 1, key) == child(
            pages(s)[s.meta.root].rows,
            pointer_at(s, key) + 1,
        ),
        can_merge(s, key) ==> tree_delete(s, key) == merge(
            t,
            child(pages(s)[s.meta.root].rows, pointer_at(s, key) as int),
            child(pages(s)[s.meta.root].rows, pointer_at(s, key) + 1),
            pointer_at(s, key),
            Seq::empty(),
        ),
        !can_merge(s, key) ==> tree_delete(s, key) == (t, Ok::<(), StorageError>(())),
{
    let m = pages(s);
    let root = s.meta.root;
    let n = s.meta.pages;
    let full = usize::MAX + 1;
    let above = m[root];
    let rows = above.rows;
    let b = branch(rows, key);
    let q = pointer_at(s, key);
    super::page::lemma_rows_count(rows);
    lemma_branch(rows, key, 0, full);
    super::shape::lemma_branch_pointer(rows, key);
    let cur = child(rows, b);
    assert(target(m, child(rows, b), 0, key) == child(rows, b));
    assert(target(m, root, 1, key) == cur);
    let left = child(rows, q as int);
    let right = child(rows, q + 1);
    assert(left == rows[q as int].left()) by {
        if q > 0 {
            assert(rows[q - 1].right() == rows[q as int].left());
        }
    }
    assert(right == rows[q as int].right());
    assert(cur == left || cur == right);
    lemma_leaves(m, n, root, b, q as int);
    lemma_leaves(m, n, root, q as int, q + 1);
    lemma_leaves(m, n, root, q + 1, b);
    let leaf = m[cur];
    let shrunk = leaf.delete(key)->Ok_0;
    lemma_delete_keys(leaf, key, key);
    // the descent
    lemma_height(m, n, root, 1, 0, full, None);
    assert(page_of(s, root) == Some(above));
    lemma_read_page(s, root, above);
    let s1 = s.read(root).0;
    assert(page_of(s1, cur) == Some(leaf));
    lemma_read_page(s1, cur, leaf);
    let s2 = s1.read(cur).0;
    let crumbs = Seq::<(usize, usize)>::empty().push((root, q));
    assert(locate(s1, cur, key, crumbs, (n - 1) as nat) == (
        s2,
        Ok::<(usize, Seq<(usize, usize)>, PageView), StorageError>((cur, crumbs, leaf)),
    ));
    assert(locate(s, root, key, Seq::empty(), n as nat) == locate(
        s1,
        cur,
        key,
        crumbs,
        (n - 1) as nat,
    ));
    // the row leaves the leaf
    lemma_write_page(s2, cur, shrunk);
    let s3 = s2.write(cur, shrunk).0;
    assert(tree_delete(s, key) == attempt_merge(s3, cur, crumbs));
    // the merge is attempted
    lemma_read_page(s3, cur, shrunk);
    let s4 = s3.read(cur).0;
    assert(crumbs.last() == (root, q));
    assert(crumbs.drop_last() =~= Seq::<(usize, usize)>::empty());
    assert(page_of(s4, root) == Some(above));
    lemma_read_page(s4, root, above);
    let s5 = s4.read(root).0;
    let sibling = if rows[q as int].left() == cur {
        rows[q as int].right()
    } else {
        rows[q as int].left()
    };
    assert(sibling != cur);
    let other = m[sibling];
    assert(page_of(s5, sibling) == Some(other)) by {
        assert(page_of(s, sibling) == Some(other));
    }
    lemma_read_page(s5, sibling, other);
    let s6 = s5.read(sibling).0;
    if can_merge(s, key) {
        assert(attempt_merge(s3, cur, crumbs) == merge(s6, left, right, q, Seq::empty()));
    } else {
        assert(attempt_merge(s3, cur, crumbs) == (s6, Ok::<(), StorageError>(())));
    }
    assert forall|x: usize| x != cur implies #[trigger] page_of(s6, x) == page_of(s, x) by {
        assert(page_of(s5, x) == page_of(s4, x));
        assert(page_of(s4, x) == page_of(s3, x));
        assert(page_of(s3, x) == page_of(s2, x));
        assert(page_of(s2, x) == page_of(s1, x));
    }
    assert(page_of(s6, cur) == Some(shrunk)) by {
        assert(page_of(s5, cur) == page_of(s4, cur));
    }
    s6
}

/// Two well-formed leaf pages whose keys lie on either side of a bound
/// and whose rows fit into one page make a well-formed leaf page together.
#[verifier::rlimit(60)]
#[verifier::spinoff_prover]
pub proof fn lemma_joined_leaf(stays: PageView, goes: PageView, lo: int, mid: int, hi: int)
    requires
        stays.well_formed(),
        goes.well_formed(),
        stays.kind == PageType::Leaf,
        goes.kind == PageType::Leaf,
        within(stays.rows, lo, mid),
        within(goes.rows, mid, hi),
        lo <= mid <= hi,
        total_size(stays.rows) + total_size(goes.rows) <= ROW_SPACE,
    ensures
        stays.with_rows(stays.rows + goes.rows).well_formed(),
        within(stays.rows + goes.rows, lo, hi),
        absorb(stays, goes.rows) == Ok::<PageView, PageError>(
            stays.with_rows(stays.rows + goes.rows),
        ),
{
    let all = stays.rows + goes.rows;
    lemma_join_sorted(stays.rows, goes.rows, lo, mid, hi);
    lemma_total_size_concat(stays.rows, goes.rows);
    assert forall|i: int| 0 <= i < all.len() implies (#[trigger] all[i]).kind()
        == RowType::Leaf by {
        if i < stays.rows.len() {
            assert(stays.rows[i].kind() == RowType::Leaf);
        } else {
            assert(goes.rows[i - stays.rows.len()].kind() == RowType::Leaf);
        }
    }
    let none = Seq::<RowView>::empty();
    assert(stays.rows + none =~= stays.rows);
    assert(total_size(none) == 0);
    assert(within(none, hi, hi));
    lemma_absorb_between(stays, stays.rows, none, goes.rows, lo, mid, hi, hi);
    assert(stays.rows + goes.rows + none =~= all);
}

/// The leaf that stays when the leaves beside pointer `q` are merged after
/// the row with the key left leaf `cur`, which is one of the two.
pub open spec fn stays_of(m: Map<usize, PageView>, root: usize, q: int, cur: usize, key: usize) -> PageView {
    if cur == child(m[root].rows, q) {
        m[cur].delete(key)->Ok_0
    } else {
        m[child(m[root].rows, q)]
    }
}

/// The leaf that goes when the leaves beside pointer `q` are merged.
pub open spec fn goes_of(m: Map<usize, PageView>, root: usize, q: int, cur: usize, key: usize) -> PageView {
    if cur == child(m[root].rows, q + 1) {
        m[cur].delete(key)->Ok_0
    } else {
        m[child(m[root].rows, q + 1)]
    }
}

/// The leaf that holds the rows of both.
pub open spec fn merged_of(m: Map<usize, PageView>, root: usize, q: int, cur: usize, key: usize) -> PageView {
    stays_of(m, root, q, cur, key).with_rows(
        stays_of(m, root, q, cur, key).rows + goes_of(m, root, q, cur, key).rows,
    )
}

/// The two leaves beside a pointer of a root of leaves, one of them
/// without the row that was deleted, make a well-formed leaf together if
/// their rows fit into one page; its keys are the keys of both but the key
/// that was deleted, and lie within the bounds of both. The root without
/// the pointer is well formed.
#[verifier::rlimit(100)]
#[verifier::spinoff_prover]
pub proof fn lemma_merged_leaf(
    m: Map<usize, PageView>,
    n: usize,
    root: usize,
    q: int,
    cur: usize,
    key: usize,
)
    requires
        tree(m, n, root, 1, 0, usize::MAX + 1, None),
        0 <= q < m[root].rows.len(),
        cur == child(m[root].rows, q) || cur == child(m[root].rows, q + 1),
        has_id(m[cur].rows, key),
        total_size(stays_of(m, root, q, cur, key).rows) + total_size(
            goes_of(m, root, q, cur, key).rows,
        ) <= ROW_SPACE,
    ensures
        stays_of(m, root, q, cur, key).kind == PageType::Leaf,
        goes_of(m, root, q, cur, key).kind == PageType::Leaf,
        stays_of(m, root, q, cur, key).parent == Some(root),
        absorb(stays_of(m, root, q, cur, key), goes_of(m, root, q, cur, key).rows) == Ok::<
            PageView,
            PageError,
        >(merged_of(m, root, q, cur, key)),
        merged_of(m, root, q, cur, key).well_formed(),
        within(
            merged_of(m, root, q, cur, key).rows,
            low(m[root].rows, q, 0),
            high(m[root].rows, q + 1, usize::MAX + 1),
        ),
        m[root].with_rows(close_gap(m[root].rows, q, child(m[root].rows, q))).well_formed(),
        forall|id: usize|
            has_id(merged_of(m, root, q, cur, key).rows, id) <==> ((has_id(
                m[child(m[root].rows, q)].rows,
                id,
            ) || has_id(m[child(m[root].rows, q + 1)].rows, id)) && id != key),
{
    let full = usize::MAX + 1;
    let rows = m[root].rows;
    let left = child(rows, q);
    let right = child(rows, q + 1);
    lemma_leaves(m, n, root, q, q + 1);
    lemma_leaves(m, n, root, q + 1, q);
    let leaf = m[cur];
    let shrunk = leaf.delete(key)->Ok_0;
    let lo = low(rows, q, 0);
    let mid = rows[q].id() as int;
    let hi = high(rows, q + 1, full);
    super::shape::lemma_bounds(rows, q, 0, full);
    super::shape::lemma_bounds(rows, q + 1, 0, full);
    assert(high(rows, q, full) == mid && low(rows, q + 1, 0) == mid);
    let stays = stays_of(m, root, q, cur, key);
    let goes = goes_of(m, root, q, cur, key);
    lemma_delete_keys(leaf, key, key);
    assert forall|id: usize| has_id(shrunk.rows, id) <==> (has_id(leaf.rows, id) && id != key) by {
        lemma_delete_keys(leaf, key, id);
    }
    let leaf_lo = if cur == left { lo } else { mid };
    let leaf_hi = if cur == left { mid } else { hi };
    assert(within(leaf.rows, leaf_lo, leaf_hi));
    assert(within(shrunk.rows, leaf_lo, leaf_hi)) by {
        assert forall|i: int| 0 <= i < shrunk.rows.len() implies leaf_lo <= (
        #[trigger] shrunk.rows[i]).id() < leaf_hi by {
            let k = shrunk.rows[i].id();
            assert(has_id(shrunk.rows, k));
            lemma_within_has_id(leaf.rows, leaf_lo, leaf_hi, k);
        }
    }
    assert(shrunk.kind == PageType::Leaf && shrunk.parent == Some(root));
    lemma_joined_leaf(stays, goes, lo, mid, hi);
    lemma_pointer_removed(rows, q, 0, full);
    assert forall|id: usize|
        has_id(stays.rows + goes.rows, id) <==> ((has_id(m[left].rows, id) || has_id(
            m[right].rows,
            id,
        )) && id != key) by {
        lemma_has_id_concat(stays.rows, goes.rows, id);
        if has_id(m[left].rows, id) && cur != left {
            lemma_within_has_id(m[left].rows, lo, mid, id);
        }
        if has_id(m[right].rows, id) && cur != right {
            lemma_within_has_id(m[right].rows, mid, hi, id);
        }
        lemma_within_has_id(leaf.rows, leaf_lo, leaf_hi, key);
    }
}

/// The merge of a delete, as a change of the pages: see
/// `lemma_leaf_merge`.
#[verifier::rlimit(100)]
#[verifier::spinoff_prover]
pub proof fn lemma_leaf_merge_pages(s: PagerView, key: usize)
    requires
        sound(s, 1),
        has_id(pages(s)[target(pages(s), s.meta.root, 1, key)].rows, key),
        can_merge(s, key),
        s.meta.free.len() < MAX_FREE_PAGES,
    ensures
        tree_delete(s, key).1 is Ok,
        tree_delete(s, key).0.well_formed(),
        pointer_at(s, key) < pages(s)[s.meta.root].rows.len(),
        tree_delete(s, key).0.meta == (MetaView {
            free: s.meta.free.push(
                child(pages(s)[s.meta.root].rows, pointer_at(s, key) + 1),
            ),
            root: if pages(s)[s.meta.root].rows.len() == 1 {
                child(pages(s)[s.meta.root].rows, pointer_at(s, key) as int)
            } else {
                s.meta.root
            },
            ..s.meta
        }),
        merged_from(
            pages(s),
            pages(tree_delete(s, key).0),
            s.meta.pages,
            s.meta.root,
            pointer_at(s, key) as int,
        ),
        pages(tree_delete(s, key).0)[child(
            pages(s)[s.meta.root].rows,
            pointer_at(s, key) as int,
        )] == merged_of(
            pages(s),
            s.meta.root,
            pointer_at(s, key) as int,
            target(pages(s), s.meta.root, 1, key),
            key,
        ),
{
    let m = pages(s);
    let root = s.meta.root;
    let n = s.meta.pages;
    let full = usize::MAX + 1;
    let above = m[root];
    let rows = above.rows;
    let q = pointer_at(s, key);
    let t0 = lemma_delete_reaches_merge(s, key);
    let cur = target(m, root, 1, key);
    let left = child(rows, q as int);
    let right = child(rows, q + 1);
    lemma_leaves(m, n, root, q as int, q + 1);
    lemma_leaves(m, n, root, q + 1, q as int);
    let stays = stays_of(m, root, q as int, cur, key);
    let goes = goes_of(m, root, q as int, cur, key);
    assert(page_of(t0, left) == Some(stays));
    assert(page_of(t0, right) == Some(goes));
    assert(page_of(t0, root) == Some(above));
    lemma_merged_leaf(m, n, root, q as int, cur, key);
    assert(!s.meta.free.contains(right)) by {
        if s.meta.free.contains(right) {
            let i = choose|i: int| 0 <= i < s.meta.free.len() && s.meta.free[i] == right;
            assert(!in_span(m, root, 1, s.meta.free[i]));
        }
    }
    lemma_merge_pages(t0, left, right, q, stays, goes, above);
    let t = tree_delete(s, key).0;
    let u = pages(t);
    assert(u.contains_key(root) && u.contains_key(left));
    assert forall|x: usize|
        x != left && x != right && x != root && #[trigger] in_span(
            m,
            root,
            1,
            x,
        ) implies u.contains_key(x) && u[x] == m[x] by {
        lemma_span_pages(m, n, root, 1, 0, full, None, x);
        assert(page_of(t, x) == page_of(t0, x));
        assert(page_of(t0, x) == page_of(s, x));
    }
}

/// After the merge of two leaves under a root with more than one pointer,
/// the tree holds the keys that it held but the key that was deleted.
#[verifier::rlimit(100)]
#[verifier::spinoff_prover]
pub proof fn lemma_merged_tree_keys(
    m: Map<usize, PageView>,
    u: Map<usize, PageView>,
    n: usize,
    root: usize,
    q: int,
    cur: usize,
    key: usize,
    id: usize,
)
    requires
        merged_from(m, u, n, root, q),
        m[root].rows.len() > 1,
        cur == child(m[root].rows, branch(m[root].rows, key)),
        cur == child(m[root].rows, q) || cur == child(m[root].rows, q + 1),
        forall|x: usize|
            has_id(u[child(m[root].rows, q)].rows, x) <==> ((has_id(
                m[child(m[root].rows, q)].rows,
                x,
            ) || has_id(m[child(m[root].rows, q + 1)].rows, x)) && x != key),
    ensures
        has_id(contents(u, root, 1), id) <==> (has_id(contents(m, root, 1), id) && id != key),
{
    let rows = m[root].rows;
    let left = child(rows, q);
    let right = child(rows, q + 1);
    lemma_merged_keys(m, u, n, root, q, id);
    lemma_leaf_keys(m, n, root, id);
    if exists|j: int|
        0 <= j <= rows.len() && j != q && j != q + 1 && has_id(
            m[#[trigger] child(rows, j)].rows,
            id,
        ) {
        let j = choose|j: int|
            0 <= j <= rows.len() && j != q && j != q + 1 && has_id(
                m[#[trigger] child(rows, j)].rows,
                id,
            );
        assert(0 <= j <= rows.len() && has_id(m[child(rows, j)].rows, id));
        if id == key {
            lemma_key_once(m, n, root, j, key);
            lemma_leaves(m, n, root, j, q);
            lemma_leaves(m, n, root, j, q + 1);
        }
    }
    if has_id(contents(m, root, 1), id) && id != key {
        let j = choose|j: int|
            0 <= j <= rows.len() && has_id(m[#[trigger] child(rows, j)].rows, id);
        if j != q && j != q + 1 {
            assert(0 <= j <= rows.len() && j != q && j != q + 1 && has_id(
                m[child(rows, j)].rows,
                id,
            ));
        }
    }
    if has_id(m[left].rows, id) {
        assert(0 <= q <= rows.len() && has_id(m[child(rows, q)].rows, id));
    }
    if has_id(m[right].rows, id) {
        assert(0 <= q + 1 <= rows.len() && has_id(m[child(rows, q + 1)].rows, id));
    }
}

/// The merge of two leaves under a root with more than one pointer: a
/// delete from a tree of height 1, after which the leaf and its sibling
/// beside the pointer fit into one page, leaves a well-formed tree of
/// height 1 with the rows that it held, each as it was, but the row under
/// the key that was deleted.
#[verifier::rlimit(100)]
#[verifier::spinoff_prover]
pub proof fn lemma_leaf_merge(s: PagerView, key: usize)
    requires
        sound(s, 1),
        has_id(pages(s)[target(pages(s), s.meta.root, 1, key)].rows, key),
        can_merge(s, key),
        s.meta.free.len() < MAX_FREE_PAGES,
        pages(s)[s.meta.root].rows.len() > 1,
    ensures
        tree_delete(s, key).1 is Ok,
        sound(tree_delete(s, key).0, 1),
        tree_delete(s, key).0.meta.root == s.meta.root,
        forall|id: usize|
            has_id(rows_of(tree_delete(s, key).0, 1), id) <==> (has_id(rows_of(s, 1), id) && id
                != key),
        ids_increasing(rows_of(tree_delete(s, key).0, 1)),
        forall|r: RowView|
            #![trigger rows_of(tree_delete(s, key).0, 1).contains(r)]
            #![trigger rows_of(s, 1).contains(r)]
            rows_of(tree_delete(s, key).0, 1).contains(r) <==> (rows_of(s, 1).contains(r) && r.id()
                != key),
{
    lemma_leaf_merge_rows(s, key);
    let m = pages(s);
    let root = s.meta.root;
    let n = s.meta.pages;
    let full = usize::MAX + 1;
    let rows = m[root].rows;
    let q = pointer_at(s, key) as int;
    let right = child(rows, q + 1);
    let cur = target(m, root, 1, key);
    lemma_leaf_merge_pages(s, key);
    let t0 = lemma_delete_reaches_merge(s, key);
    let t = tree_delete(s, key).0;
    let u = pages(t);
    lemma_merged_tree(m, u, n, root, q);
    let new = u[root].rows;
    lemma_leaves(m, n, root, q + 1, q);
    assert forall|i: int| 0 <= i < t.meta.free.len() implies (#[trigger] t.meta.free[i]) != 0
        && !in_span(u, root, 1, t.meta.free[i]) by {
        let x = t.meta.free[i];
        if in_span(u, root, 1, x) && x != root {
            let j = choose|j: int| 0 <= j <= new.len()
                && in_span(u, #[trigger] child(new, j), 0, x);
            assert(child(new, j) == child(rows, old_child(q, j)));
            lemma_leaves(m, n, root, old_child(q, j), q + 1);
        }
        if i < s.meta.free.len() {
            assert(s.meta.free[i] == x);
        } else {
            assert(x == right);
        }
        assert(in_span(m, root, 1, root));
    }
    lemma_branch(rows, key, 0, full);
    assert(target(m, child(rows, branch(rows, key)), 0, key) == child(rows, branch(rows, key)));
    lemma_leaves(m, n, root, q, q + 1);
    lemma_merged_leaf(m, n, root, q, cur, key);
    assert forall|id: usize|
        has_id(rows_of(t, 1), id) <==> (has_id(rows_of(s, 1), id) && id != key) by {
        lemma_merged_tree_keys(m, u, n, root, q, cur, key, id);
    }
    lemma_contents_sorted(u, n, root, 1, 0, full, None);
}

/// A key is held by the leaf that it belongs to and by no other.
#[verifier::rlimit(60)]
#[verifier::spinoff_prover]
pub proof fn lemma_key_once(m: Map<usize, PageView>, n: usize, root: usize, j: int, key: usize)
    requires
        tree(m, n, root, 1, 0, usize::MAX + 1, None),
        0 <= j <= m[root].rows.len(),
        has_id(m[child(m[root].rows, j)].rows, key),
    ensures
        j == branch(m[root].rows, key),
{
    let full = usize::MAX + 1;
    let rows = m[root].rows;
    let b = branch(rows, key);
    lemma_branch(rows, key, 0, full);
    lemma_leaves(m, n, root, j, b);
    lemma_within_has_id(m[child(rows, j)].rows, low(rows, j, 0), high(rows, j, full), key);
    if j < b {
        assert(high(rows, j, full) == rows[j].id());
        assert(low(rows, b, 0) == rows[b - 1].id());
        if j < b - 1 {
            assert(rows[j].id() < rows[b - 1].id());
        }
    } else if j > b {
        assert(low(rows, j, 0) == rows[j - 1].id());
        assert(high(rows, b, full) == rows[b].id());
        if b < j - 1 {
            assert(rows[b].id() < rows[j - 1].id());
        }
    }
}

/// The merge of the two leaves under a root with one pointer: a delete
/// from a tree of height 1 whose root has one pointer, after which the two
/// leaves fit into one page, leaves a tree that is the left leaf alone,
/// with the rows that the tree held, each as it was, but the row under the
/// key that was deleted.
#[verifier::rlimit(100)]
#[verifier::spinoff_prover]
pub proof fn lemma_root_collapse(s: PagerView, key: usize)
    requires
        sound(s, 1),
        has_id(pages(s)[target(pages(s), s.meta.root, 1, key)].rows, key),
        can_merge(s, key),
        s.meta.free.len() < MAX_FREE_PAGES,
        pages(s)[s.meta.root].rows.len() == 1,
    ensures
        tree_delete(s, key).1 is Ok,
        sound(tree_delete(s, key).0, 0),
        tree_delete(s, key).0.meta.root == pages(s)[s.meta.root].rows[0].left(),
        forall|id: usize|
            has_id(rows_of(tree_delete(s, key).0, 0), id) <==> (has_id(rows_of(s, 1), id) && id
                != key),
        ids_increasing(rows_of(tree_delete(s, key).0, 0)),
        forall|r: RowView|
            #![trigger rows_of(tree_delete(s, key).0, 0).contains(r)]
            #![trigger rows_of(s, 1).contains(r)]
            rows_of(tree_delete(s, key).0, 0).contains(r) <==> (rows_of(s, 1).contains(r) && r.id()
                != key),
{
    lemma_root_collapse_rows(s, key);
    let m = pages(s);
    let root = s.meta.root;
    let n = s.meta.pages;
    let full = usize::MAX + 1;
    let rows = m[root].rows;
    let q = pointer_at(s, key) as int;
    let left = child(rows, 0);
    let right = child(rows, 1);
    let cur = target(m, root, 1, key);
    lemma_leaf_merge_pages(s, key);
    let t0 = lemma_delete_reaches_merge(s, key);
    assert(q == 0);
    let t = tree_delete(s, key).0;
    let u = pages(t);
    lemma_leaves(m, n, root, 0, 1);
    lemma_leaves(m, n, root, 1, 0);
    lemma_merged_leaf(m, n, root, 0, cur, key);
    assert(tree(u, n, left, 0, 0, full, None));
    assert forall|i: int| 0 <= i < t.meta.free.len() implies (#[trigger] t.meta.free[i]) != 0
        && !in_span(u, left, 0, t.meta.free[i]) by {
        let x = t.meta.free[i];
        if i < s.meta.free.len() {
            assert(s.meta.free[i] == x);
        } else {
            assert(x == right);
        }
    }
    assert forall|id: usize|
        has_id(rows_of(t, 0), id) <==> (has_id(rows_of(s, 1), id) && id != key) by {
        lemma_leaf_keys(m, n, root, id);
        if has_id(rows_of(s, 1), id) {
            let j = choose|j: int|
                0 <= j <= rows.len() && has_id(m[#[trigger] child(rows, j)].rows, id);
            assert(j == 0 || j == 1);
        }
        if has_id(m[left].rows, id) {
            assert(0 <= 0 <= rows.len() && has_id(m[child(rows, 0)].rows, id));
        }
        if has_id(m[right].rows, id) {
            assert(0 <= 1 <= rows.len() && has_id(m[child(rows, 1)].rows, id));
        }
    }
    lemma_contents_sorted(u, n, left, 0, 0, full, None);
}

/// A delete from a tree of height 1, after which the leaf and its sibling
/// beside the pointer do not fit into one page, takes the row out of its
/// leaf and merges nothing: the tree stays well formed, with the rows that
/// it held, each as it was, but the row under the key that was deleted.
#[verifier::rlimit(100)]
#[verifier::spinoff_prover]
pub proof fn lemma_leaf_delete(s: PagerView, key: usize)
    requires
        sound(s, 1),
        has_id(pages(s)[target(pages(s), s.meta.root, 1, key)].rows, key),
        !can_merge(s, key),
    ensures
        tree_delete(s, key).1 is Ok,
        sound(tree_delete(s, key).0, 1),
        tree_delete(s, key).0.meta == s.meta,
        forall|id: usize|
            has_id(rows_of(tree_delete(s, key).0, 1), id) <==> (has_id(rows_of(s, 1), id) && id
                != key),
        ids_increasing(rows_of(tree_delete(s, key).0, 1)),
        forall|r: RowView|
            #![trigger rows_of(tree_delete(s, key).0, 1).contains(r)]
            #![trigger rows_of(s, 1).contains(r)]
            rows_of(tree_delete(s, key).0, 1).contains(r) <==> (rows_of(s, 1).contains(r) && r.id()
                != key),
{
    lemma_leaf_delete_rows(s, key);
    let m = pages(s);
    let root = s.meta.root;
    let n = s.meta.pages;
    let full = usize::MAX + 1;
    let cur = target(m, root, 1, key);
    let leaf = m[cur];
    let shrunk = leaf.delete(key)->Ok_0;
    let t = lemma_delete_reaches_merge(s, key);
    let u = pages(t);
    super::shape::lemma_target(m, n, root, 1, 0, full, None, key);
    let tl = super::shape::target_lo(m, root, 1, 0, key);
    let th = super::shape::target_hi(m, root, 1, full, key);
    lemma_delete_keys(leaf, key, key);
    assert(within(shrunk.rows, tl, th)) by {
        assert forall|i: int| 0 <= i < shrunk.rows.len() implies tl <= (
        #[trigger] shrunk.rows[i]).id() < th by {
            let k = shrunk.rows[i].id();
            lemma_delete_keys(leaf, key, k);
            assert(has_id(shrunk.rows, k));
            lemma_within_has_id(leaf.rows, tl, th, k);
        }
    }
    super::shape::lemma_put(m, n, root, 1, 0, full, None, key, shrunk);
    assert(u =~= m.insert(cur, shrunk)) by {
        assert forall|x: usize| u.contains_key(x) == m.insert(cur, shrunk).contains_key(x) by {
            if x != cur {
                assert(page_of(t, x) == page_of(s, x));
            }
        }
        assert forall|x: usize| u.contains_key(x) implies u[x] == m.insert(cur, shrunk)[x] by {
            if x != cur {
                assert(page_of(t, x) == page_of(s, x));
            }
        }
    }
    super::shape::lemma_around(m, n, root, 1, 0, full, None, key);
    super::shape::lemma_key_in_leaf(s, 1, key);
    let a = super::shape::before(m, root, 1, key);
    let c = super::shape::after(m, root, 1, key);
    super::shape::lemma_around_bounds(m, n, root, 1, 0, full, None, key);
    assert forall|id: usize|
        has_id(rows_of(t, 1), id) <==> (has_id(rows_of(s, 1), id) && id != key) by {
        lemma_delete_keys(leaf, key, id);
        lemma_has_id_concat(a + shrunk.rows, c, id);
        lemma_has_id_concat(a, shrunk.rows, id);
        lemma_has_id_concat(a + leaf.rows, c, id);
        lemma_has_id_concat(a, leaf.rows, id);
        if has_id(a, key) {
            lemma_within_has_id(a, 0, tl, key);
        }
        if has_id(c, key) {
            lemma_within_has_id(c, th, full, key);
        }
    }
    lemma_contents_sorted(u, n, root, 1, 0, full, None);
    assert forall|i: int| 0 <= i < t.meta.free.len() implies (#[trigger] t.meta.free[i]) != 0
        && !in_span(u, root, 1, t.meta.free[i]) by {
        assert(!in_span(m, root, 1, s.meta.free[i]));
    }
}

/// The rows of a tree of height 1 are the rows of its leaves.
#[verifier::rlimit(60)]
#[verifier::spinoff_prover]
pub proof fn lemma_leaf_rows(m: Map<usize, PageView>, n: usize, root: usize, r: RowView)
    requires
        tree(m, n, root, 1, 0, usize::MAX + 1, None),
    ensures
        contents(m, root, 1).contains(r) <==> exists|j: int|
            0 <= j <= m[root].rows.len() && m[#[trigger] child(m[root].rows, j)].rows.contains(r),
{
    let rows = m[root].rows;
    assert forall|i: int| 0 <= i < rows.len() + 1 implies m.contains_key(
        #[trigger] child(rows, i),
    ) by {
        lemma_leaves(m, n, root, i, 0);
    }
    lemma_kids_contains(m, rows, rows.len() + 1, r);
    if contents(m, root, 1).contains(r) {
        let j = choose|j: int|
            0 <= j < rows.len() + 1 && m[#[trigger] child(rows, j)].rows.contains(r);
        assert(0 <= j <= rows.len() && m[child(rows, j)].rows.contains(r));
    }
    if exists|j: int| 0 <= j <= rows.len() && m[#[trigger] child(rows, j)].rows.contains(r) {
        let j = choose|j: int|
            0 <= j <= rows.len() && m[#[trigger] child(rows, j)].rows.contains(r);
        assert(0 <= j < rows.len() + 1 && m[child(rows, j)].rows.contains(r));
    }
}

/// After the merge of two leaves, the tree holds the rows of the leaf
/// that stays and of the other leaves but the two that were merged.
#[verifier::rlimit(100)]
#[verifier::spinoff_prover]
pub proof fn lemma_merged_rows(
    m: Map<usize, PageView>,
    u: Map<usize, PageView>,
    n: usize,
    root: usize,
    q: int,
    r: RowView,
)
    requires
        merged_from(m, u, n, root, q),
        m[root].rows.len() > 1,
    ensures
        contents(u, root, 1).contains(r) <==> (u[child(m[root].rows, q)].rows.contains(r)
            || exists|j: int|
            0 <= j <= m[root].rows.len() && j != q && j != q + 1
                && m[#[trigger] child(m[root].rows, j)].rows.contains(r)),
{
    let rows = m[root].rows;
    let new = u[root].rows;
    let left = child(rows, q);
    lemma_merged_tree(m, u, n, root, q);
    assert forall|i: int| 0 <= i < new.len() + 1 implies u.contains_key(
        #[trigger] child(new, i),
    ) by {
        assert(tree(
            u,
            n,
            child(new, i),
            0,
            low(new, i, 0),
            high(new, i, usize::MAX + 1),
            Some(root),
        ));
    }
    lemma_kids_contains(u, new, new.len() + 1, r);
    if contents(u, root, 1).contains(r) {
        let j = choose|j: int|
            0 <= j < new.len() + 1 && u[#[trigger] child(new, j)].rows.contains(r);
        let x = old_child(q, j);
        assert(child(new, j) == child(rows, x));
        if j != q {
            lemma_leaves(m, n, root, x, q);
            lemma_leaves(m, n, root, x, q + 1);
            assert(u[child(rows, x)] == m[child(rows, x)]);
            assert(0 <= x <= rows.len() && x != q && x != q + 1
                && m[child(rows, x)].rows.contains(r));
        }
    }
    if u[left].rows.contains(r) {
        assert(child(new, q) == child(rows, old_child(q, q)));
        assert(0 <= q < new.len() + 1 && u[child(new, q)].rows.contains(r));
    }
    if exists|j: int|
        0 <= j <= rows.len() && j != q && j != q + 1
            && m[#[trigger] child(rows, j)].rows.contains(r) {
        let j = choose|j: int|
            0 <= j <= rows.len() && j != q && j != q + 1
                && m[#[trigger] child(rows, j)].rows.contains(r);
        let y = if j < q { j } else { j - 1 };
        assert(old_child(q, y) == j);
        assert(child(new, y) == child(rows, old_child(q, y)));
        lemma_leaves(m, n, root, j, q);
        lemma_leaves(m, n, root, j, q + 1);
        assert(u[child(rows, j)] == m[child(rows, j)]);
        assert(0 <= y < new.len() + 1 && u[child(new, y)].rows.contains(r));
    }
}

/// After the merge of two leaves under a root with more than one pointer,
/// the tree holds the rows that it held but the row under the key that
/// was deleted.
#[verifier::rlimit(100)]
#[verifier::spinoff_prover]
pub proof fn lemma_merged_tree_rows(
    m: Map<usize, PageView>,
    u: Map<usize, PageView>,
    n: usize,
    root: usize,
    q: int,
    cur: usize,
    key: usize,
    r: RowView,
)
    requires
        merged_from(m, u, n, root, q),
        m[root].rows.len() > 1,
        cur == child(m[root].rows, branch(m[root].rows, key)),
        cur == child(m[root].rows, q) || cur == child(m[root].rows, q + 1),
        forall|x: RowView|
            #![trigger u[child(m[root].rows, q)].rows.contains(x)]
            #![trigger m[child(m[root].rows, q)].rows.contains(x)]
            #![trigger m[child(m[root].rows, q + 1)].rows.contains(x)]
            u[child(m[root].rows, q)].rows.contains(x) <==> ((m[child(
                m[root].rows,
                q,
            )].rows.contains(x) || m[child(m[root].rows, q + 1)].rows.contains(x)) && x.id()
                != key),
    ensures
        contents(u, root, 1).contains(r) <==> (contents(m, root, 1).contains(r) && r.id() != key),
{
    let rows = m[root].rows;
    let left = child(rows, q);
    let right = child(rows, q + 1);
    lemma_merged_rows(m, u, n, root, q, r);
    lemma_leaf_rows(m, n, root, r);
    if exists|j: int|
        0 <= j <= rows.len() && j != q && j != q + 1
            && m[#[trigger] child(rows, j)].rows.contains(r) {
        let j = choose|j: int|
            0 <= j <= rows.len() && j != q && j != q + 1
                && m[#[trigger] child(rows, j)].rows.contains(r);
        assert(0 <= j <= rows.len() && m[child(rows, j)].rows.contains(r));
        if r.id() == key {
            lemma_contains_has_id(m[child(rows, j)].rows, r);
            lemma_key_once(m, n, root, j, key);
            lemma_leaves(m, n, root, j, q);
            lemma_leaves(m, n, root, j, q + 1);
        }
    }
    if contents(m, root, 1).contains(r) && r.id() != key {
        let j = choose|j: int|
            0 <= j <= rows.len() && m[#[trigger] child(rows, j)].rows.contains(r);
        if j != q && j != q + 1 {
            assert(0 <= j <= rows.len() && j != q && j != q + 1
                && m[child(rows, j)].rows.contains(r));
        }
    }
    if m[left].rows.contains(r) {
        assert(0 <= q <= rows.len() && m[child(rows, q)].rows.contains(r));
    }
    if m[right].rows.contains(r) {
        assert(0 <= q + 1 <= rows.len() && m[child(rows, q + 1)].rows.contains(r));
    }
}

/// The leaf that holds the rows of two merged leaves holds the rows of
/// both, each as it was, but the row under the key that was deleted.
#[verifier::rlimit(100)]
#[verifier::spinoff_prover]
pub proof fn lemma_merged_leaf_rows(
    m: Map<usize, PageView>,
    n: usize,
    root: usize,
    q: int,
    cur: usize,
    key: usize,
    r: RowView,
)
    requires
        tree(m, n, root, 1, 0, usize::MAX + 1, None),
        0 <= q < m[root].rows.len(),
        cur == child(m[root].rows, q) || cur == child(m[root].rows, q + 1),
        has_id(m[cur].rows, key),
    ensures
        merged_of(m, root, q, cur, key).rows.contains(r) <==> ((m[child(
            m[root].rows,
            q,
        )].rows.contains(r) || m[child(m[root].rows, q + 1)].rows.contains(r)) && r.id() != key),
{
    let full = usize::MAX + 1;
    let rows = m[root].rows;
    let left = child(rows, q);
    let right = child(rows, q + 1);
    lemma_leaves(m, n, root, q, q + 1);
    lemma_leaves(m, n, root, q + 1, q);
    let leaf = m[cur];
    let lo = low(rows, q, 0);
    let mid = rows[q].id() as int;
    let hi = high(rows, q + 1, full);
    super::shape::lemma_bounds(rows, q, 0, full);
    super::shape::lemma_bounds(rows, q + 1, 0, full);
    assert(high(rows, q, full) == mid && low(rows, q + 1, 0) == mid);
    let stays = stays_of(m, root, q, cur, key);
    let goes = goes_of(m, root, q, cur, key);
    lemma_delete_keys(leaf, key, key);
    lemma_delete_rows(leaf, key, r);
    lemma_rows_concat(stays.rows, goes.rows, r);
    let leaf_lo = if cur == left { lo } else { mid };
    let leaf_hi = if cur == left { mid } else { hi };
    lemma_within_has_id(leaf.rows, leaf_lo, leaf_hi, key);
    if m[left].rows.contains(r) && cur != left {
        lemma_contains_has_id(m[left].rows, r);
        lemma_within_has_id(m[left].rows, lo, mid, r.id());
    }
    if m[right].rows.contains(r) && cur != right {
        lemma_contains_has_id(m[right].rows, r);
        lemma_within_has_id(m[right].rows, mid, hi, r.id());
    }
}

/// After the merge of two leaves under a root with more than one pointer,
/// the left leaf holding the rows of both but the row that was deleted,
/// the tree holds the rows that it held but that row.
#[verifier::rlimit(100)]
#[verifier::spinoff_prover]
pub proof fn lemma_merged_all_rows(
    m: Map<usize, PageView>,
    u: Map<usize, PageView>,
    n: usize,
    root: usize,
    q: int,
    cur: usize,
    key: usize,
)
    requires
        merged_from(m, u, n, root, q),
        m[root].rows.len() > 1,
        cur == child(m[root].rows, branch(m[root].rows, key)),
        cur == child(m[root].rows, q) || cur == child(m[root].rows, q + 1),
        has_id(m[cur].rows, key),
        u[child(m[root].rows, q)] == merged_of(m, root, q, cur, key),
    ensures
        forall|r: RowView|
            #![trigger contents(u, root, 1).contains(r)]
            #![trigger contents(m, root, 1).contains(r)]
            contents(u, root, 1).contains(r) <==> (contents(m, root, 1).contains(r) && r.id()
                != key),
{
    let rows = m[root].rows;
    assert forall|x: RowView|
        #![trigger u[child(rows, q)].rows.contains(x)]
        #![trigger m[child(rows, q)].rows.contains(x)]
        u[child(rows, q)].rows.contains(x) <==> ((m[child(rows, q)].rows.contains(x) || m[child(
            rows,
            q + 1,
        )].rows.contains(x)) && x.id() != key) by {
        lemma_merged_leaf_rows(m, n, root, q, cur, key, x);
    }
    assert forall|r: RowView|
        #![trigger contents(u, root, 1).contains(r)]
        #![trigger contents(m, root, 1).contains(r)]
        contents(u, root, 1).contains(r) <==> (contents(m, root, 1).contains(r) && r.id()
            != key) by {
        lemma_merged_tree_rows(m, u, n, root, q, cur, key, r);
    }
}

/// The merge of two leaves under a root with more than one pointer leaves
/// every row but the one that was deleted as it was.
#[verifier::rlimit(100)]
#[verifier::spinoff_prover]
pub proof fn lemma_leaf_merge_rows(s: PagerView, key: usize)
    requires
        sound(s, 1),
        has_id(pages(s)[target(pages(s), s.meta.root, 1, key)].rows, key),
        can_merge(s, key),
        s.meta.free.len() < MAX_FREE_PAGES,
        pages(s)[s.meta.root].rows.len() > 1,
    ensures
        forall|r: RowView|
            #![trigger rows_of(tree_delete(s, key).0, 1).contains(r)]
            #![trigger rows_of(s, 1).contains(r)]
            rows_of(tree_delete(s, key).0, 1).contains(r) <==> (rows_of(s, 1).contains(r) && r.id()
                != key),
{
    let m = pages(s);
    let root = s.meta.root;
    let n = s.meta.pages;
    let full = usize::MAX + 1;
    let rows = m[root].rows;
    let q = pointer_at(s, key) as int;
    let cur = target(m, root, 1, key);
    lemma_leaf_merge_pages(s, key);
    let t0 = lemma_delete_reaches_merge(s, key);
    let t = tree_delete(s, key).0;
    let u = pages(t);
    assert(t.meta.root == root);
    lemma_branch(rows, key, 0, full);
    assert(target(m, child(rows, branch(rows, key)), 0, key) == child(rows, branch(rows, key)));
    assert(cur == child(rows, branch(rows, key)));
    lemma_merged_all_rows(m, u, n, root, q, cur, key);
    assert(rows_of(t, 1) == contents(u, root, 1));
    assert(rows_of(s, 1) == contents(m, root, 1));
}

/// The merge of the two leaves under a root with one pointer leaves every
/// row but the one that was deleted as it was.
#[verifier::rlimit(100)]
#[verifier::spinoff_prover]
pub proof fn lemma_root_collapse_rows(s: PagerView, key: usize)
    requires
        sound(s, 1),
        has_id(pages(s)[target(pages(s), s.meta.root, 1, key)].rows, key),
        can_merge(s, key),
        s.meta.free.len() < MAX_FREE_PAGES,
        pages(s)[s.meta.root].rows.len() == 1,
    ensures
        forall|r: RowView|
            #![trigger rows_of(tree_delete(s, key).0, 0).contains(r)]
            #![trigger rows_of(s, 1).contains(r)]
            rows_of(tree_delete(s, key).0, 0).contains(r) <==> (rows_of(s, 1).contains(r) && r.id()
                != key),
{
    let m = pages(s);
    let root = s.meta.root;
    let n = s.meta.pages;
    let rows = m[root].rows;
    let q = pointer_at(s, key) as int;
    let left = child(rows, 0);
    let right = child(rows, 1);
    let cur = target(m, root, 1, key);
    lemma_leaf_merge_pages(s, key);
    let t0 = lemma_delete_reaches_merge(s, key);
    assert(q == 0);
    let t = tree_delete(s, key).0;
    let u = pages(t);
    lemma_leaves(m, n, root, 0, 1);
    lemma_leaves(m, n, root, 1, 0);
    assert(rows_of(t, 0) == u[left].rows);
    assert forall|r: RowView|
        #![trigger rows_of(t, 0).contains(r)]
        #![trigger rows_of(s, 1).contains(r)]
        rows_of(t, 0).contains(r) <==> (rows_of(s, 1).contains(r) && r.id() != key) by {
        lemma_merged_leaf_rows(m, n, root, 0, cur, key, r);
        lemma_leaf_rows(m, n, root, r);
        if rows_of(s, 1).contains(r) {
            let j = choose|j: int|
                0 <= j <= rows.len() && m[#[trigger] child(rows, j)].rows.contains(r);
            assert(j == 0 || j == 1);
        }
        if m[left].rows.contains(r) {
            assert(0 <= 0 <= rows.len() && m[child(rows, 0)].rows.contains(r));
        }
        if m[right].rows.contains(r) {
            assert(0 <= 1 <= rows.len() && m[child(rows, 1)].rows.contains(r));
        }
    }
}

/// A delete from a tree of height 1 that merges nothing leaves every row
/// but the one that was deleted as it was.
#[verifier::rlimit(100)]
#[verifier::spinoff_prover]
pub proof fn lemma_leaf_delete_rows(s: PagerView, key: usize)
    requires
        sound(s, 1),
        has_id(pages(s)[target(pages(s), s.meta.root, 1, key)].rows, key),
        !can_merge(s, key),
    ensures
        forall|r: RowView|
            #![trigger rows_of(tree_delete(s, key).0, 1).contains(r)]
            #![trigger rows_of(s, 1).contains(r)]
            rows_of(tree_delete(s, key).0, 1).contains(r) <==> (rows_of(s, 1).contains(r) && r.id()
                != key),
{
    let m = pages(s);
    let root = s.meta.root;
    let n = s.meta.pages;
    let full = usize::MAX + 1;
    let cur = target(m, root, 1, key);
    let leaf = m[cur];
    let shrunk = leaf.delete(key)->Ok_0;
    let t = lemma_delete_reaches_merge(s, key);
    let u = pages(t);
    super::shape::lemma_target(m, n, root, 1, 0, full, None, key);
    let tl = super::shape::target_lo(m, root, 1, 0, key);
    let th = super::shape::target_hi(m, root, 1, full, key);
    lemma_delete_keys(leaf, key, key);
    assert(within(shrunk.rows, tl, th)) by {
        assert forall|i: int| 0 <= i < shrunk.rows.len() implies tl <= (
        #[trigger] shrunk.rows[i]).id() < th by {
            let k = shrunk.rows[i].id();
            lemma_delete_keys(leaf, key, k);
            assert(has_id(shrunk.rows, k));
            lemma_within_has_id(leaf.rows, tl, th, k);
        }
    }
    super::shape::lemma_put(m, n, root, 1, 0, full, None, key, shrunk);
    assert(u =~= m.insert(cur, shrunk)) by {
        assert forall|x: usize| u.contains_key(x) == m.insert(cur, shrunk).contains_key(x) by {
            if x != cur {
                assert(page_of(t, x) == page_of(s, x));
            }
        }
        assert forall|x: usize| u.contains_key(x) implies u[x] == m.insert(cur, shrunk)[x] by {
            if x != cur {
                assert(page_of(t, x) == page_of(s, x));
            }
        }
    }
    super::shape::lemma_around(m, n, root, 1, 0, full, None, key);
    let a = super::shape::before(m, root, 1, key);
    let c = super::shape::after(m, root, 1, key);
    super::shape::lemma_around_bounds(m, n, root, 1, 0, full, None, key);
    assert forall|r: RowView|
        #![trigger rows_of(t, 1).contains(r)]
        #![trigger rows_of(s, 1).contains(r)]
        rows_of(t, 1).contains(r) <==> (rows_of(s, 1).contains(r) && r.id() != key) by {
        lemma_delete_rows(leaf, key, r);
        lemma_rows_concat(a + shrunk.rows, c, r);
        lemma_rows_concat(a, shrunk.rows, r);
        lemma_rows_concat(a + leaf.rows, c, r);
        lemma_rows_concat(a, leaf.rows, r);
        if a.contains(r) {
            lemma_contains_has_id(a, r);
            lemma_within_has_id(a, 0, tl, r.id());
        }
        if c.contains(r) {
            lemma_contains_has_id(c, r);
            lemma_within_has_id(c, th, full, r.id());
        }
    }
}

} // verus!
