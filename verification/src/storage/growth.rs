//! How a tree grows: the split of a leaf.
//!
//! When the root leaf has no room, the tree gets a new root over two
//! leaves; when a leaf under the root has no room and the root has, the
//! root gets one more pointer. In both cases the tree stays well formed
//! and holds the rows that it held and the new row.
//!
//! The split of an internal page parts its pointers in the middle, so the
//! child between the halves stands under both of them: the pages are then
//! no tree of separate children any more, and the laws of well-formed
//! trees end with the trees of height 1.
use vstd::prelude::*;
use super::btree::{
    locate, lower_half, move_children, place, reparent, separator, split_node, split_page,
    split_root, tree_insert, tree_select, tree_split, tree_structure, upper_half, write_halves,
};
use super::page::{
    all_of_kind, has_id, ids_increasing, is_slot, lemma_insert_keeps_links, lemma_insert_keys,
    lemma_insert_rows, lemma_relink, lemma_rows_concat, lemma_slot, linked, relink, slot, PageType,
    PageView,
};
use super::pager::{lemma_meta_round_trip, MetaView, PagerView, MAX_PAGES};
use super::row::{RowType, RowView};
use super::shape::{
    apart, branch, child, contents, high, in_span, lemma_branch, lemma_insert, lemma_put,
    lemma_target, lemma_within_has_id, target_hi, target_lo, is_tree, kids, lemma_contents_sorted,
    lemma_has_id_concat, lemma_height, lemma_locate, lemma_pages_after_read,
    lemma_pages_after_write, lemma_select_keeps, lemma_span_pages, lemma_structure_keeps, low,
    page_of, pages, rows_of, target, tree, within,
};
use super::{PageError, StorageError};

verus! {

/// The tree of a pager is well formed, and no page of the free list is a
/// page of the tree or the metadata page.
pub open spec fn sound(s: PagerView, h: nat) -> bool {
    &&& is_tree(s, h)
    &&& forall|i: int|
        0 <= i < s.meta.free.len() ==> (#[trigger] s.meta.free[i]) != 0 && !in_span(
            pages(s),
            s.meta.root,
            h,
            s.meta.free[i],
        )
}

/// A select and a drawing of the structure leave a sound tree sound, with
/// the same rows.
pub proof fn lemma_reading_keeps_sound(s: PagerView, h: nat)
    requires
        sound(s, h),
    ensures
        sound(tree_select(s).0, h),
        rows_of(tree_select(s).0, h) == rows_of(s, h),
        sound(tree_structure(s).0, h),
        rows_of(tree_structure(s).0, h) == rows_of(s, h),
{
    lemma_select_keeps(s, h);
    lemma_structure_keeps(s, h);
}

/// A page can be allocated: one is free, or the file can grow.
pub open spec fn can_allocate(s: PagerView) -> bool {
    s.meta.free.len() > 0 || s.meta.pages < MAX_PAGES
}

/// The page that is allocated next.
pub open spec fn next_page(s: PagerView) -> usize {
    if s.meta.free.len() > 0 {
        s.meta.free.last()
    } else {
        s.meta.pages
    }
}

/// Allocating a page hands out the page that is next, takes it from the
/// free list or lets the file grow by it, and leaves all pages but this
/// one and the metadata page as they are.
#[verifier::rlimit(60)]
#[verifier::spinoff_prover]
pub proof fn lemma_allocate(s: PagerView)
    requires
        s.well_formed(),
        can_allocate(s),
    ensures
        s.allocate().1 == Ok::<usize, StorageError>(next_page(s)),
        s.allocate().0.well_formed(),
        s.allocate().0.meta.root == s.meta.root,
        s.allocate().0.meta.pages == (if s.meta.free.len() > 0 {
            s.meta.pages
        } else {
            (s.meta.pages + 1) as usize
        }),
        s.allocate().0.meta.free == (if s.meta.free.len() > 0 {
            s.meta.free.drop_last()
        } else {
            s.meta.free
        }),
        next_page(s) < s.allocate().0.meta.pages,
        forall|x: usize|
            x != 0 && x != next_page(s) ==> #[trigger] page_of(s.allocate().0, x) == page_of(s, x),
{
    let t = s.allocate().0;
    let id = next_page(s);
    if s.meta.free.len() > 0 {
        assert(s.meta.free[s.meta.free.len() - 1] < s.meta.pages);
        let m = MetaView { free: s.meta.free.drop_last(), ..s.meta };
        assert forall|i: int, j: int| 0 <= i < m.free.len() && 0 <= j < m.free.len() && i
            != j implies m.free[i] != m.free[j] by {
            assert(s.meta.free[i] != s.meta.free[j]);
        }
        assert forall|i: int| 0 <= i < m.free.len() implies (#[trigger] m.free[i]) < m.pages by {
            assert(s.meta.free[i] < s.meta.pages);
        }
        lemma_meta_round_trip(m);
    } else {
        let m = MetaView { pages: (s.meta.pages + 1) as usize, ..s.meta };
        assert forall|i: int| 0 <= i < m.free.len() implies (#[trigger] m.free[i]) < m.pages by {
            assert(s.meta.free[i] < s.meta.pages);
        }
        lemma_meta_round_trip(m);
    }
    assert forall|k: usize| #[trigger] t.cache.contains_key(k) implies k < t.meta.pages
        && t.cache[k].len() == super::page::PAGE_SIZE by {
        if k != id && k != 0 {
            assert(s.cache.contains_key(k));
        }
    }
}

/// Making a page the root changes the root and the metadata page alone.
#[verifier::rlimit(60)]
#[verifier::spinoff_prover]
pub proof fn lemma_set_root(s: PagerView, root: usize)
    requires
        s.well_formed(),
    ensures
        s.set_root(root).well_formed(),
        s.set_root(root).meta == (MetaView { root, ..s.meta }),
        forall|x: usize| x != 0 ==> #[trigger] page_of(s.set_root(root), x) == page_of(s, x),
{
    let m = MetaView { root, ..s.meta };
    lemma_meta_round_trip(m);
    let t = s.set_root(root);
    assert forall|k: usize| #[trigger] t.cache.contains_key(k) implies k < t.meta.pages
        && t.cache[k].len() == super::page::PAGE_SIZE by {
        if k != 0 {
            assert(s.cache.contains_key(k));
        }
    }
}

/// The leaf that takes the row when a leaf is split.
pub open spec fn lower_part(leaf: PageView, row: RowView) -> Result<PageView, PageError> {
    if row.id() >= upper_half(leaf).rows[0].id() {
        Ok(lower_half(leaf))
    } else {
        lower_half(leaf).insert(row)
    }
}

/// The new leaf when a leaf is split.
pub open spec fn upper_part(leaf: PageView, row: RowView) -> Result<PageView, PageError> {
    if row.id() >= upper_half(leaf).rows[0].id() {
        upper_half(leaf).insert(row)
    } else {
        Ok(upper_half(leaf))
    }
}

/// The halves of a split leaf with the row in one of them are well-formed
/// leaves; the keys of the lower one are below the first key of the upper
/// half, the keys of the upper one are not; together they hold the keys
/// of the leaf and the key of the row.
#[verifier::rlimit(60)]
#[verifier::spinoff_prover]
pub proof fn lemma_parts(leaf: PageView, row: RowView, lo: int, hi: int)
    requires
        leaf.well_formed(),
        leaf.kind == PageType::Leaf,
        leaf.rows.len() > 0,
        row.kind() == RowType::Leaf,
        within(leaf.rows, lo, hi),
        lo <= row.id() < hi,
        lower_part(leaf, row) is Ok,
        upper_part(leaf, row) is Ok,
    ensures
        lower_part(leaf, row)->Ok_0.well_formed(),
        upper_part(leaf, row)->Ok_0.well_formed(),
        lower_part(leaf, row)->Ok_0.kind == PageType::Leaf,
        upper_part(leaf, row)->Ok_0.kind == PageType::Leaf,
        lower_part(leaf, row)->Ok_0.parent == leaf.parent,
        upper_part(leaf, row)->Ok_0.parent == leaf.parent,
        lo <= upper_half(leaf).rows[0].id() < hi,
        within(lower_part(leaf, row)->Ok_0.rows, lo, upper_half(leaf).rows[0].id() as int),
        within(upper_part(leaf, row)->Ok_0.rows, upper_half(leaf).rows[0].id() as int, hi),
        forall|id: usize|
            (has_id(lower_part(leaf, row)->Ok_0.rows, id) || has_id(
                upper_part(leaf, row)->Ok_0.rows,
                id,
            )) <==> (has_id(leaf.rows, id) || id == row.id()),
{
    let low_page = lower_half(leaf);
    let up_page = upper_half(leaf);
    let sep = up_page.rows[0].id();
    super::btree::lemma_split_parts(leaf, 0, 0);
    assert(separator(leaf, 0, 0).id() == sep);
    assert(up_page.rows[0] == leaf.rows[(leaf.rows.len() / 2) as int]);
    assert(lo <= sep < hi);
    let a = lower_part(leaf, row)->Ok_0;
    let b = upper_part(leaf, row)->Ok_0;
    assert(within(low_page.rows, lo, sep as int)) by {
        assert forall|i: int| 0 <= i < low_page.rows.len() implies lo <= (
        #[trigger] low_page.rows[i]).id() < sep by {
            assert(low_page.rows[i] == leaf.rows[i]);
        }
    }
    assert(within(up_page.rows, sep as int, hi)) by {
        assert forall|i: int| 0 <= i < up_page.rows.len() implies sep <= (
        #[trigger] up_page.rows[i]).id() < hi by {
            assert(up_page.rows[i] == leaf.rows[(leaf.rows.len() / 2) as int + i]);
        }
    }
    if row.id() >= sep {
        lemma_insert_keys(up_page, row, row.id());
        assert forall|i: int| 0 <= i < b.rows.len() implies sep <= (#[trigger] b.rows[i]).id()
            < hi by {
            let k = b.rows[i].id();
            lemma_insert_keys(up_page, row, k);
            assert(has_id(b.rows, k));
            if has_id(up_page.rows, k) {
                super::shape::lemma_within_has_id(up_page.rows, sep as int, hi, k);
            }
        }
    } else {
        lemma_insert_keys(low_page, row, row.id());
        assert forall|i: int| 0 <= i < a.rows.len() implies lo <= (#[trigger] a.rows[i]).id()
            < sep by {
            let k = a.rows[i].id();
            lemma_insert_keys(low_page, row, k);
            assert(has_id(a.rows, k));
            if has_id(low_page.rows, k) {
                super::shape::lemma_within_has_id(low_page.rows, lo, sep as int, k);
            }
        }
    }
    assert forall|id: usize|
        (has_id(a.rows, id) || has_id(b.rows, id)) <==> (has_id(leaf.rows, id) || id
            == row.id()) by {
        lemma_has_id_concat(low_page.rows, up_page.rows, id);
        if row.id() >= sep {
            lemma_insert_keys(up_page, row, id);
        } else {
            lemma_insert_keys(low_page, row, id);
        }
    }
}

/// What the split of a leaf does to the pages: the leaf keeps the lower
/// part, the page that is allocated takes the upper part, the pointer
/// that is returned carries the first key of the upper half and points to
/// both, and all other pages but the metadata page are as they were.
#[verifier::rlimit(80)]
#[verifier::spinoff_prover]
pub proof fn lemma_split_leaf(s: PagerView, id: usize, leaf: PageView, row: RowView)
    requires
        s.well_formed(),
        0 < id < s.meta.pages,
        page_of(s, id) == Some(leaf),
        leaf.kind == PageType::Leaf,
        leaf.parent is Some,
        leaf.rows.len() > 0,
        row.kind() == RowType::Leaf,
        can_allocate(s),
        next_page(s) != id,
        next_page(s) != 0,
        lower_part(leaf, row) is Ok,
        upper_part(leaf, row) is Ok,
        lower_part(leaf, row)->Ok_0.well_formed(),
        upper_part(leaf, row)->Ok_0.well_formed(),
    ensures
        split_node(s, id, row).1 == Ok::<RowView, StorageError>(
            RowView::Internal { id: upper_half(leaf).rows[0].id(), left: id, right: next_page(s) },
        ),
        split_node(s, id, row).0.well_formed(),
        split_node(s, id, row).0.meta == s.allocate().0.meta,
        page_of(split_node(s, id, row).0, id) == Some(lower_part(leaf, row)->Ok_0),
        page_of(split_node(s, id, row).0, next_page(s)) == Some(upper_part(leaf, row)->Ok_0),
        forall|x: usize|
            x != 0 && x != id && x != next_page(s) ==> #[trigger] page_of(
                split_node(s, id, row).0,
                x,
            ) == page_of(s, x),
{
    let right = next_page(s);
    lemma_pages_after_read(s, id);
    let s1 = s.read(id).0;
    assert(s.read(id).1 == Ok::<PageView, StorageError>(leaf));
    assert forall|x: usize| #[trigger] page_of(s1, x) == page_of(s, x) by {
        super::pager::lemma_read_keeps(s, id, x);
    }
    assert(can_allocate(s1) && next_page(s1) == right);
    lemma_allocate(s1);
    let s2 = s1.allocate().0;
    assert(s2.meta == s.allocate().0.meta);
    let a = lower_part(leaf, row)->Ok_0;
    let b = upper_part(leaf, row)->Ok_0;
    assert(move_children(s2, leaf.kind, upper_half(leaf).rows, right) == (
        s2,
        Ok::<(), StorageError>(()),
    ));
    assert(move_children(s2, upper_half(leaf).kind, seq![row], right) == (
        s2,
        Ok::<(), StorageError>(()),
    ));
    lemma_pages_after_write(s2, id, a);
    let s3 = s2.write(id, a).0;
    lemma_pages_after_write(s3, right, b);
    let s4 = s3.write(right, b).0;
    assert(write_halves(s2, id, a, right, b) == (s4, Ok::<(), StorageError>(())));
    assert(place(s2, row, lower_half(leaf), upper_half(leaf), id, right) == (
        s4,
        Ok::<(), StorageError>(()),
    ));
    assert(split_page(s2, id, leaf, right, row) == (
        s4,
        Ok::<RowView, StorageError>(separator(leaf, id, right)),
    ));
    assert(split_node(s, id, row) == split_page(s2, id, leaf, right, row));
    assert(pages(s4) == pages(s2).insert(id, a).insert(right, b));
    assert forall|x: usize| x != 0 && x != id && x != right implies #[trigger] page_of(s4, x)
        == page_of(s, x) by {
        assert(page_of(s2, x) == page_of(s1, x));
        assert(pages(s4).contains_key(x) == pages(s2).contains_key(x));
        if pages(s2).contains_key(x) {
            assert(pages(s4)[x] == pages(s2)[x]);
        }
    }
    assert(pages(s4).contains_key(id) && pages(s4)[id] == a);
    assert(pages(s4).contains_key(right) && pages(s4)[right] == b);
    assert(page_of(s4, id) is Some && page_of(s4, id)->0 == a);
    assert(page_of(s4, right) is Some && page_of(s4, right)->0 == b);
}

/// The root over the halves of a split root: one pointer.
pub open spec fn new_root(leaf: PageView, left: usize, right: usize) -> PageView {
    PageView {
        kind: PageType::Internal,
        parent: None,
        rows: seq![
            RowView::Internal { id: upper_half(leaf).rows[0].id(), left, right },
        ],
    }
}

/// What the split of a root leaf does to the pages: a page that is
/// allocated becomes the root, with one pointer; the leaf keeps the lower
/// part and a second page that is allocated takes the upper part, both
/// under the new root; all other pages but the metadata page are as they
/// were.
#[verifier::rlimit(100)]
#[verifier::spinoff_prover]
pub proof fn lemma_split_root_leaf(s: PagerView, leaf: PageView, row: RowView)
    requires
        s.well_formed(),
        0 < s.meta.root < s.meta.pages,
        page_of(s, s.meta.root) == Some(leaf),
        leaf.well_formed(),
        leaf.kind == PageType::Leaf,
        leaf.rows.len() > 0,
        row.kind() == RowType::Leaf,
        can_allocate(s),
        can_allocate(s.allocate().0),
        next_page(s) != 0 && next_page(s) != s.meta.root,
        next_page(s.allocate().0) != 0 && next_page(s.allocate().0) != s.meta.root,
        next_page(s.allocate().0) != next_page(s),
        lower_part(leaf, row) is Ok,
        upper_part(leaf, row) is Ok,
        lower_part(leaf, row)->Ok_0.well_formed(),
        upper_part(leaf, row)->Ok_0.well_formed(),
    ensures
        split_root(s, s.meta.root, row).1 is Ok,
        split_root(s, s.meta.root, row).0.well_formed(),
        split_root(s, s.meta.root, row).0.meta == (MetaView {
            root: next_page(s),
            ..s.allocate().0.allocate().0.meta
        }),
        page_of(split_root(s, s.meta.root, row).0, next_page(s)) == Some(
            new_root(leaf, s.meta.root, next_page(s.allocate().0)),
        ),
        page_of(split_root(s, s.meta.root, row).0, s.meta.root) == Some(
            (lower_part(leaf, row)->Ok_0).with_parent(Some(next_page(s))),
        ),
        page_of(split_root(s, s.meta.root, row).0, next_page(s.allocate().0)) == Some(
            (upper_part(leaf, row)->Ok_0).with_parent(Some(next_page(s))),
        ),
        forall|x: usize|
            x != 0 && x != s.meta.root && x != next_page(s) && x != next_page(s.allocate().0)
                ==> #[trigger] page_of(split_root(s, s.meta.root, row).0, x) == page_of(s, x),
{
    let cur = s.meta.root;
    let top = next_page(s);
    lemma_allocate(s);
    let s1 = s.allocate().0;
    let right = next_page(s1);
    // the leaf is put under the new root
    assert(page_of(s1, cur) == Some(leaf));
    lemma_pages_after_read(s1, cur);
    let s1r = s1.read(cur).0;
    assert(s1.read(cur).1 == Ok::<PageView, StorageError>(leaf));
    assert forall|x: usize| #[trigger] page_of(s1r, x) == page_of(s1, x) by {
        super::pager::lemma_read_keeps(s1, cur, x);
    }
    let moved = leaf.with_parent(Some(top));
    lemma_pages_after_write(s1r, cur, moved);
    let s2 = s1r.write(cur, moved).0;
    assert(reparent(s1, cur, top) == (s2, Ok::<(), StorageError>(())));
    assert(pages(s2).contains_key(cur) && pages(s2)[cur] == moved);
    assert(page_of(s2, cur) == Some(moved));
    // the leaf is split
    assert(s2.meta == s1.meta);
    assert(lower_part(moved, row)->Ok_0 == (lower_part(leaf, row)->Ok_0).with_parent(Some(top)));
    assert(upper_part(moved, row)->Ok_0 == (upper_part(leaf, row)->Ok_0).with_parent(Some(top)));
    lemma_split_leaf(s2, cur, moved, row);
    let s3 = split_node(s2, cur, row).0;
    let pointer = RowView::Internal { id: upper_half(leaf).rows[0].id(), left: cur, right };
    assert(upper_half(moved).rows == upper_half(leaf).rows);
    // the new root is written and made the root
    let above = new_root(leaf, cur, right);
    assert(above.well_formed()) by {
        super::page::lemma_total_size_one(pointer);
    }
    assert(s3.meta == s1.allocate().0.meta);
    lemma_allocate(s1);
    lemma_pages_after_write(s3, top, above);
    let s4 = s3.write(top, above).0;
    lemma_set_root(s4, top);
    let s5 = s4.set_root(top);
    assert(split_root(s, cur, row) == (s5, Ok::<(), StorageError>(())));
    assert(pages(s4).contains_key(top) && pages(s4)[top] == above);
    assert(page_of(s4, top) == Some(above));
    assert(page_of(s4, cur) == page_of(s3, cur)) by {
        assert(pages(s4).contains_key(cur) == pages(s3).contains_key(cur));
        if pages(s3).contains_key(cur) {
            assert(pages(s4)[cur] == pages(s3)[cur]);
        }
    }
    assert(page_of(s4, right) == page_of(s3, right)) by {
        assert(pages(s4).contains_key(right) == pages(s3).contains_key(right));
        if pages(s3).contains_key(right) {
            assert(pages(s4)[right] == pages(s3)[right]);
        }
    }
    assert forall|x: usize|
        x != 0 && x != cur && x != top && x != right implies #[trigger] page_of(s5, x) == page_of(
        s,
        x,
    ) by {
        assert(page_of(s5, x) == page_of(s4, x));
        assert(pages(s4).contains_key(x) == pages(s3).contains_key(x));
        if pages(s3).contains_key(x) {
            assert(pages(s4)[x] == pages(s3)[x]);
        }
        assert(page_of(s4, x) == page_of(s3, x));
        assert(page_of(s3, x) == page_of(s2, x));
        assert(pages(s2).contains_key(x) == pages(s1r).contains_key(x));
        if pages(s1r).contains_key(x) {
            assert(pages(s2)[x] == pages(s1r)[x]);
        }
        assert(page_of(s2, x) == page_of(s1r, x));
        assert(page_of(s1, x) == page_of(s, x));
    }
}

/// The first split: an insert into a tree that is a single leaf without
/// room for the row gives a tree of height 1. The new root holds one
/// pointer, which carries the first key of the right leaf; the left leaf
/// is the old root; both leaves name the new root as their parent. The
/// tree holds the rows that the leaf held, each as it was, and the new
/// row, in strictly growing key order.
#[verifier::rlimit(100)]
#[verifier::spinoff_prover]
pub proof fn lemma_first_split(s: PagerView, row: RowView)
    requires
        sound(s, 0),
        row.kind() == RowType::Leaf,
        pages(s)[s.meta.root].insert(row) == Err::<PageView, PageError>(PageError::Full),
        pages(s)[s.meta.root].rows.len() > 0,
        lower_part(pages(s)[s.meta.root], row) is Ok,
        upper_part(pages(s)[s.meta.root], row) is Ok,
        can_allocate(s),
        can_allocate(s.allocate().0),
    ensures
        tree_insert(s, row).1 is Ok,
        sound(tree_insert(s, row).0, 1),
        tree_insert(s, row).0.meta.root == next_page(s),
        pages(tree_insert(s, row).0)[next_page(s)] == new_root(
            pages(s)[s.meta.root],
            s.meta.root,
            next_page(s.allocate().0),
        ),
        pages(tree_insert(s, row).0)[s.meta.root].parent == Some(next_page(s)),
        pages(tree_insert(s, row).0)[next_page(s.allocate().0)].parent == Some(next_page(s)),
        forall|id: usize|
            has_id(rows_of(tree_insert(s, row).0, 1), id) <==> (has_id(rows_of(s, 0), id) || id
                == row.id()),
        ids_increasing(rows_of(tree_insert(s, row).0, 1)),
        rows_of(tree_insert(s, row).0, 1) == (lower_part(pages(s)[s.meta.root], row)->Ok_0).rows
            + (upper_part(pages(s)[s.meta.root], row)->Ok_0).rows,
        forall|r: RowView|
            #![trigger rows_of(tree_insert(s, row).0, 1).contains(r)]
            #![trigger rows_of(s, 0).contains(r)]
            rows_of(tree_insert(s, row).0, 1).contains(r) <==> (rows_of(s, 0).contains(r) || r
                == row),
{
    let m = pages(s);
    let cur = s.meta.root;
    let leaf = m[cur];
    let n = s.meta.pages;
    let full = usize::MAX + 1;
    let key = row.id();
    assert(page_of(s, cur) == Some(leaf));
    // the descent ends in the root
    lemma_locate(s, cur, 0, 0, full, None, key, Seq::empty(), n as nat);
    let s0 = locate(s, cur, key, Seq::empty(), n as nat).0;
    assert(page_of(s0, cur) == Some(leaf)) by {
        assert(pages(s0).contains_key(cur));
    }
    assert(s0.allocate().0.meta == s.allocate().0.meta);
    let top = next_page(s);
    let right = next_page(s.allocate().0);
    lemma_allocate(s);
    lemma_allocate(s.allocate().0);
    assert(top != 0 && top != cur) by {
        if s.meta.free.len() > 0 {
            assert(s.meta.free[s.meta.free.len() - 1] == top);
            assert(in_span(m, cur, 0, cur));
        }
    }
    assert(right != 0 && right != cur && right != top) by {
        let f = s.allocate().0.meta.free;
        if f.len() > 0 {
            assert(f[f.len() - 1] == right);
            assert(s.meta.free[f.len() - 1] == right);
            assert(s.meta.free[s.meta.free.len() - 1] == top);
            assert(in_span(m, cur, 0, cur));
        }
    }
    lemma_parts(leaf, row, 0, full);
    let a = lower_part(leaf, row)->Ok_0;
    let b = upper_part(leaf, row)->Ok_0;
    lemma_split_root_leaf(s0, leaf, row);
    let t = tree_insert(s, row).0;
    assert(tree_insert(s, row) == tree_split(s0, cur, row, 0));
    assert(tree_split(s0, cur, row, 0) == split_root(s0, cur, row));
    let u = pages(t);
    let above = new_root(leaf, cur, right);
    let lower = a.with_parent(Some(top));
    let upper = b.with_parent(Some(top));
    assert(u.contains_key(top) && u[top] == above);
    assert(u.contains_key(cur) && u[cur] == lower);
    assert(u.contains_key(right) && u[right] == upper);
    let sep = upper_half(leaf).rows[0].id();
    let count = t.meta.pages;
    assert(top < count && right < count && cur < count);
    // the new root is a tree of height 1
    assert(child(above.rows, 0) == cur);
    assert(child(above.rows, 1) == right);
    assert(tree(u, count, cur, 0, 0, sep as int, Some(top)));
    assert(tree(u, count, right, 0, sep as int, full, Some(top)));
    assert(linked(above.rows));
    assert forall|i: int| 0 <= i <= above.rows.len() implies tree(
        u,
        count,
        #[trigger] child(above.rows, i),
        0,
        low(above.rows, i, 0),
        high(above.rows, i, full),
        Some(top),
    ) by {
        if i == 0 {
        } else {
            assert(i == 1);
        }
    }
    assert forall|i: int, j: int| 0 <= i < j <= above.rows.len() implies super::shape::apart(
        u,
        #[trigger] child(above.rows, i),
        #[trigger] child(above.rows, j),
        0,
    ) by {
        assert(i == 0 && j == 1);
    }
    assert forall|i: int| 0 <= i <= above.rows.len() implies !in_span(
        u,
        #[trigger] child(above.rows, i),
        0,
        top,
    ) by {
        if i != 0 {
            assert(i == 1);
        }
    }
    assert(above.well_formed()) by {
        super::page::lemma_total_size_one(above.rows[0]);
    }
    assert forall|i: int| 0 <= i < above.rows.len() implies 0 <= (#[trigger] above.rows[i]).id()
        < full by {
        assert(above.rows[i].id() == sep);
    }
    assert(above.kind == PageType::Internal && above.rows.len() > 0);
    assert(0 < top < count);
    assert(tree(u, count, top, 1, 0, full, None));
    // the free pages are no pages of the tree
    assert forall|i: int| 0 <= i < t.meta.free.len() implies (#[trigger] t.meta.free[i]) != 0
        && !in_span(u, top, 1, t.meta.free[i]) by {
        let x = t.meta.free[i];
        assert(s.meta.free[i] == x);
        assert(in_span(m, cur, 0, cur));
        if in_span(u, top, 1, x) && x != top {
            let c = choose|c: int|
                0 <= c <= above.rows.len() && in_span(u, #[trigger] child(above.rows, c), 0, x);
            if c != 0 {
                assert(c == 1);
            }
        }
        if s.meta.free.len() > 0 {
            assert(s.meta.free[s.meta.free.len() - 1] == top);
            let f = s.allocate().0.meta.free;
            if f.len() > 0 {
                assert(s.meta.free[f.len() - 1] == right);
            }
        }
    }
    // the rows of the tree
    assert(rows_of(t, 1) =~= a.rows + b.rows) by {
        assert(kids(u, above.rows, 0, 0) =~= Seq::<RowView>::empty());
        assert(kids(u, above.rows, 1, 0) =~= contents(u, cur, 0));
        assert(kids(u, above.rows, 2, 0) =~= kids(u, above.rows, 1, 0) + contents(u, right, 0));
    }
    assert forall|id: usize|
        has_id(rows_of(t, 1), id) <==> (has_id(rows_of(s, 0), id) || id == key) by {
        lemma_has_id_concat(a.rows, b.rows, id);
    }
    lemma_contents_sorted(u, count, top, 1, 0, full, None);
    assert forall|r: RowView|
        #![trigger rows_of(tree_insert(s, row).0, 1).contains(r)]
        #![trigger rows_of(s, 0).contains(r)]
        rows_of(tree_insert(s, row).0, 1).contains(r) <==> (rows_of(s, 0).contains(r) || r
            == row) by {
        lemma_parts_rows(leaf, row, r);
        lemma_rows_concat(
            (lower_part(leaf, row)->Ok_0).rows,
            (upper_part(leaf, row)->Ok_0).rows,
            r,
        );
    }
}

/// The pointers of a parent after the pointer to the halves of its child
/// `b` was inserted: the new pointer stands at place `b`; the children in
/// front of it and child `b` itself are as before, the new page follows
/// child `b`, and the children behind follow one place later; the bounds
/// of the children are as before, but that the separator parts the bounds
/// of child `b` between the halves.
#[verifier::rlimit(100)]
#[verifier::spinoff_prover]
pub proof fn lemma_pointer_added(rows: Seq<RowView>, b: int, pointer: RowView, lo: int, hi: int)
    requires
        ids_increasing(rows),
        linked(rows),
        all_of_kind(rows, RowType::Internal),
        rows.len() > 0,
        within(rows, lo, hi),
        0 <= b <= rows.len(),
        pointer.kind() == RowType::Internal,
        pointer.left() == child(rows, b),
        low(rows, b, lo) <= pointer.id() < high(rows, b, hi),
        !has_id(rows, pointer.id()),
    ensures
        slot(rows, pointer.id()) == b,
        relink(rows.insert(b, pointer), b).len() == rows.len() + 1,
        linked(relink(rows.insert(b, pointer), b)),
        ids_increasing(relink(rows.insert(b, pointer), b)),
        within(relink(rows.insert(b, pointer), b), lo, hi),
        forall|i: int|
            0 <= i <= b ==> #[trigger] child(relink(rows.insert(b, pointer), b), i) == child(
                rows,
                i,
            ) && low(relink(rows.insert(b, pointer), b), i, lo) == low(rows, i, lo),
        forall|i: int|
            0 <= i < b ==> #[trigger] high(relink(rows.insert(b, pointer), b), i, hi) == high(
                rows,
                i,
                hi,
            ),
        high(relink(rows.insert(b, pointer), b), b, hi) == pointer.id(),
        child(relink(rows.insert(b, pointer), b), b + 1) == pointer.right(),
        low(relink(rows.insert(b, pointer), b), b + 1, lo) == pointer.id(),
        high(relink(rows.insert(b, pointer), b), b + 1, hi) == high(rows, b, hi),
        forall|i: int|
            b + 2 <= i <= rows.len() + 1 ==> #[trigger] child(
                relink(rows.insert(b, pointer), b),
                i,
            ) == child(rows, i - 1) && low(relink(rows.insert(b, pointer), b), i, lo) == low(
                rows,
                i - 1,
                lo,
            ) && high(relink(rows.insert(b, pointer), b), i, hi) == high(rows, i - 1, hi),
{
    let key = pointer.id();
    let n = rows.len() as int;
    assert(is_slot(rows, key, b)) by {
        assert forall|i: int| 0 <= i < b implies (#[trigger] rows[i]).id() < key by {
            assert(rows[b - 1].id() == low(rows, b, lo));
            if i < b - 1 {
                assert(rows[i].id() < rows[b - 1].id());
            }
            assert(rows[i].id() != key);
        }
        assert forall|i: int| b <= i < n implies (#[trigger] rows[i]).id() >= key by {
            assert(rows[b].id() == high(rows, b, hi));
            if i > b {
                assert(rows[b].id() < rows[i].id());
            }
        }
    }
    lemma_slot(rows, key, b);
    let ins = rows.insert(b, pointer);
    let out = relink(ins, b);
    lemma_relink(ins, b);
    lemma_insert_keeps_links(rows, b, pointer);
    assert forall|i: int, j: int| 0 <= i < j < ins.len() implies ins[i].id() < ins[j].id() by {
        if j < b {
        } else if j == b {
            assert(rows[i].id() < key);
        } else if i == b {
            assert(rows[j - 1].id() >= key);
            assert(rows[j - 1].id() != key);
        } else if i < b {
            assert(rows[i].id() < rows[j - 1].id());
        } else {
            assert(rows[i - 1].id() < rows[j - 1].id());
        }
    }
    assert forall|i: int| 0 <= i < out.len() implies lo <= (#[trigger] out[i]).id() < hi by {
        assert(out[i].id() == ins[i].id());
        if i < b {
            assert(lo <= rows[i].id() < hi);
        } else if i > b {
            assert(lo <= rows[i - 1].id() < hi);
        } else {
            if b > 0 {
                assert(lo <= rows[b - 1].id() < hi);
            }
            if b < n {
                assert(lo <= rows[b].id() < hi);
            }
        }
    }
    assert forall|i: int| 0 <= i < n + 1 implies (#[trigger] out[i]).id() == ins[i].id() && (i
        != b - 1 ==> out[i].right() == ins[i].right()) && (i != b + 1 ==> out[i].left()
        == ins[i].left()) by {
        if i < b {
            assert(rows[i].kind() == RowType::Internal);
        } else if i > b {
            assert(rows[i - 1].kind() == RowType::Internal);
        }
    }
    if b > 0 {
        assert(rows[b - 1].kind() == RowType::Internal);
        assert(out[b - 1].right() == pointer.left());
    }
    if b < n {
        assert(rows[b].kind() == RowType::Internal);
        assert(out[b + 1].left() == pointer.right());
        assert(out[b + 1].right() == rows[b].right());
    }
    assert(out[b] == pointer);
    assert forall|i: int| 0 <= i <= b implies #[trigger] child(out, i) == child(rows, i) && low(
        out,
        i,
        lo,
    ) == low(rows, i, lo) by {
        if i == 0 {
            if b == 0 {
            } else {
                assert(out[0].left() == ins[0].left());
            }
        } else if i < b {
            assert(out[i - 1].right() == ins[i - 1].right());
        } else {
        }
    }
    assert forall|i: int| 0 <= i < b implies #[trigger] high(out, i, hi) == high(rows, i, hi) by {
        assert(out[i].id() == ins[i].id());
    }
    assert forall|i: int| b + 2 <= i <= n + 1 implies #[trigger] child(out, i) == child(
        rows,
        i - 1,
    ) && low(out, i, lo) == low(rows, i - 1, lo) && high(out, i, hi) == high(rows, i - 1, hi) by {
        assert(out[i - 1].id() == ins[i - 1].id());
        if i - 1 == b + 1 {
        } else {
            assert(out[i - 1].right() == ins[i - 1].right());
        }
        if i <= n {
            assert(out[i].id() == ins[i].id());
        }
    }
}

/// Some row of the first leaves carries a key exactly if some row of one
/// of these leaves does.
pub proof fn lemma_kids_has_id(
    m: Map<usize, PageView>,
    rows: Seq<RowView>,
    k: nat,
    id: usize,
)
    requires
        forall|i: int| 0 <= i < k ==> m.contains_key(#[trigger] child(rows, i)),
    ensures
        has_id(kids(m, rows, k, 0), id) <==> exists|i: int|
            0 <= i < k && has_id(m[#[trigger] child(rows, i)].rows, id),
    decreases k,
{
    if k > 0 {
        lemma_kids_has_id(m, rows, (k - 1) as nat, id);
        let first = kids(m, rows, (k - 1) as nat, 0);
        let last = contents(m, child(rows, k - 1), 0);
        assert(m.contains_key(child(rows, k - 1)));
        assert(last == m[child(rows, k - 1)].rows);
        lemma_has_id_concat(first, last, id);
        if exists|i: int| 0 <= i < k && has_id(m[#[trigger] child(rows, i)].rows, id) {
            let i = choose|i: int| 0 <= i < k && has_id(m[#[trigger] child(rows, i)].rows, id);
            if i < k - 1 {
                assert(0 <= i < k - 1 && has_id(m[child(rows, i)].rows, id));
            }
        }
        if has_id(first, id) {
            let i = choose|i: int|
                0 <= i < k - 1 && has_id(m[#[trigger] child(rows, i)].rows, id);
            assert(0 <= i < k && has_id(m[child(rows, i)].rows, id));
        }
    } else {
        assert(!has_id(kids(m, rows, 0, 0), id));
    }
}

/// The pointer to the halves of a leaf that is split, as the parent takes
/// it.
pub open spec fn pointer_for(leaf: PageView, left: usize, right: usize) -> RowView {
    RowView::Internal { id: upper_half(leaf).rows[0].id(), left, right }
}

/// What the split of a leaf under the root does to the pages: the leaf
/// keeps the lower part, a page that is allocated takes the upper part,
/// the root takes the pointer to both, and all other pages but the
/// metadata page are as they were.
#[verifier::rlimit(100)]
#[verifier::spinoff_prover]
pub proof fn lemma_split_under_root(
    s: PagerView,
    id: usize,
    leaf: PageView,
    above: PageView,
    row: RowView,
)
    requires
        s.well_formed(),
        0 < s.meta.root < s.meta.pages,
        0 < id < s.meta.pages,
        id != s.meta.root,
        page_of(s, id) == Some(leaf),
        page_of(s, s.meta.root) == Some(above),
        above.well_formed(),
        above.kind == PageType::Internal,
        leaf.kind == PageType::Leaf,
        leaf.parent == Some(s.meta.root),
        leaf.rows.len() > 0,
        row.kind() == RowType::Leaf,
        can_allocate(s),
        next_page(s) != id && next_page(s) != 0 && next_page(s) != s.meta.root,
        lower_part(leaf, row) is Ok,
        upper_part(leaf, row) is Ok,
        lower_part(leaf, row)->Ok_0.well_formed(),
        upper_part(leaf, row)->Ok_0.well_formed(),
        above.insert(pointer_for(leaf, id, next_page(s))) is Ok,
    ensures
        tree_split(s, id, row, 1).1 is Ok,
        tree_split(s, id, row, 1).0.well_formed(),
        tree_split(s, id, row, 1).0.meta == s.allocate().0.meta,
        page_of(tree_split(s, id, row, 1).0, id) == Some(lower_part(leaf, row)->Ok_0),
        page_of(tree_split(s, id, row, 1).0, next_page(s)) == Some(upper_part(leaf, row)->Ok_0),
        page_of(tree_split(s, id, row, 1).0, s.meta.root) == Some(
            above.insert(pointer_for(leaf, id, next_page(s)))->Ok_0,
        ),
        forall|x: usize|
            x != 0 && x != id && x != next_page(s) && x != s.meta.root ==> #[trigger] page_of(
                tree_split(s, id, row, 1).0,
                x,
            ) == page_of(s, x),
{
    let root = s.meta.root;
    let right = next_page(s);
    let pointer = pointer_for(leaf, id, right);
    lemma_pages_after_read(s, id);
    let s1 = s.read(id).0;
    assert(s.read(id).1 == Ok::<PageView, StorageError>(leaf));
    assert forall|x: usize| #[trigger] page_of(s1, x) == page_of(s, x) by {
        super::pager::lemma_read_keeps(s, id, x);
    }
    lemma_split_leaf(s1, id, leaf, row);
    let s2 = split_node(s1, id, row).0;
    assert(s1.allocate().0.meta == s.allocate().0.meta);
    lemma_allocate(s);
    assert(page_of(s2, root) == Some(above));
    lemma_pages_after_read(s2, root);
    let s3 = s2.read(root).0;
    assert(s2.read(root).1 == Ok::<PageView, StorageError>(above));
    assert forall|x: usize| #[trigger] page_of(s3, x) == page_of(s2, x) by {
        super::pager::lemma_read_keeps(s2, root, x);
    }
    let grown = above.insert(pointer)->Ok_0;
    lemma_insert_keys(above, pointer, pointer.id());
    lemma_pages_after_write(s3, root, grown);
    let s4 = s3.write(root, grown).0;
    assert(tree_split(s, id, row, 1) == s3.write(root, grown));
    assert(pages(s4).contains_key(root) && pages(s4)[root] == grown);
    assert forall|x: usize| x != root implies #[trigger] page_of(s4, x) == page_of(s3, x) by {
        assert(pages(s4).contains_key(x) == pages(s3).contains_key(x));
        if pages(s3).contains_key(x) {
            assert(pages(s4)[x] == pages(s3)[x]);
        }
    }
}

/// The pages `u` come from the tree of height 1 in the pages `m` by the
/// split of its leaf `b`: the root has taken the pointer to the halves,
/// the leaf holds the lower part, the new page `right` holds the upper
/// part, and the other pages of the tree are as they were.
pub open spec fn grown_from(
    m: Map<usize, PageView>,
    u: Map<usize, PageView>,
    n: usize,
    count: usize,
    root: usize,
    b: int,
    right: usize,
    sep: usize,
) -> bool {
    let rows = m[root].rows;
    let cur = child(rows, b);
    let pointer = RowView::Internal { id: sep, left: cur, right };
    &&& tree(m, n, root, 1, 0, usize::MAX + 1, None)
    &&& 0 <= b <= rows.len()
    &&& n <= count
    &&& 0 < right < count
    &&& !in_span(m, root, 1, right)
    &&& low(rows, b, 0) <= sep < high(rows, b, usize::MAX + 1)
    &&& m[root].insert(pointer) is Ok
    &&& u.contains_key(root) && u[root] == m[root].insert(pointer)->Ok_0
    &&& u.contains_key(cur) && u.contains_key(right)
    &&& u[cur].well_formed() && u[right].well_formed()
    &&& u[cur].kind == PageType::Leaf && u[right].kind == PageType::Leaf
    &&& u[cur].parent == Some(root) && u[right].parent == Some(root)
    &&& within(u[cur].rows, low(rows, b, 0), sep as int)
    &&& within(u[right].rows, sep as int, high(rows, b, usize::MAX + 1))
    &&& forall|x: usize|
        x != cur && x != right && x != root && #[trigger] in_span(m, root, 1, x) ==> u.contains_key(
            x,
        ) && u[x] == m[x]
}

/// The children of the root after the split of leaf `b`: as before up to
/// leaf `b`, then the new page, then the others.
pub open spec fn old_place(b: int, i: int) -> int {
    if i <= b {
        i
    } else {
        i - 1
    }
}

/// After the split of a leaf under a root with room, the pages hold a
/// well-formed tree of height 1 under the same root, whose leaves are the
/// leaves of before with the new page behind the leaf that was split.
#[verifier::rlimit(100)]
#[verifier::spinoff_prover]
pub proof fn lemma_grown_tree(
    m: Map<usize, PageView>,
    u: Map<usize, PageView>,
    n: usize,
    count: usize,
    root: usize,
    b: int,
    right: usize,
    sep: usize,
)
    requires
        grown_from(m, u, n, count, root, b, right, sep),
    ensures
        tree(u, count, root, 1, 0, usize::MAX + 1, None),
        u[root].rows.len() == m[root].rows.len() + 1,
        forall|i: int|
            0 <= i <= u[root].rows.len() ==> #[trigger] child(u[root].rows, i) == (if i == b + 1 {
                right
            } else {
                child(m[root].rows, old_place(b, i))
            }),
        forall|i: int|
            0 <= i <= m[root].rows.len() ==> m.contains_key(#[trigger] child(m[root].rows, i)),
        forall|i: int|
            0 <= i <= m[root].rows.len() && i != b ==> u[#[trigger] child(m[root].rows, i)]
                == m[child(m[root].rows, i)],
{
    let full = usize::MAX + 1;
    let above = m[root];
    let rows = above.rows;
    let cur = child(rows, b);
    let pointer = RowView::Internal { id: sep, left: cur, right };
    let grown = above.insert(pointer)->Ok_0;
    let new = grown.rows;
    lemma_pointer_added(rows, b, pointer, 0, full);
    assert(new == relink(rows.insert(b, pointer), b));
    lemma_insert_keys(above, pointer, sep);
    assert(in_span(m, root, 1, root));
    assert forall|i: int| 0 <= i <= rows.len() implies m.contains_key(
        #[trigger] child(rows, i),
    ) && 0 < child(rows, i) < count && child(rows, i) != root && child(rows, i) != right by {
        let d = child(rows, i);
        assert(tree(m, n, d, 0, low(rows, i, 0), high(rows, i, full), Some(root)));
        assert(in_span(m, d, 0, d));
        assert(!in_span(m, child(rows, i), 0, root));
        super::shape::lemma_span_child(m, root, 1, i, d);
    }
    assert forall|i: int| 0 <= i <= rows.len() && i != b implies u.contains_key(
        #[trigger] child(rows, i),
    ) && u[child(rows, i)] == m[child(rows, i)] && child(rows, i) != cur by {
        let d = child(rows, i);
        assert(in_span(m, d, 0, d));
        assert(in_span(m, cur, 0, cur));
        if i < b {
            assert(apart(m, child(rows, i), child(rows, b), 0));
        } else {
            assert(apart(m, child(rows, b), child(rows, i), 0));
        }
        super::shape::lemma_span_child(m, root, 1, i, d);
    }
    assert forall|i: int| 0 <= i <= new.len() implies #[trigger] child(new, i) == (if i == b + 1 {
        right
    } else {
        child(rows, old_place(b, i))
    }) by {
        if i <= b {
            assert(child(new, i) == child(rows, i));
        } else if i >= b + 2 {
            assert(child(new, i) == child(rows, i - 1));
        }
    }
    assert forall|i: int| 0 <= i <= new.len() implies tree(
        u,
        count,
        #[trigger] child(new, i),
        0,
        low(new, i, 0),
        high(new, i, full),
        Some(root),
    ) by {
        if i < b {
            assert(child(new, i) == child(rows, i));
            assert(tree(m, n, child(rows, i), 0, low(rows, i, 0), high(rows, i, full), Some(root)));
            assert(high(new, i, full) == high(rows, i, full));
            assert(low(new, i, 0) == low(rows, i, 0));
        } else if i == b {
            assert(child(new, i) == child(rows, i));
            assert(low(new, i, 0) == low(rows, i, 0));
        } else if i == b + 1 {
        } else {
            assert(child(new, i) == child(rows, i - 1));
            assert(tree(
                m,
                n,
                child(rows, i - 1),
                0,
                low(rows, i - 1, 0),
                high(rows, i - 1, full),
                Some(root),
            ));
        }
    }
    assert forall|i: int, j: int| 0 <= i < j <= new.len() implies apart(
        u,
        #[trigger] child(new, i),
        #[trigger] child(new, j),
        0,
    ) by {
        let x = old_place(b, i);
        let y = old_place(b, j);
        assert(child(new, i) == (if i == b + 1 { right } else { child(rows, x) }));
        assert(child(new, j) == (if j == b + 1 { right } else { child(rows, y) }));
        if i != b + 1 && j != b + 1 {
            assert(apart(m, child(rows, x), child(rows, y), 0));
            assert(in_span(m, child(rows, x), 0, child(rows, x)));
        } else if i == b + 1 {
            assert(child(rows, y) != right);
        } else {
            assert(child(rows, x) != right);
        }
    }
    assert forall|i: int| 0 <= i <= new.len() implies !in_span(
        u,
        #[trigger] child(new, i),
        0,
        root,
    ) by {
        let x = old_place(b, i);
        assert(child(new, i) == (if i == b + 1 { right } else { child(rows, x) }));
        assert(child(rows, x) != root);
    }
    assert(0 < root < count);
    assert(grown.kind == PageType::Internal && new.len() > 0);
}

/// After the split of a leaf under a root with room, the tree holds the
/// keys of the leaves of before, but that the keys of the leaf that was
/// split are those of the two parts.
#[verifier::rlimit(100)]
#[verifier::spinoff_prover]
pub proof fn lemma_grown_keys(
    m: Map<usize, PageView>,
    u: Map<usize, PageView>,
    n: usize,
    count: usize,
    root: usize,
    b: int,
    right: usize,
    sep: usize,
    id: usize,
)
    requires
        grown_from(m, u, n, count, root, b, right, sep),
    ensures
        has_id(contents(u, root, 1), id) <==> (has_id(u[child(m[root].rows, b)].rows, id) || has_id(
            u[right].rows,
            id,
        ) || exists|j: int|
            0 <= j <= m[root].rows.len() && j != b && has_id(
                m[#[trigger] child(m[root].rows, j)].rows,
                id,
            )),
        has_id(contents(m, root, 1), id) <==> (has_id(m[child(m[root].rows, b)].rows, id)
            || exists|j: int|
            0 <= j <= m[root].rows.len() && j != b && has_id(
                m[#[trigger] child(m[root].rows, j)].rows,
                id,
            )),
{
    let rows = m[root].rows;
    let new = u[root].rows;
    let cur = child(rows, b);
    lemma_grown_tree(m, u, n, count, root, b, right, sep);
    assert forall|i: int| 0 <= i < new.len() + 1 implies u.contains_key(
        #[trigger] child(new, i),
    ) by {
        assert(tree(
            u,
            count,
            child(new, i),
            0,
            low(new, i, 0),
            high(new, i, usize::MAX + 1),
            Some(root),
        ));
    }
    lemma_kids_has_id(u, new, new.len() + 1, id);
    lemma_kids_has_id(m, rows, rows.len() + 1, id);
    if has_id(contents(u, root, 1), id) {
        let j = choose|j: int|
            0 <= j < new.len() + 1 && has_id(u[#[trigger] child(new, j)].rows, id);
        let y = old_place(b, j);
        assert(child(new, j) == (if j == b + 1 { right } else { child(rows, y) }));
        if j != b && j != b + 1 {
            assert(0 <= y <= rows.len() && y != b && has_id(m[child(rows, y)].rows, id));
        }
    }
    if exists|j: int|
        0 <= j <= rows.len() && j != b && has_id(m[#[trigger] child(rows, j)].rows, id) {
        let j = choose|j: int|
            0 <= j <= rows.len() && j != b && has_id(m[#[trigger] child(rows, j)].rows, id);
        let y = if j < b { j } else { j + 1 };
        assert(child(new, y) == child(rows, old_place(b, y)));
        assert(0 <= y < new.len() + 1 && has_id(u[child(new, y)].rows, id));
        assert(0 <= j < rows.len() + 1);
    }
    if has_id(u[cur].rows, id) {
        assert(child(new, b) == cur);
        assert(0 <= b < new.len() + 1 && has_id(u[child(new, b)].rows, id));
    }
    if has_id(u[right].rows, id) {
        assert(child(new, b + 1) == right);
        assert(0 <= b + 1 < new.len() + 1 && has_id(u[child(new, b + 1)].rows, id));
    }
    if has_id(m[cur].rows, id) {
        assert(0 <= b < rows.len() + 1 && has_id(m[child(rows, b)].rows, id));
    }
    if has_id(contents(m, root, 1), id) {
        let j = choose|j: int|
            0 <= j < rows.len() + 1 && has_id(m[#[trigger] child(rows, j)].rows, id);
        if j != b {
            assert(0 <= j <= rows.len() && j != b && has_id(m[child(rows, j)].rows, id));
        }
    }
}

/// The leaf split of an insert, as a change of the pages: see
/// `lemma_leaf_split`.
#[verifier::rlimit(100)]
#[verifier::spinoff_prover]
pub proof fn lemma_leaf_split_pages(s: PagerView, row: RowView)
    requires
        sound(s, 1),
        row.kind() == RowType::Leaf,
        pages(s)[target(pages(s), s.meta.root, 1, row.id())].insert(row) == Err::<
            PageView,
            PageError,
        >(PageError::Full),
        pages(s)[target(pages(s), s.meta.root, 1, row.id())].rows.len() > 0,
        lower_part(pages(s)[target(pages(s), s.meta.root, 1, row.id())], row) is Ok,
        upper_part(pages(s)[target(pages(s), s.meta.root, 1, row.id())], row) is Ok,
        can_allocate(s),
        pages(s)[s.meta.root].insert(
            pointer_for(
                pages(s)[target(pages(s), s.meta.root, 1, row.id())],
                target(pages(s), s.meta.root, 1, row.id()),
                next_page(s),
            ),
        ) is Ok,
    ensures
        tree_insert(s, row).1 is Ok,
        tree_insert(s, row).0.well_formed(),
        tree_insert(s, row).0.meta == s.allocate().0.meta,
        target(pages(s), s.meta.root, 1, row.id()) == child(
            pages(s)[s.meta.root].rows,
            branch(pages(s)[s.meta.root].rows, row.id()),
        ),
        grown_from(
            pages(s),
            pages(tree_insert(s, row).0),
            s.meta.pages,
            tree_insert(s, row).0.meta.pages,
            s.meta.root,
            branch(pages(s)[s.meta.root].rows, row.id()),
            next_page(s),
            upper_half(pages(s)[target(pages(s), s.meta.root, 1, row.id())]).rows[0].id(),
        ),
        forall|id: usize|
            (has_id(
                pages(tree_insert(s, row).0)[target(pages(s), s.meta.root, 1, row.id())].rows,
                id,
            ) || has_id(pages(tree_insert(s, row).0)[next_page(s)].rows, id)) <==> (has_id(
                pages(s)[target(pages(s), s.meta.root, 1, row.id())].rows,
                id,
            ) || id == row.id()),
        pages(tree_insert(s, row).0)[target(pages(s), s.meta.root, 1, row.id())] == lower_part(
            pages(s)[target(pages(s), s.meta.root, 1, row.id())],
            row,
        )->Ok_0,
        pages(tree_insert(s, row).0)[next_page(s)] == upper_part(
            pages(s)[target(pages(s), s.meta.root, 1, row.id())],
            row,
        )->Ok_0,
{
    let m = pages(s);
    let root = s.meta.root;
    let n = s.meta.pages;
    let full = usize::MAX + 1;
    let key = row.id();
    let above = m[root];
    let rows = above.rows;
    let b = branch(rows, key);
    let cur = target(m, root, 1, key);
    let leaf = m[cur];
    let right = next_page(s);
    lemma_branch(rows, key, 0, full);
    assert(target(m, child(rows, b), 0, key) == child(rows, b));
    assert(cur == child(rows, b));
    let lo = low(rows, b, 0);
    let hi = high(rows, b, full);
    assert(tree(m, n, child(rows, b), 0, lo, hi, Some(root)));
    assert(in_span(m, cur, 0, cur));
    assert(!in_span(m, child(rows, b), 0, root));
    lemma_height(m, n, root, 1, 0, full, None);
    lemma_locate(s, root, 1, 0, full, None, key, Seq::empty(), n as nat);
    let s0 = locate(s, root, key, Seq::empty(), n as nat).0;
    assert(page_of(s0, cur) == Some(leaf) && page_of(s0, root) == Some(above)) by {
        assert(pages(s0).contains_key(cur) && pages(s0).contains_key(root));
    }
    lemma_allocate(s);
    assert(in_span(m, root, 1, cur)) by {
        super::shape::lemma_span_child(m, root, 1, b, cur);
    }
    assert(right != 0 && !in_span(m, root, 1, right)) by {
        if s.meta.free.len() > 0 {
            assert(s.meta.free[s.meta.free.len() - 1] == right);
        } else {
            if in_span(m, root, 1, right) {
                lemma_span_pages(m, n, root, 1, 0, full, None, right);
            }
        }
    }
    assert(in_span(m, root, 1, root));
    lemma_parts(leaf, row, lo, hi);
    lemma_split_under_root(s0, cur, leaf, above, row);
    let t = tree_insert(s, row).0;
    assert(tree_insert(s, row) == tree_split(s0, cur, row, 1));
    let u = pages(t);
    assert(u.contains_key(root) && u.contains_key(cur) && u.contains_key(right));
    assert forall|x: usize|
        x != cur && x != right && x != root && #[trigger] in_span(
            m,
            root,
            1,
            x,
        ) implies u.contains_key(x) && u[x] == m[x] by {
        lemma_span_pages(m, n, root, 1, 0, full, None, x);
        assert(page_of(t, x) == page_of(s0, x));
        assert(pages(s0).contains_key(x));
    }
}

/// The split of a leaf under a root with room: an insert into a tree of
/// height 1 whose leaf has no room for the row, but whose root has room
/// for one more pointer, leaves the tree well formed. The tree holds the
/// rows that it held, each as it was, and the new row, in strictly
/// growing key order.
#[verifier::rlimit(100)]
#[verifier::spinoff_prover]
pub proof fn lemma_leaf_split(s: PagerView, row: RowView)
    requires
        sound(s, 1),
        row.kind() == RowType::Leaf,
        pages(s)[target(pages(s), s.meta.root, 1, row.id())].insert(row) == Err::<
            PageView,
            PageError,
        >(PageError::Full),
        pages(s)[target(pages(s), s.meta.root, 1, row.id())].rows.len() > 0,
        lower_part(pages(s)[target(pages(s), s.meta.root, 1, row.id())], row) is Ok,
        upper_part(pages(s)[target(pages(s), s.meta.root, 1, row.id())], row) is Ok,
        can_allocate(s),
        pages(s)[s.meta.root].insert(
            pointer_for(
                pages(s)[target(pages(s), s.meta.root, 1, row.id())],
                target(pages(s), s.meta.root, 1, row.id()),
                next_page(s),
            ),
        ) is Ok,
    ensures
        tree_insert(s, row).1 is Ok,
        sound(tree_insert(s, row).0, 1),
        tree_insert(s, row).0.meta.root == s.meta.root,
        forall|id: usize|
            has_id(rows_of(tree_insert(s, row).0, 1), id) <==> (has_id(rows_of(s, 1), id) || id
                == row.id()),
        ids_increasing(rows_of(tree_insert(s, row).0, 1)),
        forall|r: RowView|
            #![trigger rows_of(tree_insert(s, row).0, 1).contains(r)]
            #![trigger rows_of(s, 1).contains(r)]
            rows_of(tree_insert(s, row).0, 1).contains(r) <==> (rows_of(s, 1).contains(r) || r
                == row),
{
    lemma_leaf_split_rows(s, row);
    let m = pages(s);
    let root = s.meta.root;
    let n = s.meta.pages;
    let full = usize::MAX + 1;
    let key = row.id();
    let rows = m[root].rows;
    let b = branch(rows, key);
    let cur = target(m, root, 1, key);
    let right = next_page(s);
    let sep = upper_half(m[cur]).rows[0].id();
    lemma_leaf_split_pages(s, row);
    let t = tree_insert(s, row).0;
    let u = pages(t);
    let count = t.meta.pages;
    lemma_allocate(s);
    lemma_grown_tree(m, u, n, count, root, b, right, sep);
    let new = u[root].rows;
    assert forall|i: int| 0 <= i < t.meta.free.len() implies (#[trigger] t.meta.free[i]) != 0
        && !in_span(u, root, 1, t.meta.free[i]) by {
        let x = t.meta.free[i];
        assert(s.meta.free[i] == x);
        if s.meta.free.len() > 0 {
            assert(s.meta.free[s.meta.free.len() - 1] == right);
        }
        if in_span(u, root, 1, x) && x != root {
            let j = choose|j: int| 0 <= j <= new.len()
                && in_span(u, #[trigger] child(new, j), 0, x);
            let y = old_place(b, j);
            assert(child(new, j) == (if j == b + 1 { right } else { child(rows, y) }));
            if j != b + 1 {
                assert(in_span(m, child(rows, y), 0, x));
                super::shape::lemma_span_child(m, root, 1, y, x);
            }
        }
        assert(in_span(m, root, 1, root));
    }
    assert forall|id: usize|
        has_id(rows_of(t, 1), id) <==> (has_id(rows_of(s, 1), id) || id == key) by {
        lemma_grown_keys(m, u, n, count, root, b, right, sep, id);
    }
    lemma_contents_sorted(u, count, root, 1, 0, full, None);
}

/// An insert into a leaf with room leaves the pages of the tree the same
/// pages, so the free pages stay apart from the tree.
#[verifier::rlimit(100)]
#[verifier::spinoff_prover]
pub proof fn lemma_insert_sound(s: PagerView, h: nat, row: RowView)
    requires
        sound(s, h),
        row.kind() == RowType::Leaf,
        pages(s)[target(pages(s), s.meta.root, h, row.id())].insert(row) is Ok,
    ensures
        sound(tree_insert(s, row).0, h),
{
    let m = pages(s);
    let root = s.meta.root;
    let n = s.meta.pages;
    let full = usize::MAX + 1;
    let key = row.id();
    let leaf = target(m, root, h, key);
    let page = m[leaf];
    let grown = page.insert(row)->Ok_0;
    lemma_insert(s, h, row);
    lemma_height(m, n, root, h, 0, full, None);
    lemma_locate(s, root, h, 0, full, None, key, Seq::empty(), n as nat);
    let s1 = locate(s, root, key, Seq::empty(), n as nat).0;
    lemma_target(m, n, root, h, 0, full, None, key);
    let tl = target_lo(m, root, h, 0, key);
    let th = target_hi(m, root, h, full, key);
    lemma_insert_keys(page, row, key);
    lemma_pages_after_write(s1, leaf, grown);
    let t = tree_insert(s, row).0;
    assert(t == s1.write(leaf, grown).0);
    assert(within(grown.rows, tl, th)) by {
        assert forall|i: int| 0 <= i < grown.rows.len() implies tl <= (
        #[trigger] grown.rows[i]).id() < th by {
            let k = grown.rows[i].id();
            lemma_insert_keys(page, row, k);
            assert(has_id(grown.rows, k));
            if has_id(page.rows, k) {
                lemma_within_has_id(page.rows, tl, th, k);
            }
        }
    }
    lemma_put(m, n, root, h, 0, full, None, key, grown);
    assert forall|i: int| 0 <= i < t.meta.free.len() implies (#[trigger] t.meta.free[i]) != 0
        && !in_span(pages(t), root, h, t.meta.free[i]) by {
        assert(!in_span(m, root, h, s.meta.free[i]));
    }
}

/// A row is among the rows of the first leaves exactly if it is a row of
/// one of these leaves.
pub proof fn lemma_kids_contains(
    m: Map<usize, PageView>,
    rows: Seq<RowView>,
    k: nat,
    r: RowView,
)
    requires
        forall|i: int| 0 <= i < k ==> m.contains_key(#[trigger] child(rows, i)),
    ensures
        kids(m, rows, k, 0).contains(r) <==> exists|i: int|
            0 <= i < k && m[#[trigger] child(rows, i)].rows.contains(r),
    decreases k,
{
    if k > 0 {
        lemma_kids_contains(m, rows, (k - 1) as nat, r);
        let first = kids(m, rows, (k - 1) as nat, 0);
        let last = contents(m, child(rows, k - 1), 0);
        assert(m.contains_key(child(rows, k - 1)));
        assert(last == m[child(rows, k - 1)].rows);
        lemma_rows_concat(first, last, r);
        if exists|i: int| 0 <= i < k && m[#[trigger] child(rows, i)].rows.contains(r) {
            let i = choose|i: int| 0 <= i < k && m[#[trigger] child(rows, i)].rows.contains(r);
            if i < k - 1 {
                assert(0 <= i < k - 1 && m[child(rows, i)].rows.contains(r));
            }
        }
        if first.contains(r) {
            let i = choose|i: int|
                0 <= i < k - 1 && m[#[trigger] child(rows, i)].rows.contains(r);
            assert(0 <= i < k && m[child(rows, i)].rows.contains(r));
        }
    } else {
        assert(!kids(m, rows, 0, 0).contains(r));
    }
}

/// After the split of a leaf under a root with room, the tree holds the
/// rows of the leaves of before, but that the rows of the leaf that was
/// split are those of the two parts.
#[verifier::rlimit(100)]
#[verifier::spinoff_prover]
pub proof fn lemma_grown_rows(
    m: Map<usize, PageView>,
    u: Map<usize, PageView>,
    n: usize,
    count: usize,
    root: usize,
    b: int,
    right: usize,
    sep: usize,
    r: RowView,
)
    requires
        grown_from(m, u, n, count, root, b, right, sep),
    ensures
        contents(u, root, 1).contains(r) <==> (u[child(m[root].rows, b)].rows.contains(r)
            || u[right].rows.contains(r) || exists|j: int|
            0 <= j <= m[root].rows.len() && j != b
                && m[#[trigger] child(m[root].rows, j)].rows.contains(r)),
        contents(m, root, 1).contains(r) <==> (m[child(m[root].rows, b)].rows.contains(r)
            || exists|j: int|
            0 <= j <= m[root].rows.len() && j != b
                && m[#[trigger] child(m[root].rows, j)].rows.contains(r)),
{
    let rows = m[root].rows;
    let new = u[root].rows;
    let cur = child(rows, b);
    lemma_grown_tree(m, u, n, count, root, b, right, sep);
    assert forall|i: int| 0 <= i < new.len() + 1 implies u.contains_key(
        #[trigger] child(new, i),
    ) by {
        assert(tree(
            u,
            count,
            child(new, i),
            0,
            low(new, i, 0),
            high(new, i, usize::MAX + 1),
            Some(root),
        ));
    }
    lemma_kids_contains(u, new, new.len() + 1, r);
    lemma_kids_contains(m, rows, rows.len() + 1, r);
    if contents(u, root, 1).contains(r) {
        let j = choose|j: int|
            0 <= j < new.len() + 1 && u[#[trigger] child(new, j)].rows.contains(r);
        let y = old_place(b, j);
        assert(child(new, j) == (if j == b + 1 { right } else { child(rows, y) }));
        if j != b && j != b + 1 {
            assert(0 <= y <= rows.len() && y != b && m[child(rows, y)].rows.contains(r));
        }
    }
    if exists|j: int|
        0 <= j <= rows.len() && j != b && m[#[trigger] child(rows, j)].rows.contains(r) {
        let j = choose|j: int|
            0 <= j <= rows.len() && j != b && m[#[trigger] child(rows, j)].rows.contains(r);
        let y = if j < b { j } else { j + 1 };
        assert(child(new, y) == child(rows, old_place(b, y)));
        assert(0 <= y < new.len() + 1 && u[child(new, y)].rows.contains(r));
        assert(0 <= j < rows.len() + 1);
    }
    if u[cur].rows.contains(r) {
        assert(child(new, b) == cur);
        assert(0 <= b < new.len() + 1 && u[child(new, b)].rows.contains(r));
    }
    if u[right].rows.contains(r) {
        assert(child(new, b + 1) == right);
        assert(0 <= b + 1 < new.len() + 1 && u[child(new, b + 1)].rows.contains(r));
    }
    if m[cur].rows.contains(r) {
        assert(0 <= b < rows.len() + 1 && m[child(rows, b)].rows.contains(r));
    }
    if contents(m, root, 1).contains(r) {
        let j = choose|j: int|
            0 <= j < rows.len() + 1 && m[#[trigger] child(rows, j)].rows.contains(r);
        if j != b {
            assert(0 <= j <= rows.len() && j != b && m[child(rows, j)].rows.contains(r));
        }
    }
}

/// The halves of a split leaf hold the rows of the leaf, each as it was,
/// and the new row.
#[verifier::rlimit(60)]
#[verifier::spinoff_prover]
pub proof fn lemma_parts_rows(leaf: PageView, row: RowView, r: RowView)
    requires
        leaf.well_formed(),
        leaf.kind == PageType::Leaf,
        leaf.rows.len() > 0,
        row.kind() == RowType::Leaf,
        lower_part(leaf, row) is Ok,
        upper_part(leaf, row) is Ok,
    ensures
        ((lower_part(leaf, row)->Ok_0).rows.contains(r) || (upper_part(
            leaf,
            row,
        )->Ok_0).rows.contains(r)) <==> (leaf.rows.contains(r) || r == row),
{
    super::btree::lemma_split_parts(leaf, 0, 0);
    lemma_rows_concat(lower_half(leaf).rows, upper_half(leaf).rows, r);
    if row.id() >= upper_half(leaf).rows[0].id() {
        lemma_insert_rows(upper_half(leaf), row, r);
    } else {
        lemma_insert_rows(lower_half(leaf), row, r);
    }
}

/// The split of a leaf under a root with room keeps every row as it was:
/// the tree then holds the rows that it held and the new row.
#[verifier::rlimit(100)]
#[verifier::spinoff_prover]
pub proof fn lemma_leaf_split_rows(s: PagerView, row: RowView)
    requires
        sound(s, 1),
        row.kind() == RowType::Leaf,
        pages(s)[target(pages(s), s.meta.root, 1, row.id())].insert(row) == Err::<
            PageView,
            PageError,
        >(PageError::Full),
        pages(s)[target(pages(s), s.meta.root, 1, row.id())].rows.len() > 0,
        lower_part(pages(s)[target(pages(s), s.meta.root, 1, row.id())], row) is Ok,
        upper_part(pages(s)[target(pages(s), s.meta.root, 1, row.id())], row) is Ok,
        can_allocate(s),
        pages(s)[s.meta.root].insert(
            pointer_for(
                pages(s)[target(pages(s), s.meta.root, 1, row.id())],
                target(pages(s), s.meta.root, 1, row.id()),
                next_page(s),
            ),
        ) is Ok,
    ensures
        forall|r: RowView|
            #![trigger rows_of(tree_insert(s, row).0, 1).contains(r)]
            #![trigger rows_of(s, 1).contains(r)]
            rows_of(tree_insert(s, row).0, 1).contains(r) <==> (rows_of(s, 1).contains(r) || r
                == row),
{
    let m = pages(s);
    let root = s.meta.root;
    let n = s.meta.pages;
    let rows = m[root].rows;
    let b = branch(rows, row.id());
    let cur = target(m, root, 1, row.id());
    let leaf = m[cur];
    let right = next_page(s);
    let sep = upper_half(leaf).rows[0].id();
    lemma_leaf_split_pages(s, row);
    let t = tree_insert(s, row).0;
    let u = pages(t);
    let count = t.meta.pages;
    lemma_branch(rows, row.id(), 0, usize::MAX + 1);
    assert(tree(
        m,
        n,
        child(rows, b),
        0,
        low(rows, b, 0),
        high(rows, b, usize::MAX + 1),
        Some(root),
    ));
    assert forall|r: RowView|
        #![trigger rows_of(t, 1).contains(r)]
        #![trigger rows_of(s, 1).contains(r)]
        rows_of(t, 1).contains(r) <==> (rows_of(s, 1).contains(r) || r == row) by {
        lemma_grown_rows(m, u, n, count, root, b, right, sep, r);
        lemma_parts_rows(leaf, row, r);
    }
}

} // verus!
