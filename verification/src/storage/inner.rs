//! How an internal page is split, and what the split of an internal root
//! leaves behind: three levels of pages.
//!
//! The page keeps the pointers before the middle, a new page takes the
//! pointers from the middle on, and the children of the pointers that
//! went to the new page are put under it. The child between the halves
//! is the right child of the last pointer that stays and the left child
//! of the first pointer that goes: it stands under both pages, and names
//! the new page as its parent.
use vstd::prelude::*;
use super::btree::{
    locate, lower_half, move_children, place, reparent, reparent_all, reparent_row, split_node,
    split_page, split_root, tree_insert, tree_split, upper_half, write_halves,
};
use super::growth::{
    can_allocate, lemma_allocate, lemma_set_root, lemma_split_leaf, lower_part,
    new_root, next_page, pointer_for, sound, upper_part,
};
use super::page::{
    lemma_insert_keys, lemma_parsed_page_well_formed, lemma_total_size_one, PageType, PageView,
};
use super::pager::{lemma_read_keeps, MetaView, PagerView};
use super::row::{RowType, RowView};
use super::shape::{
    branch, child, high, in_span, lemma_branch, lemma_height, lemma_locate,
    lemma_pages_after_read, lemma_pages_after_write, lemma_span_child, lemma_span_pages, low,
    page_of, pages, target, tree,
};
use super::{PageError, StorageError};

verus! {

/// Page `x` is a child of one of the pointers.
pub open spec fn is_child(rows: Seq<RowView>, x: usize) -> bool {
    exists|i: int| 0 <= i < rows.len() && ((#[trigger] rows[i]).left() == x || rows[i].right() == x)
}

/// Page `x` is none of the pages `a`, `b` and `c`.
pub open spec fn apart_from(x: usize, a: usize, b: usize, c: usize) -> bool {
    x != a && x != b && x != c
}

/// Every child of the pointers is a page of the pager.
pub open spec fn children_stored(s: PagerView, rows: Seq<RowView>) -> bool {
    forall|x: usize| #[trigger] is_child(rows, x) ==> x < s.meta.pages && page_of(s, x) is Some
}

/// No child of the pointers is the metadata page or one of the pages `a`,
/// `b` and `c`.
pub open spec fn children_apart(rows: Seq<RowView>, a: usize, b: usize, c: usize) -> bool {
    forall|x: usize| #[trigger] is_child(rows, x) ==> x != 0 && x != a && x != b && x != c
}

/// What a page is after the children of the pointers were put under
/// `parent`.
pub open spec fn adopted(s: PagerView, rows: Seq<RowView>, parent: usize, x: usize) -> Option<
    PageView,
> {
    if is_child(rows, x) {
        Some(page_of(s, x)->0.with_parent(Some(parent)))
    } else {
        page_of(s, x)
    }
}

/// Putting a page under a parent changes the parent that the page names,
/// and nothing else.
pub proof fn lemma_reparent(s: PagerView, child: usize, parent: usize)
    requires
        s.well_formed(),
        child < s.meta.pages,
        page_of(s, child) is Some,
    ensures
        reparent(s, child, parent).1 == Ok::<(), StorageError>(()),
        reparent(s, child, parent).0.well_formed(),
        reparent(s, child, parent).0.meta == s.meta,
        page_of(reparent(s, child, parent).0, child) == Some(
            page_of(s, child)->0.with_parent(Some(parent)),
        ),
        forall|x: usize|
            x != child ==> #[trigger] page_of(reparent(s, child, parent).0, x) == page_of(s, x),
{
    let page = page_of(s, child)->0;
    lemma_parsed_page_well_formed(s.stored(child)->0);
    lemma_pages_after_read(s, child);
    let s1 = s.read(child).0;
    assert(pages(s).contains_key(child));
    assert(s.read(child).1 == Ok::<PageView, StorageError>(page));
    assert forall|x: usize| #[trigger] page_of(s1, x) == page_of(s, x) by {
        lemma_read_keeps(s, child, x);
    }
    let moved = page.with_parent(Some(parent));
    lemma_pages_after_write(s1, child, moved);
    let s2 = s1.write(child, moved).0;
    assert(reparent(s, child, parent) == (s2, Ok::<(), StorageError>(())));
    assert(pages(s2).contains_key(child) && pages(s2)[child] == moved);
    assert forall|x: usize| x != child implies #[trigger] page_of(s2, x) == page_of(s, x) by {
        assert(pages(s2).contains_key(x) == pages(s1).contains_key(x));
        if pages(s1).contains_key(x) {
            assert(pages(s2)[x] == pages(s1)[x]);
        }
    }
}

/// Putting the children of pointers under a parent changes the parent
/// that each of them names, and nothing else.
#[verifier::rlimit(60)]
#[verifier::spinoff_prover]
pub proof fn lemma_reparent_all(s: PagerView, rows: Seq<RowView>, parent: usize)
    requires
        s.well_formed(),
        children_stored(s, rows),
    ensures
        reparent_all(s, rows, parent).1 == Ok::<(), StorageError>(()),
        reparent_all(s, rows, parent).0.well_formed(),
        reparent_all(s, rows, parent).0.meta == s.meta,
        forall|x: usize| #[trigger]
            page_of(reparent_all(s, rows, parent).0, x) == adopted(s, rows, parent, x),
    decreases rows.len(),
{
    if rows.len() > 0 {
        let left = rows[0].left();
        let right = rows[0].right();
        let rest = rows.subrange(1, rows.len() as int);
        assert(is_child(rows, left) && is_child(rows, right));
        lemma_reparent(s, left, parent);
        let s1 = reparent(s, left, parent).0;
        lemma_reparent(s1, right, parent);
        let s2 = reparent(s1, right, parent).0;
        assert(reparent_row(s, rows[0], parent) == (s2, Ok::<(), StorageError>(())));
        assert forall|x: usize| is_child(rows, x) <==> (x == left || x == right || is_child(
            rest,
            x,
        )) by {
            if is_child(rows, x) {
                let i = choose|i: int|
                    0 <= i < rows.len() && ((#[trigger] rows[i]).left() == x || rows[i].right()
                        == x);
                if i > 0 {
                    assert(rest[i - 1] == rows[i]);
                }
            }
            if is_child(rest, x) {
                let i = choose|i: int|
                    0 <= i < rest.len() && ((#[trigger] rest[i]).left() == x || rest[i].right()
                        == x);
                assert(rows[i + 1] == rest[i]);
            }
        }
        assert(children_stored(s2, rest));
        lemma_reparent_all(s2, rest, parent);
        let t = reparent_all(s2, rest, parent).0;
        assert(reparent_all(s, rows, parent) == reparent_all(s2, rest, parent));
        assert forall|x: usize| #[trigger] page_of(t, x) == adopted(s, rows, parent, x) by {
            assert(page_of(t, x) == adopted(s2, rest, parent, x));
        }
    }
}

/// The children that a split of an internal page puts under the new page:
/// those of the pointers from the middle on and, where the new pointer
/// goes to the new page, those of the new pointer.
pub open spec fn moves(page: PageView, row: RowView, x: usize) -> bool {
    is_child(upper_half(page).rows, x) || (row.id() >= upper_half(page).rows[0].id() && (row.left()
        == x || row.right() == x))
}

/// What a page other than the halves is after the split of an internal
/// page.
pub open spec fn after_split(s: PagerView, page: PageView, row: RowView, right: usize, x: usize)
    -> Option<PageView> {
    if moves(page, row, x) {
        Some(page_of(s, x)->0.with_parent(Some(right)))
    } else {
        page_of(s, x)
    }
}

/// What a page other than the halves is after the new pointer was placed.
pub open spec fn after_place(
    s: PagerView,
    up: PageView,
    row: RowView,
    right: usize,
    x: usize,
) -> Option<PageView> {
    if row.id() >= up.rows[0].id() && (row.left() == x || row.right() == x) {
        Some(page_of(s, x)->0.with_parent(Some(right)))
    } else {
        page_of(s, x)
    }
}

/// Placing the new pointer in one of the halves of an internal page: the
/// pointer goes to the half that its key belongs to, both halves are
/// written, and the children of a pointer that went to the upper half
/// name the new page as their parent.
#[verifier::rlimit(100)]
#[verifier::spinoff_prover]
pub proof fn lemma_place_inner(
    s: PagerView,
    low: PageView,
    up: PageView,
    row: RowView,
    id: usize,
    right: usize,
)
    requires
        s.well_formed(),
        id < s.meta.pages,
        right < s.meta.pages,
        id != right,
        low.well_formed(),
        up.well_formed(),
        low.kind == PageType::Internal,
        up.kind == PageType::Internal,
        row.kind() == RowType::Internal,
        up.rows.len() > 0,
        children_stored(s, seq![row]),
        children_apart(seq![row], id, right, right),
        row.id() >= up.rows[0].id() ==> up.insert(row) is Ok,
        row.id() < up.rows[0].id() ==> low.insert(row) is Ok,
    ensures
        place(s, row, low, up, id, right).1 == Ok::<(), StorageError>(()),
        place(s, row, low, up, id, right).0.well_formed(),
        place(s, row, low, up, id, right).0.meta == s.meta,
        page_of(place(s, row, low, up, id, right).0, id) == Some(
            if row.id() >= up.rows[0].id() {
                low
            } else {
                low.insert(row)->Ok_0
            },
        ),
        page_of(place(s, row, low, up, id, right).0, right) == Some(
            if row.id() >= up.rows[0].id() {
                up.insert(row)->Ok_0
            } else {
                up
            },
        ),
        forall|x: usize|
            x != id && x != right ==> #[trigger] page_of(place(s, row, low, up, id, right).0, x)
                == after_place(s, up, row, right, x),
{
    let one = seq![row];
    assert forall|x: usize| is_child(one, x) <==> (row.left() == x || row.right() == x) by {
        if is_child(one, x) {
            let i = choose|i: int|
                0 <= i < one.len() && ((#[trigger] one[i]).left() == x || one[i].right() == x);
            assert(one[i] == row);
        }
        if row.left() == x || row.right() == x {
            assert(one[0] == row);
        }
    }
    if row.id() >= up.rows[0].id() {
        let b = up.insert(row)->Ok_0;
        lemma_insert_keys(up, row, row.id());
        lemma_reparent_all(s, one, right);
        let s4 = reparent_all(s, one, right).0;
        assert(move_children(s, up.kind, one, right) == (s4, Ok::<(), StorageError>(())));
        lemma_pages_after_write(s4, id, low);
        let s5 = s4.write(id, low).0;
        lemma_pages_after_write(s5, right, b);
        let s6 = s5.write(right, b).0;
        assert(write_halves(s4, id, low, right, b) == (s6, Ok::<(), StorageError>(())));
        assert(place(s, row, low, up, id, right) == (s6, Ok::<(), StorageError>(())));
        assert(pages(s6) == pages(s4).insert(id, low).insert(right, b));
        assert forall|x: usize| x != id && x != right implies #[trigger] page_of(s6, x)
            == after_place(s, up, row, right, x) by {
            assert(pages(s6).contains_key(x) == pages(s4).contains_key(x));
            if pages(s4).contains_key(x) {
                assert(pages(s6)[x] == pages(s4)[x]);
            }
            assert(page_of(s6, x) == page_of(s4, x));
            assert(page_of(s4, x) == adopted(s, one, right, x));
        }
        assert(pages(s6).contains_key(id) && pages(s6)[id] == low);
        assert(pages(s6).contains_key(right) && pages(s6)[right] == b);
    } else {
        let a = low.insert(row)->Ok_0;
        lemma_insert_keys(low, row, row.id());
        lemma_pages_after_write(s, id, a);
        let s5 = s.write(id, a).0;
        lemma_pages_after_write(s5, right, up);
        let s6 = s5.write(right, up).0;
        assert(write_halves(s, id, a, right, up) == (s6, Ok::<(), StorageError>(())));
        assert(place(s, row, low, up, id, right) == (s6, Ok::<(), StorageError>(())));
        assert(pages(s6) == pages(s).insert(id, a).insert(right, up));
        assert forall|x: usize| x != id && x != right implies #[trigger] page_of(s6, x)
            == after_place(s, up, row, right, x) by {
            assert(pages(s6).contains_key(x) == pages(s).contains_key(x));
            if pages(s).contains_key(x) {
                assert(pages(s6)[x] == pages(s)[x]);
            }
        }
        assert(pages(s6).contains_key(id) && pages(s6)[id] == a);
        assert(pages(s6).contains_key(right) && pages(s6)[right] == up);
    }
}

/// What the split of an internal page does to the pages: the page keeps
/// the lower part of its pointers, the page that is allocated takes the
/// upper part, the children of the pointers of the upper half, and of the
/// new pointer if it went there, name the new page as their parent, the
/// pointer that is returned carries the first key of the upper half and
/// points to both pages, and all other pages but the metadata page are as
/// they were.
#[verifier::rlimit(100)]
#[verifier::spinoff_prover]
pub proof fn lemma_split_inner(s: PagerView, id: usize, page: PageView, row: RowView)
    requires
        s.well_formed(),
        0 < id < s.meta.pages,
        page_of(s, id) == Some(page),
        page.kind == PageType::Internal,
        page.parent is Some,
        page.rows.len() > 0,
        row.kind() == RowType::Internal,
        can_allocate(s),
        next_page(s) != id,
        next_page(s) != 0,
        children_stored(s, page.rows),
        children_stored(s, seq![row]),
        children_apart(page.rows, id, next_page(s), next_page(s)),
        children_apart(seq![row], id, next_page(s), next_page(s)),
        lower_part(page, row) is Ok,
        upper_part(page, row) is Ok,
    ensures
        split_node(s, id, row).1 == Ok::<RowView, StorageError>(
            RowView::Internal { id: upper_half(page).rows[0].id(), left: id, right: next_page(s) },
        ),
        split_node(s, id, row).0.well_formed(),
        split_node(s, id, row).0.meta == s.allocate().0.meta,
        page_of(split_node(s, id, row).0, id) == Some(lower_part(page, row)->Ok_0),
        page_of(split_node(s, id, row).0, next_page(s)) == Some(upper_part(page, row)->Ok_0),
        forall|x: usize|
            x != 0 && x != id && x != next_page(s) ==> #[trigger] page_of(
                split_node(s, id, row).0,
                x,
            ) == after_split(s, page, row, next_page(s), x),
{
    let right = next_page(s);
    let low = lower_half(page);
    let up = upper_half(page);
    lemma_parsed_page_well_formed(s.stored(id)->0);
    super::btree::lemma_split_parts(page, 0, 0);
    lemma_pages_after_read(s, id);
    let s1 = s.read(id).0;
    assert(pages(s).contains_key(id));
    assert(s.read(id).1 == Ok::<PageView, StorageError>(page));
    assert forall|x: usize| #[trigger] page_of(s1, x) == page_of(s, x) by {
        lemma_read_keeps(s, id, x);
    }
    assert(can_allocate(s1) && next_page(s1) == right);
    lemma_allocate(s1);
    let s2 = s1.allocate().0;
    assert(s2.meta == s.allocate().0.meta);
    assert forall|x: usize| is_child(up.rows, x) implies is_child(page.rows, x) by {
        let i = choose|i: int|
            0 <= i < up.rows.len() && ((#[trigger] up.rows[i]).left() == x || up.rows[i].right()
                == x);
        assert(page.rows[(page.rows.len() / 2) as int + i] == up.rows[i]);
    }
    assert(children_stored(s2, up.rows)) by {
        assert forall|x: usize| #[trigger] is_child(up.rows, x) implies x < s2.meta.pages
            && page_of(s2, x) is Some by {
            assert(is_child(page.rows, x));
            assert(page_of(s2, x) == page_of(s1, x));
        }
    }
    lemma_reparent_all(s2, up.rows, right);
    let s3 = reparent_all(s2, up.rows, right).0;
    assert(move_children(s2, page.kind, up.rows, right) == (s3, Ok::<(), StorageError>(())));
    let one = seq![row];
    assert(children_stored(s3, one)) by {
        assert forall|x: usize| #[trigger] is_child(one, x) implies x < s3.meta.pages
            && page_of(s3, x) is Some by {
            assert(page_of(s3, x) == adopted(s2, up.rows, right, x));
            assert(page_of(s2, x) == page_of(s1, x));
        }
    }
    lemma_place_inner(s3, low, up, row, id, right);
    let t = place(s3, row, low, up, id, right).0;
    assert(split_page(s2, id, page, right, row) == (
        t,
        Ok::<RowView, StorageError>(super::btree::separator(page, id, right)),
    ));
    assert(split_node(s, id, row) == split_page(s2, id, page, right, row));
    assert forall|x: usize| x != 0 && x != id && x != right implies #[trigger] page_of(t, x)
        == after_split(s, page, row, right, x) by {
        assert(page_of(t, x) == after_place(s3, up, row, right, x));
        assert(page_of(s3, x) == adopted(s2, up.rows, right, x));
        assert(page_of(s2, x) == page_of(s1, x));
    }
}

/// The split of an internal root leaves three levels of pages: a page
/// that is allocated becomes the root, with one pointer, which carries the
/// first key of the upper half; the old root keeps the lower part of its
/// pointers and a second page that is allocated takes the upper part, both
/// under the new root; the children of the pointers that went to the second
/// page name it as their parent; all other pages but the metadata page are
/// as they were.
#[verifier::rlimit(100)]
#[verifier::spinoff_prover]
pub proof fn lemma_split_root_inner(s: PagerView, page: PageView, row: RowView, depth: nat)
    requires
        s.well_formed(),
        0 < s.meta.root < s.meta.pages,
        page_of(s, s.meta.root) == Some(page),
        page.kind == PageType::Internal,
        page.rows.len() > 0,
        row.kind() == RowType::Internal,
        can_allocate(s),
        can_allocate(s.allocate().0),
        next_page(s) != 0 && next_page(s) != s.meta.root,
        next_page(s.allocate().0) != 0 && next_page(s.allocate().0) != s.meta.root,
        next_page(s.allocate().0) != next_page(s),
        children_stored(s, page.rows),
        children_stored(s, seq![row]),
        children_apart(page.rows, s.meta.root, next_page(s), next_page(s.allocate().0)),
        children_apart(seq![row], s.meta.root, next_page(s), next_page(s.allocate().0)),
        lower_part(page, row) is Ok,
        upper_part(page, row) is Ok,
    ensures
        tree_split(s, s.meta.root, row, depth).1 == Ok::<(), StorageError>(()),
        tree_split(s, s.meta.root, row, depth).0.well_formed(),
        tree_split(s, s.meta.root, row, depth).0.meta == (MetaView {
            root: next_page(s),
            ..s.allocate().0.allocate().0.meta
        }),
        page_of(tree_split(s, s.meta.root, row, depth).0, next_page(s)) == Some(
            new_root(page, s.meta.root, next_page(s.allocate().0)),
        ),
        page_of(tree_split(s, s.meta.root, row, depth).0, s.meta.root) == Some(
            (lower_part(page, row)->Ok_0).with_parent(Some(next_page(s))),
        ),
        page_of(tree_split(s, s.meta.root, row, depth).0, next_page(s.allocate().0)) == Some(
            (upper_part(page, row)->Ok_0).with_parent(Some(next_page(s))),
        ),
        forall|x: usize|
            x != 0 && x != s.meta.root && x != next_page(s) && x != next_page(s.allocate().0)
                ==> #[trigger] page_of(tree_split(s, s.meta.root, row, depth).0, x) == after_split(
                s,
                page,
                row,
                next_page(s.allocate().0),
                x,
            ),
{
    let cur = s.meta.root;
    let top = next_page(s);
    lemma_allocate(s);
    let s1 = s.allocate().0;
    let right = next_page(s1);
    assert(tree_split(s, cur, row, depth) == split_root(s, cur, row));
    // the old root is put under the new root
    assert(page_of(s1, cur) == Some(page));
    lemma_reparent(s1, cur, top);
    let s2 = reparent(s1, cur, top).0;
    let moved = page.with_parent(Some(top));
    assert(page_of(s2, cur) == Some(moved));
    // the old root is split
    assert(s2.meta == s1.meta);
    assert(upper_half(moved).rows == upper_half(page).rows);
    assert(lower_half(moved).rows == lower_half(page).rows);
    assert(lower_part(moved, row)->Ok_0 == (lower_part(page, row)->Ok_0).with_parent(Some(top)));
    assert(upper_part(moved, row)->Ok_0 == (upper_part(page, row)->Ok_0).with_parent(Some(top)));
    assert(children_stored(s2, moved.rows)) by {
        assert forall|x: usize| #[trigger] is_child(moved.rows, x) implies x < s2.meta.pages
            && page_of(s2, x) is Some by {
            assert(is_child(page.rows, x));
            assert(page_of(s2, x) == page_of(s1, x));
            assert(page_of(s1, x) == page_of(s, x));
        }
    }
    assert(children_stored(s2, seq![row])) by {
        assert forall|x: usize| #[trigger] is_child(seq![row], x) implies x < s2.meta.pages
            && page_of(s2, x) is Some by {
            assert(page_of(s2, x) == page_of(s1, x));
            assert(page_of(s1, x) == page_of(s, x));
        }
    }
    lemma_split_inner(s2, cur, moved, row);
    let s3 = split_node(s2, cur, row).0;
    let pointer = RowView::Internal { id: upper_half(page).rows[0].id(), left: cur, right };
    // the new root is written and made the root
    let above = new_root(page, cur, right);
    assert(above.well_formed()) by {
        lemma_total_size_one(pointer);
    }
    assert(s3.meta == s1.allocate().0.meta);
    lemma_allocate(s1);
    lemma_pages_after_write(s3, top, above);
    let s4 = s3.write(top, above).0;
    lemma_set_root(s4, top);
    let s5 = s4.set_root(top);
    assert(split_root(s, cur, row) == (s5, Ok::<(), StorageError>(())));
    assert(pages(s4).contains_key(top) && pages(s4)[top] == above);
    assert(page_of(s4, top) == Some(above));
    assert(page_of(s4, cur) == page_of(s3, cur)) by {
        assert(pages(s4).contains_key(cur) == pages(s3).contains_key(cur));
        if pages(s3).contains_key(cur) {
            assert(pages(s4)[cur] == pages(s3)[cur]);
        }
    }
    assert(page_of(s4, right) == page_of(s3, right)) by {
        assert(pages(s4).contains_key(right) == pages(s3).contains_key(right));
        if pages(s3).contains_key(right) {
            assert(pages(s4)[right] == pages(s3)[right]);
        }
    }
    assert forall|x: usize|
        x != 0 && x != cur && x != top && x != right implies #[trigger] page_of(s5, x)
        == after_split(s, page, row, right, x) by {
        assert(page_of(s5, x) == page_of(s4, x));
        assert(pages(s4).contains_key(x) == pages(s3).contains_key(x));
        if pages(s3).contains_key(x) {
            assert(pages(s4)[x] == pages(s3)[x]);
        }
        assert(page_of(s4, x) == page_of(s3, x));
        assert(page_of(s3, x) == after_split(s2, moved, row, right, x));
        assert(moves(moved, row, x) == moves(page, row, x));
        assert(page_of(s2, x) == page_of(s1, x));
        assert(page_of(s1, x) == page_of(s, x));
    }
}

/// What a page is after the split of leaf `id`, before the pointer to its
/// halves is placed.
pub open spec fn after_leaf_split(
    s: PagerView,
    id: usize,
    leaf: PageView,
    row: RowView,
    x: usize,
) -> Option<PageView> {
    if x == id {
        Some(lower_part(leaf, row)->Ok_0)
    } else if x == next_page(s) {
        Some(upper_part(leaf, row)->Ok_0)
    } else {
        page_of(s, x)
    }
}

/// What a page below the two internal pages is after the split of a leaf
/// under a root without room: the leaves are as the split of the leaf
/// left them, and those whose pointers went to the new internal page name
/// it as their parent.
pub open spec fn below(
    s: PagerView,
    id: usize,
    leaf: PageView,
    above: PageView,
    row: RowView,
    x: usize,
) -> Option<PageView> {
    let pointer = pointer_for(leaf, id, next_page(s));
    let right = next_page(s.allocate().0.allocate().0);
    if moves(above, pointer, x) {
        Some(after_leaf_split(s, id, leaf, row, x)->0.with_parent(Some(right)))
    } else {
        after_leaf_split(s, id, leaf, row, x)
    }
}

/// What the split of a leaf under a root without room does to the pages:
/// the leaf keeps the lower part of its rows and a page that is allocated
/// takes the upper part; the root has no room for the pointer to both and
/// is split in turn, under a new root.
#[verifier::rlimit(100)]
#[verifier::spinoff_prover]
pub proof fn lemma_split_under_full_root(
    s: PagerView,
    id: usize,
    leaf: PageView,
    above: PageView,
    row: RowView,
)
    requires
        s.well_formed(),
        0 < s.meta.root < s.meta.pages,
        0 < id < s.meta.pages,
        id != s.meta.root,
        page_of(s, id) == Some(leaf),
        page_of(s, s.meta.root) == Some(above),
        above.kind == PageType::Internal,
        above.rows.len() > 0,
        leaf.kind == PageType::Leaf,
        leaf.parent == Some(s.meta.root),
        leaf.rows.len() > 0,
        row.kind() == RowType::Leaf,
        can_allocate(s),
        can_allocate(s.allocate().0),
        can_allocate(s.allocate().0.allocate().0),
        apart_from(next_page(s), 0, id, s.meta.root),
        apart_from(next_page(s.allocate().0), 0, next_page(s), s.meta.root),
        apart_from(next_page(s.allocate().0.allocate().0), 0, next_page(s), s.meta.root),
        next_page(s.allocate().0.allocate().0) != next_page(s.allocate().0),
        next_page(s.allocate().0) != id,
        next_page(s.allocate().0.allocate().0) != id,
        children_stored(s, above.rows),
        children_apart(
            above.rows,
            s.meta.root,
            next_page(s.allocate().0),
            next_page(s.allocate().0.allocate().0),
        ),
        children_apart(above.rows, next_page(s), next_page(s), next_page(s)),
        lower_part(leaf, row) is Ok,
        upper_part(leaf, row) is Ok,
        lower_part(leaf, row)->Ok_0.well_formed(),
        upper_part(leaf, row)->Ok_0.well_formed(),
        above.insert(pointer_for(leaf, id, next_page(s))) == Err::<PageView, PageError>(
            PageError::Full,
        ),
        lower_part(above, pointer_for(leaf, id, next_page(s))) is Ok,
        upper_part(above, pointer_for(leaf, id, next_page(s))) is Ok,
    ensures
        tree_split(s, id, row, 1).1 == Ok::<(), StorageError>(()),
        tree_split(s, id, row, 1).0.well_formed(),
        tree_split(s, id, row, 1).0.meta == (MetaView {
            root: next_page(s.allocate().0),
            ..s.allocate().0.allocate().0.allocate().0.meta
        }),
        page_of(tree_split(s, id, row, 1).0, next_page(s.allocate().0)) == Some(
            new_root(above, s.meta.root, next_page(s.allocate().0.allocate().0)),
        ),
        page_of(tree_split(s, id, row, 1).0, s.meta.root) == Some(
            (lower_part(above, pointer_for(leaf, id, next_page(s)))->Ok_0).with_parent(
                Some(next_page(s.allocate().0)),
            ),
        ),
        page_of(tree_split(s, id, row, 1).0, next_page(s.allocate().0.allocate().0)) == Some(
            (upper_part(above, pointer_for(leaf, id, next_page(s)))->Ok_0).with_parent(
                Some(next_page(s.allocate().0)),
            ),
        ),
        forall|x: usize|
            x != 0 && x != s.meta.root && x != next_page(s.allocate().0) && x != next_page(
                s.allocate().0.allocate().0,
            ) ==> #[trigger] page_of(tree_split(s, id, row, 1).0, x) == below(
                s,
                id,
                leaf,
                above,
                row,
                x,
            ),
{
    let root = s.meta.root;
    let right = next_page(s);
    let pointer = pointer_for(leaf, id, right);
    lemma_pages_after_read(s, id);
    let s1 = s.read(id).0;
    assert(pages(s).contains_key(id));
    assert(s.read(id).1 == Ok::<PageView, StorageError>(leaf));
    assert forall|x: usize| #[trigger] page_of(s1, x) == page_of(s, x) by {
        lemma_read_keeps(s, id, x);
    }
    lemma_split_leaf(s1, id, leaf, row);
    let s2 = split_node(s1, id, row).0;
    assert(s1.allocate().0.meta == s.allocate().0.meta);
    lemma_allocate(s);
    assert(page_of(s2, root) == Some(above));
    lemma_pages_after_read(s2, root);
    let s3 = s2.read(root).0;
    assert(pages(s2).contains_key(root));
    assert(s2.read(root).1 == Ok::<PageView, StorageError>(above));
    assert forall|x: usize| #[trigger] page_of(s3, x) == page_of(s2, x) by {
        lemma_read_keeps(s2, root, x);
    }
    assert(tree_split(s, id, row, 1) == tree_split(s3, root, pointer, 0));
    assert(s3.meta == s.allocate().0.meta);
    assert(s3.allocate().0.meta == s.allocate().0.allocate().0.meta);
    assert(s3.allocate().0.allocate().0.meta == s.allocate().0.allocate().0.allocate().0.meta);
    let one = seq![pointer];
    assert forall|x: usize| is_child(one, x) <==> (x == id || x == right) by {
        if is_child(one, x) {
            let i = choose|i: int|
                0 <= i < one.len() && ((#[trigger] one[i]).left() == x || one[i].right() == x);
            assert(one[i] == pointer);
        }
        if x == id || x == right {
            assert(one[0] == pointer);
        }
    }
    assert(children_stored(s3, above.rows)) by {
        assert forall|x: usize| #[trigger] is_child(above.rows, x) implies x < s3.meta.pages
            && page_of(s3, x) is Some by {
            if x != id {
                assert(page_of(s2, x) == page_of(s1, x));
            }
        }
    }
    assert(children_stored(s3, one));
    lemma_split_root_inner(s3, above, pointer, 0);
    let t = tree_split(s3, root, pointer, 0).0;
    let far = next_page(s.allocate().0.allocate().0);
    assert forall|x: usize|
        x != 0 && x != root && x != next_page(s.allocate().0)
            && x != far implies #[trigger] page_of(
        t,
        x,
    ) == below(s, id, leaf, above, row, x) by {
        assert(page_of(t, x) == after_split(s3, above, pointer, far, x));
        assert(page_of(s3, x) == page_of(s2, x));
        if x != id && x != right {
            assert(page_of(s2, x) == page_of(s1, x));
        }
    }
}

/// The three pages that are allocated next beside a sound tree are three
/// pages, none of them the metadata page or a page of the tree.
#[verifier::rlimit(100)]
#[verifier::spinoff_prover]
pub proof fn lemma_next_three(s: PagerView, h: nat)
    requires
        sound(s, h),
        can_allocate(s),
        can_allocate(s.allocate().0),
        can_allocate(s.allocate().0.allocate().0),
    ensures
        apart_from(
            0,
            next_page(s),
            next_page(s.allocate().0),
            next_page(s.allocate().0.allocate().0),
        ),
        next_page(s) != next_page(s.allocate().0),
        next_page(s) != next_page(s.allocate().0.allocate().0),
        next_page(s.allocate().0) != next_page(s.allocate().0.allocate().0),
        !in_span(pages(s), s.meta.root, h, next_page(s)),
        !in_span(pages(s), s.meta.root, h, next_page(s.allocate().0)),
        !in_span(pages(s), s.meta.root, h, next_page(s.allocate().0.allocate().0)),
{
    let m = pages(s);
    let root = s.meta.root;
    let n = s.meta.pages;
    let full = usize::MAX + 1;
    let f = s.meta.free;
    let k = f.len() as int;
    lemma_allocate(s);
    let s1 = s.allocate().0;
    lemma_allocate(s1);
    let s2 = s1.allocate().0;
    let a = next_page(s);
    let b = next_page(s1);
    let c = next_page(s2);
    assert forall|x: usize| x >= n implies !in_span(m, root, h, x) by {
        if in_span(m, root, h, x) {
            lemma_span_pages(m, n, root, h, 0, full, None, x);
        }
    }
    if k >= 1 {
        assert(a == f[k - 1]);
    }
    if k >= 2 {
        assert(s1.meta.free[k - 2] == f[k - 2]);
        assert(b == f[k - 2]);
    }
    if k >= 3 {
        assert(s2.meta.free[k - 3] == f[k - 3]);
        assert(c == f[k - 3]);
    }
}

/// The children of the pointers of a root of leaves are pages of the
/// tree, and none of them is the root.
pub proof fn lemma_root_children(m: Map<usize, PageView>, n: usize, root: usize, x: usize)
    requires
        tree(m, n, root, 1, 0, usize::MAX + 1, None),
        is_child(m[root].rows, x),
    ensures
        in_span(m, root, 1, x),
        m.contains_key(x),
        0 < x < n,
        x != root,
{
    let rows = m[root].rows;
    let full = usize::MAX + 1;
    let i = choose|i: int|
        0 <= i < rows.len() && ((#[trigger] rows[i]).left() == x || rows[i].right() == x);
    let j = if rows[i].left() == x {
        i
    } else {
        i + 1
    };
    if i > 0 {
        assert(rows[i - 1].right() == rows[i].left());
    }
    assert(child(rows, j) == x);
    assert(tree(m, n, child(rows, j), 0, low(rows, j, 0), high(rows, j, full), Some(root)));
    lemma_span_child(m, root, 1, j, x);
    assert(!in_span(m, child(rows, j), 0, root));
}

/// The children of the pointers of a root of leaves are leaves.
pub proof fn lemma_kind_of_child(m: Map<usize, PageView>, n: usize, root: usize, x: usize)
    requires
        tree(m, n, root, 1, 0, usize::MAX + 1, None),
        is_child(m[root].rows, x),
    ensures
        m[x].kind == PageType::Leaf,
{
    let rows = m[root].rows;
    let full = usize::MAX + 1;
    let i = choose|i: int|
        0 <= i < rows.len() && ((#[trigger] rows[i]).left() == x || rows[i].right() == x);
    let j = if rows[i].left() == x {
        i
    } else {
        i + 1
    };
    if i > 0 {
        assert(rows[i - 1].right() == rows[i].left());
    }
    assert(child(rows, j) == x);
    assert(tree(m, n, child(rows, j), 0, low(rows, j, 0), high(rows, j, full), Some(root)));
}

/// The halves of a split page with the new row in one of them are well
/// formed.
pub proof fn lemma_parts_well_formed(page: PageView, row: RowView)
    requires
        page.well_formed(),
        page.rows.len() > 0,
        row.kind() == page.kind.row_kind(),
        lower_part(page, row) is Ok,
        upper_part(page, row) is Ok,
    ensures
        lower_part(page, row)->Ok_0.well_formed(),
        upper_part(page, row)->Ok_0.well_formed(),
{
    super::btree::lemma_split_parts(page, 0, 0);
    if row.id() >= upper_half(page).rows[0].id() {
        lemma_insert_keys(upper_half(page), row, row.id());
    } else {
        lemma_insert_keys(lower_half(page), row, row.id());
    }
}

/// The descent for a key in a sound tree of height 1 ends in a leaf under
/// the root and changes no page.
#[verifier::rlimit(100)]
#[verifier::spinoff_prover]
pub proof fn lemma_descent(s: PagerView, key: usize)
    requires
        sound(s, 1),
    ensures
        locate(s, s.meta.root, key, Seq::empty(), s.meta.pages as nat).1 matches Ok(found)
            && found.0 == target(pages(s), s.meta.root, 1, key) && found.1.len() == 1 && found.2
            == pages(s)[target(pages(s), s.meta.root, 1, key)],
        locate(s, s.meta.root, key, Seq::empty(), s.meta.pages as nat).0.well_formed(),
        locate(s, s.meta.root, key, Seq::empty(), s.meta.pages as nat).0.meta == s.meta,
        forall|x: usize| #[trigger]
            page_of(locate(s, s.meta.root, key, Seq::empty(), s.meta.pages as nat).0, x)
                == page_of(s, x),
        is_child(pages(s)[s.meta.root].rows, target(pages(s), s.meta.root, 1, key)),
        pages(s).contains_key(target(pages(s), s.meta.root, 1, key)),
        pages(s).contains_key(s.meta.root),
        0 < s.meta.root < s.meta.pages,
        pages(s)[s.meta.root].kind == PageType::Internal,
        pages(s)[s.meta.root].rows.len() > 0,
        pages(s)[target(pages(s), s.meta.root, 1, key)].kind == PageType::Leaf,
        pages(s)[target(pages(s), s.meta.root, 1, key)].parent == Some(s.meta.root),
        pages(s)[target(pages(s), s.meta.root, 1, key)].well_formed(),
{
    let m = pages(s);
    let root = s.meta.root;
    let n = s.meta.pages;
    let full = usize::MAX + 1;
    let rows = m[root].rows;
    let b = branch(rows, key);
    let cur = target(m, root, 1, key);
    lemma_branch(rows, key, 0, full);
    assert(target(m, child(rows, b), 0, key) == child(rows, b));
    assert(cur == child(rows, b));
    assert(tree(m, n, child(rows, b), 0, low(rows, b, 0), high(rows, b, full), Some(root)));
    lemma_height(m, n, root, 1, 0, full, None);
    lemma_locate(s, root, 1, 0, full, None, key, Seq::empty(), n as nat);
    let s0 = locate(s, root, key, Seq::empty(), n as nat).0;
    assert forall|x: usize| #[trigger] page_of(s0, x) == page_of(s, x) by {
        assert(pages(s0).contains_key(x) == m.contains_key(x));
        if m.contains_key(x) {
            assert(pages(s0)[x] == m[x]);
        }
    }
    if b == 0 {
        assert(rows[0].left() == cur);
    } else {
        assert(rows[b - 1].right() == cur);
    }
}

/// The split of a leaf under a root without room gives three levels: an
/// insert into a sound tree of height 1 whose leaf has no room for the
/// row, and whose root has no room for one more pointer, splits the leaf
/// and then the root. A page that is allocated becomes the root, with one
/// pointer, which carries the first key of the upper half of the old
/// root; the old root keeps the lower part of its pointers and a page
/// that is allocated takes the upper part, both under the new root; the
/// leaves are as the split of the leaf left them, and those whose
/// pointers went to the new internal page name it as their parent.
#[verifier::rlimit(100)]
#[verifier::spinoff_prover]
pub proof fn lemma_three_levels(s: PagerView, row: RowView)
    requires
        sound(s, 1),
        row.kind() == RowType::Leaf,
        pages(s)[target(pages(s), s.meta.root, 1, row.id())].insert(row) == Err::<
            PageView,
            PageError,
        >(PageError::Full),
        pages(s)[target(pages(s), s.meta.root, 1, row.id())].rows.len() > 0,
        lower_part(pages(s)[target(pages(s), s.meta.root, 1, row.id())], row) is Ok,
        upper_part(pages(s)[target(pages(s), s.meta.root, 1, row.id())], row) is Ok,
        can_allocate(s),
        can_allocate(s.allocate().0),
        can_allocate(s.allocate().0.allocate().0),
        pages(s)[s.meta.root].insert(
            pointer_for(
                pages(s)[target(pages(s), s.meta.root, 1, row.id())],
                target(pages(s), s.meta.root, 1, row.id()),
                next_page(s),
            ),
        ) == Err::<PageView, PageError>(PageError::Full),
        lower_part(
            pages(s)[s.meta.root],
            pointer_for(
                pages(s)[target(pages(s), s.meta.root, 1, row.id())],
                target(pages(s), s.meta.root, 1, row.id()),
                next_page(s),
            ),
        ) is Ok,
        upper_part(
            pages(s)[s.meta.root],
            pointer_for(
                pages(s)[target(pages(s), s.meta.root, 1, row.id())],
                target(pages(s), s.meta.root, 1, row.id()),
                next_page(s),
            ),
        ) is Ok,
    ensures
        tree_insert(s, row).1 == Ok::<(), StorageError>(()),
        tree_insert(s, row).0.well_formed(),
        tree_insert(s, row).0.meta.root == next_page(s.allocate().0),
        page_of(tree_insert(s, row).0, next_page(s.allocate().0)) == Some(
            new_root(
                pages(s)[s.meta.root],
                s.meta.root,
                next_page(s.allocate().0.allocate().0),
            ),
        ),
        page_of(tree_insert(s, row).0, s.meta.root) == Some(
            (lower_part(
                pages(s)[s.meta.root],
                pointer_for(
                    pages(s)[target(pages(s), s.meta.root, 1, row.id())],
                    target(pages(s), s.meta.root, 1, row.id()),
                    next_page(s),
                ),
            )->Ok_0).with_parent(Some(next_page(s.allocate().0))),
        ),
        page_of(tree_insert(s, row).0, next_page(s.allocate().0.allocate().0)) == Some(
            (upper_part(
                pages(s)[s.meta.root],
                pointer_for(
                    pages(s)[target(pages(s), s.meta.root, 1, row.id())],
                    target(pages(s), s.meta.root, 1, row.id()),
                    next_page(s),
                ),
            )->Ok_0).with_parent(Some(next_page(s.allocate().0))),
        ),
        forall|x: usize|
            x != 0 && x != s.meta.root && x != next_page(s.allocate().0) && x != next_page(
                s.allocate().0.allocate().0,
            ) ==> #[trigger] page_of(tree_insert(s, row).0, x) == below(
                s,
                target(pages(s), s.meta.root, 1, row.id()),
                pages(s)[target(pages(s), s.meta.root, 1, row.id())],
                pages(s)[s.meta.root],
                row,
                x,
            ),
        page_of(tree_insert(s, row).0, s.meta.root)->0.kind == PageType::Internal,
        page_of(tree_insert(s, row).0, next_page(s.allocate().0.allocate().0))->0.kind
            == PageType::Internal,
        forall|x: usize| #[trigger]
            is_child(pages(s)[s.meta.root].rows, x) ==> page_of(tree_insert(s, row).0, x) is Some
                && page_of(tree_insert(s, row).0, x)->0.kind == PageType::Leaf,
{
    let m = pages(s);
    let root = s.meta.root;
    let n = s.meta.pages;
    let key = row.id();
    let above = m[root];
    let rows = above.rows;
    let cur = target(m, root, 1, key);
    let leaf = m[cur];
    let right = next_page(s);
    let top = next_page(s.allocate().0);
    let far = next_page(s.allocate().0.allocate().0);
    lemma_descent(s, key);
    let s0 = locate(s, root, key, Seq::empty(), n as nat).0;
    assert(tree_insert(s, row) == tree_split(s0, cur, row, 1));
    lemma_next_three(s, 1);
    assert forall|x: usize| #[trigger] is_child(rows, x) implies in_span(m, root, 1, x)
        && m.contains_key(x) && 0 < x < n && x != root by {
        lemma_root_children(m, n, root, x);
    }
    assert(is_child(rows, cur));
    assert(children_stored(s0, rows)) by {
        assert forall|x: usize| #[trigger] is_child(rows, x) implies x < s0.meta.pages && page_of(
            s0,
            x,
        ) is Some by {
            assert(m.contains_key(x));
        }
    }
    assert(children_apart(rows, root, top, far));
    assert(children_apart(rows, right, right, right));
    assert(in_span(m, root, 1, root));
    lemma_parts_well_formed(leaf, row);
    assert(page_of(s0, cur) == Some(leaf) && page_of(s0, root) == Some(above));
    assert(s0.allocate().0.meta == s.allocate().0.meta);
    assert(s0.allocate().0.allocate().0.meta == s.allocate().0.allocate().0.meta);
    assert(next_page(s0) == right && next_page(s0.allocate().0) == top && next_page(
        s0.allocate().0.allocate().0,
    ) == far);
    lemma_split_under_full_root(s0, cur, leaf, above, row);
    let t = tree_insert(s, row).0;
    assert forall|x: usize|
        x != 0 && x != root && x != top && x != far implies #[trigger] page_of(t, x) == below(
        s,
        cur,
        leaf,
        above,
        row,
        x,
    ) by {
        assert(page_of(t, x) == below(s0, cur, leaf, above, row, x));
    }
    assert forall|x: usize| #[trigger] is_child(rows, x) implies page_of(t, x) is Some && page_of(
        t,
        x,
    )->0.kind == PageType::Leaf by {
        lemma_root_children(m, n, root, x);
        lemma_kind_of_child(m, n, root, x);
        assert(page_of(t, x) == below(s, cur, leaf, above, row, x));
    }
}

} // verus!
