//! Further laws of well-formed trees: the tree of a fresh pager, what an
//! update does, in place or by taking the row out and inserting it anew,
//! what a delete does where no merge follows, and what a select gives
//! after a sequence of inserts.
use vstd::prelude::*;
use super::btree::{locate, tree_delete, tree_insert, tree_select, tree_select_one, tree_update};
use super::growth::{
    can_allocate, lemma_first_split, lemma_insert_sound, lemma_leaf_split,
    lemma_leaf_split_rows, lower_part, next_page, pointer_for, sound, upper_part,
};
use super::page::{
    has_id, ids_increasing, lemma_delete_keys, lemma_delete_rows, lemma_insert_rows,
    lemma_rows_concat, lemma_update_keys, lemma_update_rows, slot, PageType, PageView,
};
use super::pager::{lemma_meta_round_trip, PagerView};
use super::row::{RowType, RowView};
use super::shape::{
    after, before, is_tree, lemma_around, lemma_contents_sorted, lemma_has_id_concat,
    lemma_height, lemma_insert, lemma_key_in_leaf, lemma_locate, lemma_pages_after_write,
    lemma_put, lemma_select, lemma_target, lemma_well_formed_round_trip, lemma_within_has_id,
    page_of, pages, rows_of, target, target_hi, target_lo, tree, within,
};
use super::{PageError, StorageError};

verus! {

/// A pager that is opened on an empty file holds a tree that is a single
/// leaf without rows.
pub proof fn lemma_fresh_is_tree()
    ensures
        sound(PagerView::fresh(), 0),
        rows_of(PagerView::fresh(), 0) == Seq::<RowView>::empty(),
{
    let s = PagerView::fresh();
    let leaf = PageView { kind: PageType::Leaf, parent: None, rows: Seq::<RowView>::empty() };
    lemma_well_formed_round_trip(leaf);
    lemma_meta_round_trip(s.meta);
    assert(page_of(s, 1) == Some(leaf));
    assert(pages(s).contains_key(1) && pages(s)[1] == leaf);
}

/// Looking up a key in a well-formed tree gives the row that carries the
/// key, or reports that the key is missing if the tree holds no such row.
#[verifier::rlimit(60)]
#[verifier::spinoff_prover]
pub proof fn lemma_select_one(s: PagerView, h: nat, key: usize)
    requires
        is_tree(s, h),
    ensures
        has_id(rows_of(s, h), key) ==> (tree_select_one(s, key).1 matches Ok(row) && row.id()
            == key && rows_of(s, h).contains(row)),
        !has_id(rows_of(s, h), key) ==> tree_select_one(s, key).1 == Err::<RowView, StorageError>(
            StorageError::Page { cause: PageError::MissingKey },
        ),
        pages(tree_select_one(s, key).0) == pages(s),
{
    let m = pages(s);
    let root = s.meta.root;
    let n = s.meta.pages;
    let full = usize::MAX + 1;
    lemma_key_in_leaf(s, h, key);
    lemma_height(m, n, root, h, 0, full, None);
    lemma_locate(s, root, h, 0, full, None, key, Seq::empty(), n as nat);
    let leaf = m[target(m, root, h, key)];
    if has_id(leaf.rows, key) {
        lemma_target(m, n, root, h, 0, full, None, key);
        super::page::lemma_slot_exists(leaf.rows, key);
        let p = slot(leaf.rows, key);
        super::page::lemma_slot(leaf.rows, key, p);
        lemma_around(m, n, root, h, 0, full, None, key);
        let a = before(m, root, h, key);
        let all = a + leaf.rows + after(m, root, h, key);
        assert(all[a.len() + p] == leaf.rows[p]);
    }
}

/// A delete of a key that a well-formed tree does not hold is refused,
/// and the pages and the metadata are as before.
#[verifier::rlimit(60)]
#[verifier::spinoff_prover]
pub proof fn lemma_missing(s: PagerView, h: nat, key: usize)
    requires
        is_tree(s, h),
        !has_id(rows_of(s, h), key),
    ensures
        tree_delete(s, key).1 == Err::<(), StorageError>(
            StorageError::Page { cause: PageError::MissingKey },
        ),
        pages(tree_delete(s, key).0) == pages(s),
        tree_delete(s, key).0.meta == s.meta,
{
    let n = s.meta.pages;
    lemma_key_in_leaf(s, h, key);
    lemma_height(pages(s), n, s.meta.root, h, 0, usize::MAX + 1, None);
    lemma_locate(s, s.meta.root, h, 0, usize::MAX + 1, None, key, Seq::empty(), n as nat);
}

/// Rows that agree but under one key still do so between the same rows in
/// front and behind.
pub proof fn lemma_between(
    a: Seq<RowView>,
    x: Seq<RowView>,
    y: Seq<RowView>,
    c: Seq<RowView>,
    key: usize,
)
    requires
        forall|r: RowView|
            #![trigger x.contains(r)]
            #![trigger y.contains(r)]
            r.id() != key ==> (x.contains(r) <==> y.contains(r)),
    ensures
        forall|r: RowView|
            #![trigger (a + x + c).contains(r)]
            #![trigger (a + y + c).contains(r)]
            r.id() != key ==> ((a + x + c).contains(r) <==> (a + y + c).contains(r)),
{
    assert forall|r: RowView|
        #![trigger (a + x + c).contains(r)]
        #![trigger (a + y + c).contains(r)]
        r.id() != key implies ((a + x + c).contains(r) <==> (a + y + c).contains(r)) by {
        lemma_rows_concat(a + x, c, r);
        lemma_rows_concat(a, x, r);
        lemma_rows_concat(a + y, c, r);
        lemma_rows_concat(a, y, r);
    }
}

/// An update of a row of a well-formed tree whose new value fits in place
/// puts the row in place of the row with its key, which is the result:
/// the tree stays well formed, with the same keys, and every row under
/// another key is as it was.
#[verifier::rlimit(100)]
#[verifier::spinoff_prover]
pub proof fn lemma_update(s: PagerView, h: nat, row: RowView)
    requires
        is_tree(s, h),
        row.kind() == RowType::Leaf,
        pages(s)[target(pages(s), s.meta.root, h, row.id())].update(row) is Ok,
    ensures
        tree_update(s, row).1 matches Ok(replaced) && replaced.id() == row.id() && rows_of(
            s,
            h,
        ).contains(replaced),
        is_tree(tree_update(s, row).0, h),
        tree_update(s, row).0.meta == s.meta,
        rows_of(tree_update(s, row).0, h).contains(row),
        forall|id: usize|
            has_id(rows_of(tree_update(s, row).0, h), id) <==> has_id(rows_of(s, h), id),
        ids_increasing(rows_of(tree_update(s, row).0, h)),
        rows_of(s, h) == before(pages(s), s.meta.root, h, row.id()) + leaf_for(s, h, row).rows
            + after(pages(s), s.meta.root, h, row.id()),
        rows_of(tree_update(s, row).0, h) == before(pages(s), s.meta.root, h, row.id()) + leaf_for(
            s,
            h,
            row,
        ).rows.update(slot(leaf_for(s, h, row).rows, row.id()), row) + after(
            pages(s),
            s.meta.root,
            h,
            row.id(),
        ),
        tree_update(s, row).1 == Ok::<RowView, StorageError>(
            leaf_for(s, h, row).rows[slot(leaf_for(s, h, row).rows, row.id())],
        ),
        forall|r: RowView|
            #![trigger rows_of(tree_update(s, row).0, h).contains(r)]
            #![trigger rows_of(s, h).contains(r)]
            r.id() != row.id() ==> (rows_of(tree_update(s, row).0, h).contains(r) <==> rows_of(
                s,
                h,
            ).contains(r)),
{
    let m = pages(s);
    let root = s.meta.root;
    let n = s.meta.pages;
    let full = usize::MAX + 1;
    let key = row.id();
    let cur = target(m, root, h, key);
    let leaf = m[cur];
    let changed = (leaf.update(row)->Ok_0).0;
    lemma_height(m, n, root, h, 0, full, None);
    lemma_locate(s, root, h, 0, full, None, key, Seq::empty(), n as nat);
    let s1 = locate(s, root, key, Seq::empty(), n as nat).0;
    lemma_target(m, n, root, h, 0, full, None, key);
    let tl = target_lo(m, root, h, 0, key);
    let th = target_hi(m, root, h, full, key);
    lemma_update_keys(leaf, row, key);
    lemma_pages_after_write(s1, cur, changed);
    let t = tree_update(s, row).0;
    assert(t == s1.write(cur, changed).0);
    assert(within(changed.rows, tl, th)) by {
        assert forall|i: int| 0 <= i < changed.rows.len() implies tl <= (
        #[trigger] changed.rows[i]).id() < th by {
            let k = changed.rows[i].id();
            lemma_update_keys(leaf, row, k);
            assert(has_id(changed.rows, k));
            lemma_within_has_id(leaf.rows, tl, th, k);
        }
    }
    lemma_put(m, n, root, h, 0, full, None, key, changed);
    lemma_around(m, n, root, h, 0, full, None, key);
    let a = before(m, root, h, key);
    let c = after(m, root, h, key);
    super::page::lemma_slot_exists(leaf.rows, key);
    let p = slot(leaf.rows, key);
    super::page::lemma_slot(leaf.rows, key, p);
    assert((a + leaf.rows + c)[a.len() + p] == leaf.rows[p]);
    assert((a + changed.rows + c)[a.len() + p] == row);
    assert forall|id: usize| has_id(rows_of(t, h), id) <==> has_id(rows_of(s, h), id) by {
        lemma_update_keys(leaf, row, id);
        lemma_has_id_concat(a + changed.rows, c, id);
        lemma_has_id_concat(a, changed.rows, id);
        lemma_has_id_concat(a + leaf.rows, c, id);
        lemma_has_id_concat(a, leaf.rows, id);
    }
    lemma_contents_sorted(pages(t), n, root, h, 0, full, None);
    lemma_update_rows(leaf, row, row);
    assert forall|r: RowView|
        #![trigger changed.rows.contains(r)]
        #![trigger leaf.rows.contains(r)]
        r.id() != key implies (changed.rows.contains(r) <==> leaf.rows.contains(r)) by {
        lemma_update_rows(leaf, row, r);
    }
    lemma_between(a, changed.rows, leaf.rows, c, key);
}

/// A delete from a tree that is a single leaf takes the row out: the tree
/// stays a single leaf, with the rows that it held but the row under the
/// key that was deleted.
#[verifier::rlimit(100)]
#[verifier::spinoff_prover]
pub proof fn lemma_delete_root_leaf(s: PagerView, key: usize)
    requires
        is_tree(s, 0),
        has_id(rows_of(s, 0), key),
    ensures
        tree_delete(s, key).1 is Ok,
        is_tree(tree_delete(s, key).0, 0),
        tree_delete(s, key).0.meta == s.meta,
        forall|id: usize|
            has_id(rows_of(tree_delete(s, key).0, 0), id) <==> (has_id(rows_of(s, 0), id) && id
                != key),
        ids_increasing(rows_of(tree_delete(s, key).0, 0)),
        forall|r: RowView|
            #![trigger rows_of(tree_delete(s, key).0, 0).contains(r)]
            #![trigger rows_of(s, 0).contains(r)]
            rows_of(tree_delete(s, key).0, 0).contains(r) <==> (rows_of(s, 0).contains(r) && r.id()
                != key),
        pages(tree_delete(s, key).0) == pages(s).insert(
            s.meta.root,
            pages(s)[s.meta.root].delete(key)->Ok_0,
        ),
{
    let m = pages(s);
    let root = s.meta.root;
    let n = s.meta.pages;
    let full = usize::MAX + 1;
    let leaf = m[root];
    let shrunk = leaf.delete(key)->Ok_0;
    lemma_locate(s, root, 0, 0, full, None, key, Seq::empty(), n as nat);
    let s1 = locate(s, root, key, Seq::empty(), n as nat).0;
    lemma_delete_keys(leaf, key, key);
    lemma_pages_after_write(s1, root, shrunk);
    let t = tree_delete(s, key).0;
    assert(t == s1.write(root, shrunk).0);
    assert(within(shrunk.rows, 0, full)) by {
        assert forall|i: int| 0 <= i < shrunk.rows.len() implies 0 <= (
        #[trigger] shrunk.rows[i]).id() < full by {}
    }
    lemma_put(m, n, root, 0, 0, full, None, key, shrunk);
    assert forall|id: usize|
        has_id(rows_of(t, 0), id) <==> (has_id(rows_of(s, 0), id) && id != key) by {
        lemma_delete_keys(leaf, key, id);
    }
    lemma_contents_sorted(pages(t), n, root, 0, 0, full, None);
    assert forall|r: RowView|
        #![trigger rows_of(t, 0).contains(r)]
        #![trigger rows_of(s, 0).contains(r)]
        rows_of(t, 0).contains(r) <==> (rows_of(s, 0).contains(r) && r.id() != key) by {
        lemma_delete_rows(leaf, key, r);
    }
}

/// The leaf of the tree that the key of a row belongs to.
pub open spec fn leaf_for(s: PagerView, h: nat, row: RowView) -> PageView {
    pages(s)[target(pages(s), s.meta.root, h, row.id())]
}

/// An insert that the laws of growth speak of: the tree is sound, of any
/// height, the row is a leaf row with a new key, and either the leaf has
/// room for it, or the tree is of height 0 or 1, the leaf is split, the
/// pages for the split can be allocated, both halves take their rows,
/// and, where the tree has a root over its leaves, the root has room for
/// one more pointer.
#[verifier::opaque]
pub open spec fn regular(s: PagerView, h: nat, row: RowView) -> bool {
    &&& sound(s, h)
    &&& row.kind() == RowType::Leaf
    &&& !has_id(rows_of(s, h), row.id())
    &&& (leaf_for(s, h, row).insert(row) is Ok || {
        &&& h <= 1
        &&& leaf_for(s, h, row).insert(row) == Err::<PageView, PageError>(PageError::Full)
        &&& leaf_for(s, h, row).rows.len() > 0
        &&& lower_part(leaf_for(s, h, row), row) is Ok
        &&& upper_part(leaf_for(s, h, row), row) is Ok
        &&& can_allocate(s)
        &&& h == 0 ==> can_allocate(s.allocate().0)
        &&& h == 1 ==> pages(s)[s.meta.root].insert(
            pointer_for(
                leaf_for(s, h, row),
                target(pages(s), s.meta.root, h, row.id()),
                next_page(s),
            ),
        ) is Ok
    })
}

/// The height of the tree after a regular insert: a tree that is a single
/// leaf without room gets a root.
pub open spec fn height_after(s: PagerView, h: nat, row: RowView) -> nat {
    if h == 0 && !(leaf_for(s, h, row).insert(row) is Ok) {
        1
    } else {
        h
    }
}

/// The pager after an insert.
#[verifier::opaque]
pub open spec fn inserted(s: PagerView, row: RowView) -> PagerView {
    tree_insert(s, row).0
}

/// What a select gives.
#[verifier::opaque]
pub open spec fn selected(s: PagerView) -> Result<Seq<RowView>, StorageError> {
    tree_select(s).1
}

/// The keys of the rows `a` are the keys of the rows `b` and of the rows
/// `c`.
pub open spec fn keys_of_both(a: Seq<RowView>, b: Seq<RowView>, c: Seq<RowView>) -> bool {
    forall|id: usize| has_id(a, id) <==> (has_id(b, id) || has_id(c, id))
}

/// The rows `a` are the rows `b` and the rows `c`, each with its value.
pub open spec fn rows_of_both(a: Seq<RowView>, b: Seq<RowView>, c: Seq<RowView>) -> bool {
    forall|r: RowView|
        #![trigger a.contains(r)]
        #![trigger b.contains(r)]
        #![trigger c.contains(r)]
        a.contains(r) <==> (b.contains(r) || c.contains(r))
}

/// A regular insert leaves every row of the tree as it was: the tree then
/// holds the rows that it held and the new row.
#[verifier::rlimit(100)]
#[verifier::spinoff_prover]
pub proof fn lemma_regular_rows(s: PagerView, h: nat, row: RowView)
    requires
        regular(s, h, row),
    ensures
        rows_of_both(rows_of(inserted(s, row), height_after(s, h, row)), rows_of(s, h), seq![row]),
{
    reveal(regular);
    reveal(inserted);
    let t = tree_insert(s, row).0;
    let g = height_after(s, h, row);
    let one = seq![row];
    assert forall|r: RowView| #![trigger one.contains(r)] one.contains(r) <==> r == row by {
        if r == row {
            assert(one[0] == r);
        }
    }
    if leaf_for(s, h, row).insert(row) is Ok {
        lemma_insert(s, h, row);
        let a = before(pages(s), s.meta.root, h, row.id());
        let c = after(pages(s), s.meta.root, h, row.id());
        let x = leaf_for(s, h, row);
        let y = x.insert(row)->Ok_0;
        lemma_height(pages(s), s.meta.pages, s.meta.root, h, 0, usize::MAX + 1, None);
        lemma_target(pages(s), s.meta.pages, s.meta.root, h, 0, usize::MAX + 1, None, row.id());
        assert forall|r: RowView|
            #![trigger rows_of(t, g).contains(r)]
            #![trigger rows_of(s, h).contains(r)]
            rows_of(t, g).contains(r) <==> (rows_of(s, h).contains(r) || r == row) by {
            lemma_insert_rows(x, row, r);
            lemma_rows_concat(a + x.rows, c, r);
            lemma_rows_concat(a, x.rows, r);
            lemma_rows_concat(a + y.rows, c, r);
            lemma_rows_concat(a, y.rows, r);
        }
        assert(rows_of_both(rows_of(t, g), rows_of(s, h), one));
    } else if h == 0 {
        assert(target(pages(s), s.meta.root, 0, row.id()) == s.meta.root);
        lemma_first_split(s, row);
        assert(rows_of_both(rows_of(t, g), rows_of(s, h), one));
    } else {
        lemma_leaf_split_rows(s, row);
        assert(rows_of_both(rows_of(t, g), rows_of(s, h), one));
    }
}

/// A regular insert succeeds and leaves a sound tree that holds the rows
/// that it held, each with its value, and the new row; a select then gives
/// the rows of the tree in strictly growing key order.
#[verifier::rlimit(100)]
#[verifier::spinoff_prover]
pub proof fn lemma_regular_insert(s: PagerView, h: nat, row: RowView)
    requires
        regular(s, h, row),
    ensures
        tree_insert(s, row).1 is Ok,
        inserted(s, row) == tree_insert(s, row).0,
        selected(inserted(s, row)) == tree_select(tree_insert(s, row).0).1,
        sound(inserted(s, row), height_after(s, h, row)),
        keys_of_both(rows_of(inserted(s, row), height_after(s, h, row)), rows_of(s, h), seq![row]),
        rows_of_both(rows_of(inserted(s, row), height_after(s, h, row)), rows_of(s, h), seq![row]),
        selected(inserted(s, row)) == Ok::<Seq<RowView>, StorageError>(
            rows_of(inserted(s, row), height_after(s, h, row)),
        ),
        ids_increasing(rows_of(inserted(s, row), height_after(s, h, row))),
{
    lemma_regular_rows(s, h, row);
    reveal(regular);
    reveal(inserted);
    reveal(selected);
    let t = tree_insert(s, row).0;
    if leaf_for(s, h, row).insert(row) is Ok {
        lemma_insert(s, h, row);
        lemma_insert_sound(s, h, row);
    } else if h == 0 {
        assert(target(pages(s), s.meta.root, 0, row.id()) == s.meta.root);
        lemma_first_split(s, row);
    } else {
        lemma_leaf_split(s, row);
    }
    lemma_select(t, height_after(s, h, row), 0, usize::MAX + 1);
    let one = seq![row];
    assert forall|id: usize| has_id(one, id) <==> id == row.id() by {
        if id == row.id() {
            assert(one[0].id() == id);
        }
    }
}

/// The pager after the rows were inserted one after the other.
pub open spec fn after_inserts(s: PagerView, rows: Seq<RowView>) -> PagerView
    decreases rows.len(),
{
    if rows.len() == 0 {
        s
    } else {
        inserted(after_inserts(s, rows.drop_last()), rows.last())
    }
}

/// The height of the tree after the rows were inserted.
pub open spec fn height_after_all(s: PagerView, h: nat, rows: Seq<RowView>) -> nat
    decreases rows.len(),
{
    if rows.len() == 0 {
        h
    } else {
        height_after(
            after_inserts(s, rows.drop_last()),
            height_after_all(s, h, rows.drop_last()),
            rows.last(),
        )
    }
}

/// Every one of the inserts is regular.
pub open spec fn all_regular(s: PagerView, h: nat, rows: Seq<RowView>) -> bool
    decreases rows.len(),
{
    rows.len() == 0 || (all_regular(s, h, rows.drop_last()) && regular(
        after_inserts(s, rows.drop_last()),
        height_after_all(s, h, rows.drop_last()),
        rows.last(),
    ))
}

/// The keys of rows and of one more row are the keys of all of them.
pub proof fn lemma_keys_step(
    a: Seq<RowView>,
    b: Seq<RowView>,
    c: Seq<RowView>,
    rows: Seq<RowView>,
)
    requires
        rows.len() > 0,
        keys_of_both(a, b, seq![rows.last()]),
        keys_of_both(b, c, rows.drop_last()),
    ensures
        keys_of_both(a, c, rows),
{
    let init = rows.drop_last();
    let one = seq![rows.last()];
    assert forall|id: usize| has_id(a, id) <==> (has_id(c, id) || has_id(rows, id)) by {
        assert(has_id(a, id) <==> (has_id(b, id) || has_id(one, id)));
        assert(has_id(b, id) <==> (has_id(c, id) || has_id(init, id)));
        if has_id(rows, id) {
            let i = choose|i: int| 0 <= i < rows.len() && (#[trigger] rows[i]).id() == id;
            if i < init.len() {
                assert(init[i].id() == id);
            } else {
                assert(one[0].id() == id);
            }
        }
        if has_id(init, id) {
            let i = choose|i: int| 0 <= i < init.len() && (#[trigger] init[i]).id() == id;
            assert(rows[i].id() == id);
        }
        if has_id(one, id) {
            let i = choose|i: int| 0 <= i < one.len() && (#[trigger] one[i]).id() == id;
            assert(rows[rows.len() - 1].id() == id);
        }
    }
}

/// The rows of a run and of one more row are the rows of all of them.
pub proof fn lemma_rows_step(a: Seq<RowView>, b: Seq<RowView>, c: Seq<RowView>, rows: Seq<RowView>)
    requires
        rows.len() > 0,
        rows_of_both(a, b, seq![rows.last()]),
        rows_of_both(b, c, rows.drop_last()),
    ensures
        rows_of_both(a, c, rows),
{
    let init = rows.drop_last();
    let one = seq![rows.last()];
    assert(rows =~= init + one);
    assert forall|r: RowView|
        #![trigger a.contains(r)]
        #![trigger c.contains(r)]
        #![trigger rows.contains(r)]
        a.contains(r) <==> (c.contains(r) || rows.contains(r)) by {
        assert(a.contains(r) <==> (b.contains(r) || one.contains(r)));
        assert(b.contains(r) <==> (c.contains(r) || init.contains(r)));
        lemma_rows_concat(init, one, r);
    }
}

/// After regular inserts, a select gives rows in strictly growing key
/// order: the rows that the tree held and the rows that were inserted,
/// each with its value, and no others.
#[verifier::rlimit(100)]
#[verifier::spinoff_prover]
pub proof fn lemma_inserts(s: PagerView, h: nat, rows: Seq<RowView>)
    requires
        sound(s, h),
        all_regular(s, h, rows),
    ensures
        sound(after_inserts(s, rows), height_after_all(s, h, rows)),
        selected(after_inserts(s, rows)) == Ok::<Seq<RowView>, StorageError>(
            rows_of(after_inserts(s, rows), height_after_all(s, h, rows)),
        ),
        ids_increasing(rows_of(after_inserts(s, rows), height_after_all(s, h, rows))),
        keys_of_both(
            rows_of(after_inserts(s, rows), height_after_all(s, h, rows)),
            rows_of(s, h),
            rows,
        ),
        rows_of_both(
            rows_of(after_inserts(s, rows), height_after_all(s, h, rows)),
            rows_of(s, h),
            rows,
        ),
    decreases rows.len(),
{
    if rows.len() == 0 {
        reveal(selected);
        lemma_select(s, h, 0, usize::MAX + 1);
        assert forall|id: usize| !has_id(rows, id) by {}
        assert forall|r: RowView| !rows.contains(r) by {}
    } else {
        let init = rows.drop_last();
        let mid = after_inserts(s, init);
        let g = height_after_all(s, h, init);
        lemma_inserts(s, h, init);
        lemma_regular_insert(mid, g, rows.last());
        lemma_keys_step(
            rows_of(after_inserts(s, rows), height_after_all(s, h, rows)),
            rows_of(mid, g),
            rows_of(s, h),
            rows,
        );
        lemma_rows_step(
            rows_of(after_inserts(s, rows), height_after_all(s, h, rows)),
            rows_of(mid, g),
            rows_of(s, h),
            rows,
        );
    }
}

/// An insert that is regular for a pager is regular for every pager that
/// holds the same pages and metadata.
pub proof fn lemma_regular_alike(s: PagerView, t: PagerView, h: nat, row: RowView)
    requires
        regular(s, h, row),
        t.well_formed(),
        pages(t) == pages(s),
        t.meta == s.meta,
    ensures
        regular(t, h, row),
        height_after(t, h, row) == height_after(s, h, row),
        rows_of(t, h) == rows_of(s, h),
{
    reveal(regular);
}

/// An update of a row of a tree that is a single leaf, where the new value
/// does not fit in place, takes the row out and inserts it anew; where
/// that insert is regular, the result is the row that was replaced, the
/// tree stays sound and holds the rows that it held under other keys,
/// each as it was, and the new row, and a select gives them in strictly
/// growing key order.
#[verifier::rlimit(100)]
#[verifier::spinoff_prover]
pub proof fn lemma_update_moves(s: PagerView, row: RowView)
    requires
        sound(s, 0),
        row.kind() == RowType::Leaf,
        pages(s)[s.meta.root].update(row) == Err::<(PageView, RowView), PageError>(
            PageError::Full,
        ),
        regular(tree_delete(s, row.id()).0, 0, row),
    ensures
        tree_update(s, row).1 == Ok::<RowView, StorageError>(
            pages(s)[s.meta.root].rows[slot(pages(s)[s.meta.root].rows, row.id())],
        ),
        sound(tree_update(s, row).0, height_after(tree_delete(s, row.id()).0, 0, row)),
        forall|r: RowView|
            #![trigger rows_of(
                tree_update(s, row).0,
                height_after(tree_delete(s, row.id()).0, 0, row),
            ).contains(r)]
            #![trigger rows_of(s, 0).contains(r)]
            rows_of(
                tree_update(s, row).0,
                height_after(tree_delete(s, row.id()).0, 0, row),
            ).contains(r) <==> ((rows_of(s, 0).contains(r) && r.id() != row.id()) || r == row),
        ids_increasing(
            rows_of(tree_update(s, row).0, height_after(tree_delete(s, row.id()).0, 0, row)),
        ),
        selected(tree_update(s, row).0) == Ok::<Seq<RowView>, StorageError>(
            rows_of(tree_update(s, row).0, height_after(tree_delete(s, row.id()).0, 0, row)),
        ),
{
    let root = s.meta.root;
    let n = s.meta.pages;
    let key = row.id();
    let full = usize::MAX + 1;
    lemma_locate(s, root, 0, 0, full, None, key, Seq::empty(), n as nat);
    let s1 = locate(s, root, key, Seq::empty(), n as nat).0;
    assert(target(pages(s), root, 0, key) == root);
    let d = tree_delete(s, key).0;
    let d1 = tree_delete(s1, key).0;
    lemma_delete_root_leaf(s, key);
    lemma_delete_root_leaf(s1, key);
    lemma_regular_alike(d, d1, 0, row);
    lemma_regular_insert(d1, 0, row);
    let g = height_after(d, 0, row);
    let t = tree_update(s, row).0;
    assert(t == inserted(d1, row)) by {
        reveal(inserted);
    }
    let one = seq![row];
    assert forall|r: RowView| #![trigger one.contains(r)] one.contains(r) <==> r == row by {
        if r == row {
            assert(one[0] == r);
        }
    }
    assert(rows_of_both(rows_of(t, g), rows_of(d1, 0), one));
    assert forall|r: RowView|
        #![trigger rows_of(t, g).contains(r)]
        #![trigger rows_of(s, 0).contains(r)]
        rows_of(t, g).contains(r) <==> ((rows_of(s, 0).contains(r) && r.id() != key) || r
            == row) by {
        assert(rows_of(d, 0).contains(r) <==> (rows_of(s, 0).contains(r) && r.id() != key));
    }
}

} // verus!
