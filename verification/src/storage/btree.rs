//! The B-Tree over the pages of a pager.
//!
//! Leaf pages hold the records in key order; internal pages hold
//! separators, each with the page of the smaller keys on its left and the
//! page of the keys from the separator on on its right. Every operation is
//! stated as a function from the state of the pager before it to the state
//! after it and the result. What the operations mean for a well-formed
//! tree is proved in the modules `shape`, `growth`, `shrink` and `laws`.
use std::collections::VecDeque;
use vstd::prelude::*;
use super::page::{
    all_of_kind, has_id, lemma_total_size_remove, lemma_total_size_split, lemma_total_size_update, linked, search_rows,
    slot, total_size, views, with_left, with_right, Page, PageType, PageView, ROW_SPACE,
};
use super::pager::{lemma_read_keeps, Pager, PagerView};
use super::row::{Row, RowType, RowView};
use crate::text::{decimal, push_decimal, push_text};
use super::{EngineAction, PageError, StorageEngine, StorageError};
use crate::command::{Command, CommandView};
use crate::statement::{print_row, printable, row_line, Statement, StatementView};
use crate::utilities::chars_of;

verus! {

/// The error for a page graph that is no tree.
pub open spec fn corrupt() -> StorageError {
    StorageError::Page { cause: PageError::Corrupt }
}

/// The pointer of an internal page that a key is sought under, and the
/// child to go on with: the separator that equals the key leads to its
/// right child; else the separator at the key's slot (the last one for a
/// key beyond all) leads to its left child if it is not below the key and
/// to its right child if it is.
pub open spec fn choice(rows: Seq<RowView>, id: usize) -> Option<(usize, usize)> {
    let p = slot(rows, id);
    if rows.len() == 0 {
        None
    } else if has_id(rows, id) {
        Some((p as usize, rows[p].right()))
    } else {
        let q = if p == rows.len() {
            p - 1
        } else {
            p
        };
        Some(
            (
                q as usize,
                if rows[q].id() >= id {
                    rows[q].left()
                } else {
                    rows[q].right()
                },
            ),
        )
    }
}

/// Where the descent from `cur` for the key `id` ends: the leaf, the
/// pointers that were followed, and the leaf page as it was read. At most
/// `fuel` internal pages are passed; a longer path is no path of a tree.
pub open spec fn locate(
    s: PagerView,
    cur: usize,
    id: usize,
    crumbs: Seq<(usize, usize)>,
    fuel: nat,
) -> (PagerView, Result<(usize, Seq<(usize, usize)>, PageView), StorageError>)
    decreases fuel,
{
    let (s1, r) = s.read(cur);
    match r {
        Err(e) => (s1, Err(e)),
        Ok(page) => if page.kind == PageType::Leaf {
            (s1, Ok((cur, crumbs, page)))
        } else if fuel == 0 {
            (s1, Err(corrupt()))
        } else {
            match choice(page.rows, id) {
                None => (s1, Err(corrupt())),
                Some((q, child)) => locate(s1, child, id, crumbs.push((cur, q)), (fuel - 1) as nat),
            }
        },
    }
}

/// Page `child` is put under `parent`.
pub open spec fn reparent(s: PagerView, child: usize, parent: usize) -> (
    PagerView,
    Result<(), StorageError>,
) {
    let (s1, r) = s.read(child);
    match r {
        Err(e) => (s1, Err(e)),
        Ok(page) => s1.write(child, page.with_parent(Some(parent))),
    }
}

/// Both children of the pointer `row` are put under `parent`.
pub open spec fn reparent_row(s: PagerView, row: RowView, parent: usize) -> (
    PagerView,
    Result<(), StorageError>,
) {
    let (s1, r) = reparent(s, row.left(), parent);
    match r {
        Err(e) => (s1, Err(e)),
        Ok(_) => reparent(s1, row.right(), parent),
    }
}

/// The children of all the pointers are put under `parent`, pointer by
/// pointer.
pub open spec fn reparent_all(s: PagerView, rows: Seq<RowView>, parent: usize) -> (
    PagerView,
    Result<(), StorageError>,
)
    decreases rows.len(),
{
    if rows.len() == 0 {
        (s, Ok(()))
    } else {
        let (s1, r) = reparent_row(s, rows[0], parent);
        match r {
            Err(e) => (s1, Err(e)),
            Ok(_) => reparent_all(s1, rows.subrange(1, rows.len() as int), parent),
        }
    }
}

/// Both pages of a split are written.
pub open spec fn write_halves(
    s: PagerView,
    left_id: usize,
    left: PageView,
    right_id: usize,
    right: PageView,
) -> (PagerView, Result<(), StorageError>) {
    let (s1, r) = s.write(left_id, left);
    match r {
        Err(e) => (s1, Err(e)),
        Ok(_) => s1.write(right_id, right),
    }
}

/// The children of the pointers of an internal page are put under
/// `parent`; the rows of a leaf page have no children.
pub open spec fn move_children(s: PagerView, kind: PageType, rows: Seq<RowView>, parent: usize) -> (
    PagerView,
    Result<(), StorageError>,
) {
    if kind == PageType::Internal {
        reparent_all(s, rows, parent)
    } else {
        (s, Ok(()))
    }
}

/// `row` is inserted into the half that it belongs to, the upper one from
/// its first key on, and both halves are written. The children of a
/// pointer that goes to the upper half are put under it.
pub open spec fn place(
    s: PagerView,
    row: RowView,
    lower: PageView,
    upper: PageView,
    id: usize,
    right_id: usize,
) -> (PagerView, Result<(), StorageError>) {
    if row.id() >= upper.rows[0].id() {
        let (s1, r1) = move_children(s, upper.kind, seq![row], right_id);
        match r1 {
            Err(e) => (s1, Err(e)),
            Ok(_) => match upper.insert(row) {
                Err(e) => (s1, Err(StorageError::Page { cause: e })),
                Ok(grown) => write_halves(s1, id, lower, right_id, grown),
            },
        }
    } else {
        match lower.insert(row) {
            Err(e) => (s, Err(StorageError::Page { cause: e })),
            Ok(grown) => write_halves(s, id, grown, right_id, upper),
        }
    }
}

/// The lower half of a page: the rows before the middle.
pub open spec fn lower_half(target: PageView) -> PageView {
    target.with_rows(target.rows.subrange(0, (target.rows.len() / 2) as int))
}

/// The upper half of a page: the rows from the middle on.
pub open spec fn upper_half(target: PageView) -> PageView {
    target.with_rows(
        target.rows.subrange((target.rows.len() / 2) as int, target.rows.len() as int),
    )
}

/// The pointer to the halves of page `id`: it carries the first key of the
/// upper half.
pub open spec fn separator(target: PageView, id: usize, right_id: usize) -> RowView {
    RowView::Internal { id: upper_half(target).rows[0].id(), left: id, right: right_id }
}

/// The rows of `target`, which is page `id`, are parted between page `id`
/// and the new page `right_id`, and `row` is inserted.
pub open spec fn split_page(
    s: PagerView,
    id: usize,
    target: PageView,
    right_id: usize,
    row: RowView,
) -> (PagerView, Result<RowView, StorageError>) {
    let (s1, r1) = move_children(s, target.kind, upper_half(target).rows, right_id);
    match r1 {
        Err(e) => (s1, Err(e)),
        Ok(_) => {
            let (s2, r2) = place(s1, row, lower_half(target), upper_half(target), id, right_id);
            match r2 {
                Err(e) => (s2, Err(e)),
                Ok(_) => (s2, Ok(separator(target, id, right_id))),
            }
        },
    }
}

/// Page `id` is split in two and `row` is inserted into the half that it
/// belongs to. A new page takes the upper half of the rows; the pointer
/// that is returned carries the first key of the new page and points to
/// both. A page without a parent, or of another kind than `row`, is no
/// page of a tree; a page without rows cannot make room.
pub open spec fn split_node(s: PagerView, id: usize, row: RowView) -> (
    PagerView,
    Result<RowView, StorageError>,
) {
    let (s1, r1) = s.read(id);
    match r1 {
        Err(e) => (s1, Err(e)),
        Ok(target) => if target.parent is None || target.kind.row_kind() != row.kind() {
            (s1, Err(corrupt()))
        } else if target.rows.len() == 0 {
            (s1, Err(StorageError::Page { cause: PageError::Full }))
        } else {
            let (s2, r2) = s1.allocate();
            match r2 {
                Err(e) => (s2, Err(e)),
                Ok(right_id) => split_page(s2, id, target, right_id, row),
            }
        },
    }
}

/// The root is split under a new root, which holds the one pointer.
pub open spec fn split_root(s: PagerView, cur: usize, row: RowView) -> (
    PagerView,
    Result<(), StorageError>,
) {
    let (s1, r1) = s.allocate();
    match r1 {
        Err(e) => (s1, Err(e)),
        Ok(parent_id) => {
            let (s2, r2) = reparent(s1, cur, parent_id);
            match r2 {
                Err(e) => (s2, Err(e)),
                Ok(_) => {
                    let (s3, r3) = split_node(s2, cur, row);
                    match r3 {
                        Err(e) => (s3, Err(e)),
                        Ok(pointer) => {
                            let (s4, r4) = s3.write(
                                parent_id,
                                PageView {
                                    kind: PageType::Internal,
                                    parent: None,
                                    rows: seq![pointer],
                                },
                            );
                            match r4 {
                                Err(e) => (s4, Err(e)),
                                Ok(_) => (s4.set_root(parent_id), Ok(())),
                            }
                        },
                    }
                },
            }
        },
    }
}

/// Page `cur`, which has no room for `row`, is split and `row` inserted.
/// The pointer to the halves goes to a new root if `cur` was the root,
/// else to the parent, which is split in turn if it has no room. At most
/// `depth` parents are split; a longer chain of parents is no path of a
/// tree.
pub open spec fn tree_split(s: PagerView, cur: usize, row: RowView, depth: nat) -> (
    PagerView,
    Result<(), StorageError>,
)
    decreases depth,
{
    if cur == s.meta.root {
        split_root(s, cur, row)
    } else {
        let (s1, r1) = s.read(cur);
        match r1 {
            Err(e) => (s1, Err(e)),
            Ok(page) => match page.parent {
                None => (s1, Err(corrupt())),
                Some(parent_id) => {
                    let (s2, r2) = split_node(s1, cur, row);
                    match r2 {
                        Err(e) => (s2, Err(e)),
                        Ok(pointer) => {
                            let (s3, r3) = s2.read(parent_id);
                            match r3 {
                                Err(e) => (s3, Err(e)),
                                Ok(parent) => if parent.kind != PageType::Internal {
                                    (s3, Err(corrupt()))
                                } else {
                                    match parent.insert(pointer) {
                                        Ok(grown) => s3.write(parent_id, grown),
                                        Err(PageError::Full) => if depth == 0 {
                                            (s3, Err(corrupt()))
                                        } else {
                                            tree_split(s3, parent_id, pointer, (depth - 1) as nat)
                                        },
                                        Err(e) => (
                                            s3,
                                            Err(
                                                StorageError::Engine {
                                                    action: EngineAction::Split,
                                                    cause: e,
                                                },
                                            ),
                                        ),
                                    }
                                },
                            }
                        },
                    }
                },
            },
        }
    }
}

/// Inserting a leaf row: the row goes to the leaf that the descent for its
/// key ends in; a leaf without room is split; a key that the leaf holds
/// is a duplicate.
pub open spec fn tree_insert(s: PagerView, row: RowView) -> (PagerView, Result<(), StorageError>) {
    let (s1, r) = locate(s, s.meta.root, row.id(), Seq::empty(), s.meta.pages as nat);
    match r {
        Err(e) => (s1, Err(e)),
        Ok((leaf, crumbs, page)) => match page.insert(row) {
            Ok(grown) => s1.write(leaf, grown),
            Err(PageError::Full) => tree_split(s1, leaf, row, crumbs.len()),
            Err(e) => (s1, Err(StorageError::Engine { action: EngineAction::Insert, cause: e })),
        },
    }
}

/// Looking a key up: the row of the leaf that the descent ends in.
pub open spec fn tree_select_one(s: PagerView, id: usize) -> (
    PagerView,
    Result<RowView, StorageError>,
) {
    let (s1, r) = locate(s, s.meta.root, id, Seq::empty(), s.meta.pages as nat);
    match r {
        Err(e) => (s1, Err(e)),
        Ok((leaf, crumbs, page)) => if has_id(page.rows, id) {
            (s1, Ok(page.rows[slot(page.rows, id)]))
        } else {
            (s1, Err(StorageError::Page { cause: PageError::MissingKey }))
        },
    }
}

/// The page after the rows were inserted one by one, the last one first.
pub open spec fn absorb(page: PageView, rows: Seq<RowView>) -> Result<PageView, PageError>
    decreases rows.len(),
{
    if rows.len() == 0 {
        Ok(page)
    } else {
        match page.insert(rows.last()) {
            Err(e) => Err(e),
            Ok(grown) => absorb(grown, rows.drop_last()),
        }
    }
}

/// The pointers of a parent after the pointer at `pos` was taken out: the
/// pointer before it takes `successor` as right child, the pointer after
/// it takes `successor` as left child.
pub open spec fn close_gap(rows: Seq<RowView>, pos: int, successor: usize) -> Seq<RowView> {
    let cut = rows.remove(pos);
    let a = if pos > 0 {
        cut.update(pos - 1, with_right(cut[pos - 1], successor))
    } else {
        cut
    };
    if pos < cut.len() {
        a.update(pos, with_left(cut[pos], successor))
    } else {
        a
    }
}

/// The three pages of a merge are read: the page that stays, the page
/// that goes, and the parent of the page that stays.
pub open spec fn gather(s: PagerView, successor_id: usize, ancestor_id: usize) -> (
    PagerView,
    Result<(PageView, PageView, usize, PageView), StorageError>,
) {
    let (s1, r1) = s.read(successor_id);
    match r1 {
        Err(e) => (s1, Err(e)),
        Ok(successor) => {
            let (s2, r2) = s1.read(ancestor_id);
            match r2 {
                Err(e) => (s2, Err(e)),
                Ok(ancestor) => match successor.parent {
                    None => (s2, Err(corrupt())),
                    Some(parent_id) => {
                        let (s3, r3) = s2.read(parent_id);
                        match r3 {
                            Err(e) => (s3, Err(e)),
                            Ok(parent) => (s3, Ok((successor, ancestor, parent_id, parent))),
                        }
                    },
                },
            }
        },
    }
}

/// The rows of the page that goes are inserted into the page that stays,
/// which is written; the page that goes is freed.
pub open spec fn fold_in(
    s: PagerView,
    successor_id: usize,
    successor: PageView,
    ancestor_id: usize,
    ancestor: PageView,
) -> (PagerView, Result<(), StorageError>) {
    match absorb(successor, ancestor.rows) {
        Err(e) => (s, Err(StorageError::Page { cause: e })),
        Ok(merged) => {
            let (s1, r1) = s.write(successor_id, merged);
            match r1 {
                Err(e) => (s1, Err(e)),
                Ok(_) => s1.free(ancestor_id),
            }
        },
    }
}

/// After a merge under the root: a root that is left without a pointer
/// gives way to the page that stays.
pub open spec fn settle_root(s: PagerView, remaining: nat, successor_id: usize) -> PagerView {
    if remaining == 0 {
        s.set_root(successor_id)
    } else {
        s
    }
}

/// Page `cur`, from which a row was deleted, is merged with its sibling
/// under the pointer that the last breadcrumb names, if the rows of both
/// fit into one page.
pub open spec fn attempt_merge(s: PagerView, cur: usize, crumbs: Seq<(usize, usize)>) -> (
    PagerView,
    Result<(), StorageError>,
)
    decreases crumbs.len(), 1nat,
{
    let (s1, r1) = s.read(cur);
    match r1 {
        Err(e) => (s1, Err(e)),
        Ok(page) => if crumbs.len() == 0 {
            (s1, Err(corrupt()))
        } else {
            let (s2, r2) = s1.read(crumbs.last().0);
            match r2 {
                Err(e) => (s2, Err(e)),
                Ok(parent) => if parent.kind != PageType::Internal || crumbs.last().1
                    >= parent.rows.len() {
                    (s2, Err(corrupt()))
                } else {
                    let pointer = parent.rows[crumbs.last().1 as int];
                    let sibling_id = if pointer.left() == cur {
                        pointer.right()
                    } else {
                        pointer.left()
                    };
                    let (s3, r3) = s2.read(sibling_id);
                    match r3 {
                        Err(e) => (s3, Err(e)),
                        Ok(sibling) => if total_size(page.rows) + total_size(sibling.rows)
                            <= ROW_SPACE {
                            if pointer.left() == cur {
                                merge(s3, cur, sibling_id, crumbs.last().1, crumbs.drop_last())
                            } else {
                                merge(s3, sibling_id, cur, crumbs.last().1, crumbs.drop_last())
                            }
                        } else {
                            (s3, Ok(()))
                        },
                    }
                },
            }
        },
    }
}

/// Page `ancestor_id` is merged into page `successor_id`: its rows move
/// over and it is freed; the parent loses the pointer at `pos`, and the
/// pointers beside it point to the page that stays. A root that is left
/// without a pointer gives way to the page that stays; a parent that is
/// not the root is merged in turn if it can be.
pub open spec fn merge(
    s: PagerView,
    successor_id: usize,
    ancestor_id: usize,
    pos: usize,
    crumbs: Seq<(usize, usize)>,
) -> (PagerView, Result<(), StorageError>)
    decreases crumbs.len(), 2nat,
{
    let (s1, r1) = gather(s, successor_id, ancestor_id);
    match r1 {
        Err(e) => (s1, Err(e)),
        Ok((successor, ancestor, parent_id, parent)) => if successor.kind != ancestor.kind
            || parent.kind != PageType::Internal || pos >= parent.rows.len() {
            (s1, Err(corrupt()))
        } else {
            let (s2, r2) = fold_in(s1, successor_id, successor, ancestor_id, ancestor);
            match r2 {
                Err(e) => (s2, Err(e)),
                Ok(_) => {
                    let shrunk = parent.with_rows(close_gap(parent.rows, pos as int, successor_id));
                    let (s3, r3) = s2.write(parent_id, shrunk);
                    match r3 {
                        Err(e) => (s3, Err(e)),
                        Ok(_) => if parent_id == s3.meta.root {
                            (settle_root(s3, shrunk.rows.len(), successor_id), Ok(()))
                        } else {
                            attempt_merge(s3, parent_id, crumbs)
                        },
                    }
                },
            }
        },
    }
}

/// Deleting a key: the row leaves the leaf that the descent for the key
/// ends in; a leaf that is not the root is then merged if it can be.
pub open spec fn tree_delete(s: PagerView, id: usize) -> (PagerView, Result<(), StorageError>) {
    let (s1, r) = locate(s, s.meta.root, id, Seq::empty(), s.meta.pages as nat);
    match r {
        Err(e) => (s1, Err(e)),
        Ok((leaf, crumbs, page)) => match page.delete(id) {
            Err(e) => (s1, Err(StorageError::Page { cause: e })),
            Ok(shrunk) => {
                let (s2, r2) = s1.write(leaf, shrunk);
                match r2 {
                    Err(e) => (s2, Err(e)),
                    Ok(_) => if leaf != s2.meta.root {
                        attempt_merge(s2, leaf, crumbs)
                    } else {
                        (s2, Ok(()))
                    },
                }
            },
        },
    }
}

/// The row is deleted and inserted anew; `replaced` is handed on.
pub open spec fn reinsert(s: PagerView, row: RowView, replaced: RowView) -> (
    PagerView,
    Result<RowView, StorageError>,
) {
    let (s1, r1) = tree_delete(s, row.id());
    match r1 {
        Err(e) => (s1, Err(e)),
        Ok(_) => {
            let (s2, r2) = tree_insert(s1, row);
            match r2 {
                Err(e) => (s2, Err(e)),
                Ok(_) => (s2, Ok(replaced)),
            }
        },
    }
}

/// Updating a row: the row with the key is replaced in its leaf, and the
/// row that was replaced is the result; a row that no longer fits in
/// place is deleted and inserted anew.
pub open spec fn tree_update(s: PagerView, row: RowView) -> (
    PagerView,
    Result<RowView, StorageError>,
) {
    let (s1, r) = locate(s, s.meta.root, row.id(), Seq::empty(), s.meta.pages as nat);
    match r {
        Err(e) => (s1, Err(e)),
        Ok((leaf, crumbs, page)) => match page.update(row) {
            Ok((changed, replaced)) => {
                let (s2, r2) = s1.write(leaf, changed);
                match r2 {
                    Err(e) => (s2, Err(e)),
                    Ok(_) => (s2, Ok(replaced)),
                }
            },
            Err(PageError::Full) => reinsert(s1, row, page.rows[slot(page.rows, row.id())]),
            Err(e) => (s1, Err(StorageError::Page { cause: e })),
        },
    }
}

/// The children of the pointers as a walk holds them: the last pointer
/// first, its right child before its left one. On a stack the leftmost
/// child is on top; in a queue it is the first to leave at the back.
pub open spec fn pushes(rows: Seq<RowView>) -> Seq<usize>
    decreases rows.len(),
{
    if rows.len() == 0 {
        Seq::empty()
    } else {
        seq![rows.last().right(), rows.last().left()] + pushes(rows.drop_last())
    }
}

/// The rows of the leaves below the pages on the stack, from left to
/// right, after `out`: the page on top of the stack is visited first, a
/// page that was visited is passed over, and the children of an internal
/// page are visited from left to right. No more than `limit` pages are
/// visited.
pub open spec fn walk(
    s: PagerView,
    stack: Seq<usize>,
    visited: Seq<usize>,
    out: Seq<RowView>,
    limit: nat,
) -> (PagerView, Result<Seq<RowView>, StorageError>)
    decreases limit - visited.len(), stack.len(),
{
    if stack.len() == 0 {
        (s, Ok(out))
    } else if visited.contains(stack.last()) {
        walk(s, stack.drop_last(), visited, out, limit)
    } else if visited.len() >= limit {
        (s, Err(corrupt()))
    } else {
        let (s1, r) = s.read(stack.last());
        match r {
            Err(e) => (s1, Err(e)),
            Ok(page) => if page.kind == PageType::Leaf {
                walk(s1, stack.drop_last(), visited.push(stack.last()), out + page.rows, limit)
            } else {
                walk(
                    s1,
                    stack.drop_last() + pushes(page.rows),
                    visited.push(stack.last()),
                    out,
                    limit,
                )
            },
        }
    }
}

/// All the rows of the tree, in the order of the leaves from left to
/// right.
pub open spec fn tree_select(s: PagerView) -> (PagerView, Result<Seq<RowView>, StorageError>) {
    walk(s, seq![s.meta.root], Seq::empty(), Seq::empty(), s.meta.pages as nat)
}

/// The lines of a leaf in the graph: a dashed edge to its parent, or to
/// itself where it has none.
pub open spec fn leaf_text(id: usize, parent: Option<usize>) -> Seq<char> {
    "    edge [style=\"dashed\"]\n   "@ + decimal(id as nat) + " -> "@ + decimal(
        (match parent {
            Some(p) => p,
            None => id,
        }) as nat,
    ) + "\n"@
}

/// The lines of a pointer in the graph: an edge from its page to the
/// pointer, and an edge from the pointer to each child.
pub open spec fn pointer_text(id: usize, row: RowView) -> Seq<char> {
    "    "@ + decimal(id as nat) + " -> P"@ + decimal(row.id() as nat) + ";\n    P"@ + decimal(
        row.id() as nat,
    ) + " -> "@ + decimal(row.left() as nat) + ";\n    P"@ + decimal(row.id() as nat) + " -> "@
        + decimal(row.right() as nat) + ";\n"@
}

/// The lines of the pointers of an internal page, one pointer after the
/// other.
pub open spec fn pointers_text(id: usize, rows: Seq<RowView>) -> Seq<char>
    decreases rows.len(),
{
    if rows.len() == 0 {
        Seq::empty()
    } else {
        pointers_text(id, rows.drop_last()) + pointer_text(id, rows.last())
    }
}

/// The lines of the pages in the queue and below them, after `out`, level
/// by level: the page at the back of the queue is visited first, a page
/// that was visited is passed over, and the children of an internal page
/// join the queue at the front, the left child of each pointer before the
/// right one. No more than `limit` pages are visited.
pub open spec fn walk_text(
    s: PagerView,
    queue: Seq<usize>,
    visited: Seq<usize>,
    out: Seq<char>,
    limit: nat,
) -> (PagerView, Result<Seq<char>, StorageError>)
    decreases limit - visited.len(), queue.len(),
{
    if queue.len() == 0 {
        (s, Ok(out))
    } else if visited.contains(queue.last()) {
        walk_text(s, queue.drop_last(), visited, out, limit)
    } else if visited.len() >= limit {
        (s, Err(corrupt()))
    } else {
        let (s1, r) = s.read(queue.last());
        match r {
            Err(e) => (s1, Err(e)),
            Ok(page) => if page.kind == PageType::Leaf {
                walk_text(
                    s1,
                    queue.drop_last(),
                    visited.push(queue.last()),
                    out + leaf_text(queue.last(), page.parent),
                    limit,
                )
            } else {
                walk_text(
                    s1,
                    pushes(page.rows) + queue.drop_last(),
                    visited.push(queue.last()),
                    out + pointers_text(queue.last(), page.rows),
                    limit,
                )
            },
        }
    }
}

/// The structure of the tree as a graph in the DOT language: the pages
/// level by level from the root.
pub open spec fn tree_structure(s: PagerView) -> (PagerView, Result<Seq<char>, StorageError>) {
    let (s1, r) = walk_text(
        s,
        seq![s.meta.root],
        Seq::empty(),
        "digraph {\n"@,
        s.meta.pages as nat,
    );
    match r {
        Err(e) => (s1, Err(e)),
        Ok(text) => (s1, Ok(text + "}"@)),
    }
}

/// Rows without a value are inserted under the keys from `from` up to
/// `to`, until one is refused.
pub open spec fn populate(s: PagerView, from: nat, to: nat) -> (PagerView, Result<(), StorageError>)
    decreases to + 1 - from,
{
    if from > to || from > usize::MAX {
        (s, Ok(()))
    } else {
        let (s1, r) = tree_insert(s, RowView::Leaf { id: from as usize, value: Seq::empty() });
        match r {
            Err(e) => (s1, Err(e)),
            Ok(_) => populate(s1, from + 1, to),
        }
    }
}

/// Whether the value of a row is text that can be shown.
pub open spec fn shows(row: RowView) -> bool {
    row.kind() == RowType::Leaf && chars_of(row.value()) is Some
}

/// The lines of the rows, one row per line, if every row can be shown.
pub open spec fn rows_text(rows: Seq<RowView>) -> Option<Seq<char>>
    decreases rows.len(),
{
    if rows.len() == 0 {
        Some(Seq::empty())
    } else {
        match rows_text(rows.drop_last()) {
            None => None,
            Some(text) => if !shows(rows.last()) {
                None
            } else if rows.len() == 1 {
                Some(row_line(rows.last().id(), chars_of(rows.last().value())->0))
            } else {
                Some(
                    text + "\n"@ + row_line(rows.last().id(), chars_of(rows.last().value())->0),
                )
            },
        }
    }
}

/// What a statement does to the tree, and what it shows: an insert and a
/// delete show nothing, an update shows the row that was replaced, a
/// select shows all rows. A row that cannot be shown is reported as
/// corrupt.
pub open spec fn tree_evaluate(s: PagerView, statement: StatementView) -> (
    PagerView,
    Result<Option<Seq<char>>, StorageError>,
) {
    match statement {
        StatementView::Insert { .. } => {
            let (s1, r) = tree_insert(s, statement.row());
            match r {
                Err(e) => (s1, Err(e)),
                Ok(_) => (s1, Ok(None)),
            }
        },
        StatementView::Update { .. } => {
            let (s1, r) = tree_update(s, statement.row());
            match r {
                Err(e) => (s1, Err(e)),
                Ok(replaced) => if shows(replaced) {
                    (s1, Ok(Some(row_line(replaced.id(), chars_of(replaced.value())->0))))
                } else {
                    (s1, Err(corrupt()))
                },
            }
        },
        StatementView::Delete { id } => {
            let (s1, r) = tree_delete(s, id);
            match r {
                Err(e) => (s1, Err(e)),
                Ok(_) => (s1, Ok(None)),
            }
        },
        StatementView::Select => {
            let (s1, r) = tree_select(s);
            match r {
                Err(e) => (s1, Err(e)),
                Ok(rows) => match rows_text(rows) {
                    Some(text) => (s1, Ok(Some(text))),
                    None => (s1, Err(corrupt())),
                },
            }
        },
    }
}

/// What a command does to the tree, and what it shows: a statement as
/// above, the structure as a graph, and nothing else.
pub open spec fn tree_execute(s: PagerView, command: CommandView) -> (
    PagerView,
    Result<Option<Seq<char>>, StorageError>,
) {
    match command {
        CommandView::Statement(statement) => tree_evaluate(s, statement),
        CommandView::Structure(_) => {
            let (s1, r) = tree_structure(s);
            match r {
                Err(e) => (s1, Err(e)),
                Ok(text) => (s1, Ok(Some(text))),
            }
        },
        CommandView::Populate(n) => {
            let (s1, r) = populate(s, 1, n as nat);
            match r {
                Err(e) => (s1, Err(e)),
                Ok(_) => (s1, Ok(None)),
            }
        },
        _ => (s, Ok(None)),
    }
}

/// The result shows the text, or nothing, or is the error.
pub open spec fn shown(r: Result<Option<String>, StorageError>) -> Result<
    Option<Seq<char>>,
    StorageError,
> {
    match r {
        Ok(Some(text)) => Ok(Some(text@)),
        Ok(None) => Ok(None),
        Err(e) => Err(e),
    }
}

/// The state of a tree: its pager, and the cursor of the last descent.
pub struct TreeView {
    pub pager: PagerView,
    pub current: usize,
    pub breadcrumbs: Seq<(usize, usize)>,
}

/// Disk-based BTree Implementation
#[derive(Debug)]
pub struct BTree {
    /// Stores (page_id, pointer_idx) of previously traversed nodes.
    breadcrumbs: Vec<(usize, usize)>,
    /// Tracks the current position of the cursor in the BTree.
    current: usize,
    /// Pager instance used for page management.
    pager: Pager,
}

impl View for BTree {
    type V = TreeView;

    closed spec fn view(&self) -> TreeView {
        TreeView {
            pager: self.pager@,
            current: self.current,
            breadcrumbs: self.breadcrumbs@,
        }
    }
}

/// The rows of a well-formed page, from `a` up to `b`, are rows of a
/// well-formed page.
pub proof fn lemma_part_well_formed(page: PageView, a: int, b: int)
    requires
        page.well_formed(),
        0 <= a <= b <= page.rows.len(),
    ensures
        page.with_rows(page.rows.subrange(a, b)).well_formed(),
        total_size(page.rows.subrange(a, b)) <= total_size(page.rows),
{
    let part = page.rows.subrange(a, b);
    assert forall|i: int, j: int| 0 <= i < j < part.len() implies part[i].id() < part[j].id() by {
        assert(page.rows[a + i].id() < page.rows[a + j].id());
    }
    assert forall|i: int| 0 <= i < part.len() implies (#[trigger] part[i]).kind()
        == page.kind.row_kind() by {
        assert(page.rows[a + i].kind() == page.kind.row_kind());
    }
    lemma_total_size_split(page.rows, a);
    lemma_total_size_split(page.rows.subrange(a, page.rows.len() as int), b - a);
    assert(page.rows.subrange(a, page.rows.len() as int).subrange(0, b - a) =~= part);
}

/// The bytes that rows take together.
pub fn sum_sizes(rows: &Vec<Row>) -> (r: usize)
    requires
        total_size(views(rows@)) <= ROW_SPACE,
    ensures
        r == total_size(views(rows@)),
{
    let ghost v = views(rows@);
    let mut acc: usize = 0;
    let mut i: usize = 0;
    assert(v.subrange(0, 0) =~= Seq::<RowView>::empty());
    while i < rows.len()
        invariant
            0 <= i <= rows@.len(),
            v == views(rows@),
            total_size(v) <= ROW_SPACE,
            acc == total_size(v.subrange(0, i as int)),
        decreases rows@.len() - i,
    {
        proof {
            let next = v.subrange(0, i + 1);
            assert(next.drop_last() =~= v.subrange(0, i as int));
            assert(next.last() == rows@[i as int]@);
            lemma_total_size_split(v, i + 1);
        }
        acc = acc + rows[i].size();
        i = i + 1;
    }
    assert(v.subrange(0, v.len() as int) =~= v);
    acc
}

/// Takes the pointer at `pos` out of a parent and makes the pointers
/// beside it point to `successor`.
pub fn drop_pointer(page: &mut Page, pos: usize, successor: usize)
    requires
        old(page).well_formed(),
        old(page)@.kind == PageType::Internal,
        pos < old(page)@.rows.len(),
    ensures
        final(page).well_formed(),
        final(page)@ == old(page)@.with_rows(close_gap(old(page)@.rows, pos as int, successor)),
        final(page).offset == old(page).offset,
{
    let ghost before = page@.rows;
    assert(before[pos as int] == page.rows@[pos as int]@);
    proof {
        lemma_total_size_remove(before, pos as int);
    }
    let removed = page.rows.remove(pos);
    let len = removed.size();
    page.size = page.size - len;
    let ghost cut = before.remove(pos as int);
    assert(views(page.rows@) =~= cut);
    assert forall|i: int| 0 <= i < cut.len() implies (#[trigger] cut[i]).kind()
        == RowType::Internal by {
        let a = if i < pos { i } else { i + 1 };
        assert(cut[i] == before[a]);
        assert(before[a].kind() == RowType::Internal);
    }
    if pos > 0 {
        assert(cut[pos - 1] == page.rows@[pos - 1]@);
        let mut left = page.rows[pos - 1].clone();
        left.set_right_offset(successor);
        page.rows[pos - 1] = left;
    }
    let ghost a = views(page.rows@);
    assert(a =~= if pos > 0 {
        cut.update(pos - 1, with_right(cut[pos - 1], successor))
    } else {
        cut
    });
    if pos < page.rows.len() {
        assert(cut[pos as int].kind() == RowType::Internal);
        assert(a[pos as int] == page.rows@[pos as int]@);
        let mut right = page.rows[pos].clone();
        right.set_left_offset(successor);
        page.rows[pos] = right;
    }
    let ghost out = views(page.rows@);
    assert(out =~= close_gap(before, pos as int, successor));
    proof {
        if pos > 0 {
            lemma_total_size_update(cut, pos - 1, with_right(cut[pos - 1], successor));
        }
        if pos < cut.len() {
            lemma_total_size_update(a, pos as int, with_left(cut[pos as int], successor));
        }
        assert forall|i: int| 0 <= i < out.len() implies (#[trigger] out[i]).kind()
            == RowType::Internal && out[i].id() == cut[i].id() by {
            assert(cut[i].kind() == RowType::Internal);
        }
        assert forall|i: int, j: int| 0 <= i < j < out.len() implies out[i].id() < out[j].id() by {
            let x = if i < pos { i } else { i + 1 };
            let y = if j < pos { j } else { j + 1 };
            assert(out[i].id() == cut[i].id());
            assert(out[j].id() == cut[j].id());
            assert(before[x].id() < before[y].id());
        }
    }
}

/// Whether the list holds the id.
pub fn holds(list: &Vec<usize>, id: usize) -> (r: bool)
    ensures
        r == list@.contains(id),
{
    let mut i: usize = 0;
    while i < list.len()
        invariant
            0 <= i <= list@.len(),
            forall|k: int| 0 <= k < i ==> list@[k] != id,
        decreases list@.len() - i,
    {
        if list[i] == id {
            return true;
        }
        i = i + 1;
    }
    false
}

/// Puts the children of the pointers at the back of the pages to visit,
/// the leftmost last, so that it is the next to be taken from the back.
pub fn push_children(stack: &mut VecDeque<usize>, rows: &Vec<Row>)
    requires
        all_of_kind(views(rows@), RowType::Internal),
    ensures
        final(stack)@ == old(stack)@ + pushes(views(rows@)),
{
    let ghost v = views(rows@);
    let ghost start = stack@;
    let mut i: usize = rows.len();
    assert(v.subrange(0, i as int) =~= v);
    assert(start + Seq::<usize>::empty() =~= start);
    while i > 0
        invariant
            0 <= i <= rows@.len(),
            v == views(rows@),
            all_of_kind(v, RowType::Internal),
            start + pushes(v) == stack@ + pushes(v.subrange(0, i as int)),
        decreases i,
    {
        let ghost part = v.subrange(0, i as int);
        assert(part.last() == rows@[i - 1]@);
        assert(v[i - 1].kind() == RowType::Internal);
        assert(part.drop_last() =~= v.subrange(0, i - 1));
        let ghost prev = stack@;
        let row = &rows[i - 1];
        stack.push_back(row.right_offset());
        stack.push_back(row.left_offset());
        assert(stack@ + pushes(part.drop_last()) =~= prev + (seq![part.last().right(), part.last().left()]
            + pushes(part.drop_last())));
        i = i - 1;
    }
    assert(v.subrange(0, 0) =~= Seq::<RowView>::empty());
    assert(stack@ + Seq::<usize>::empty() =~= stack@);
}

/// Puts the children of the pointers into the queue at the front, the
/// left child of each pointer before the right one.
pub fn queue_children(queue: &mut VecDeque<usize>, rows: &Vec<Row>)
    requires
        all_of_kind(views(rows@), RowType::Internal),
    ensures
        final(queue)@ == pushes(views(rows@)) + old(queue)@,
{
    let ghost v = views(rows@);
    let ghost start = queue@;
    let mut i: usize = 0;
    assert(v.subrange(0, 0) =~= Seq::<RowView>::empty());
    assert(Seq::<usize>::empty() + start =~= start);
    while i < rows.len()
        invariant
            0 <= i <= rows@.len(),
            v == views(rows@),
            all_of_kind(v, RowType::Internal),
            queue@ == pushes(v.subrange(0, i as int)) + start,
        decreases rows@.len() - i,
    {
        let ghost part = v.subrange(0, i + 1);
        assert(part.last() == rows@[i as int]@);
        assert(v[i as int].kind() == RowType::Internal);
        assert(part.drop_last() =~= v.subrange(0, i as int));
        let ghost prev = queue@;
        let row = &rows[i];
        queue.push_front(row.left_offset());
        queue.push_front(row.right_offset());
        assert(queue@ =~= seq![part.last().right(), part.last().left()] + prev);
        assert(queue@ =~= pushes(part) + start);
        i = i + 1;
    }
    assert(v.subrange(0, v.len() as int) =~= v);
}

/// Appends the lines of a leaf.
pub fn push_leaf_text(out: &mut String, id: usize, parent: Option<usize>)
    ensures
        final(out)@ == old(out)@ + leaf_text(id, parent),
{
    push_text(out, "    edge [style=\"dashed\"]\n   ");
    push_decimal(out, id);
    push_text(out, " -> ");
    push_decimal(
        out,
        match parent {
            Some(p) => p,
            None => id,
        },
    );
    push_text(out, "\n");
    assert(out@ =~= old(out)@ + leaf_text(id, parent));
}

/// Appends the lines of a pointer.
pub fn push_pointer_text(out: &mut String, id: usize, row: &Row)
    requires
        row@.kind() == RowType::Internal,
    ensures
        final(out)@ == old(out)@ + pointer_text(id, row@),
{
    push_text(out, "    ");
    push_decimal(out, id);
    push_text(out, " -> P");
    push_decimal(out, row.id());
    push_text(out, ";\n    P");
    push_decimal(out, row.id());
    push_text(out, " -> ");
    push_decimal(out, row.left_offset());
    push_text(out, ";\n    P");
    push_decimal(out, row.id());
    push_text(out, " -> ");
    push_decimal(out, row.right_offset());
    push_text(out, ";\n");
    assert(out@ =~= old(out)@ + pointer_text(id, row@));
}

/// Appends the lines of the pointers of an internal page.
pub fn push_pointers_text(out: &mut String, id: usize, rows: &Vec<Row>)
    requires
        all_of_kind(views(rows@), RowType::Internal),
    ensures
        final(out)@ == old(out)@ + pointers_text(id, views(rows@)),
{
    let ghost v = views(rows@);
    let ghost start = out@;
    let mut i: usize = 0;
    assert(v.subrange(0, 0) =~= Seq::<RowView>::empty());
    assert(start + Seq::<char>::empty() =~= start);
    while i < rows.len()
        invariant
            0 <= i <= rows@.len(),
            v == views(rows@),
            all_of_kind(v, RowType::Internal),
            out@ == start + pointers_text(id, v.subrange(0, i as int)),
        decreases rows@.len() - i,
    {
        let ghost next = v.subrange(0, i + 1);
        assert(next.drop_last() =~= v.subrange(0, i as int));
        assert(next.last() == rows@[i as int]@);
        assert(v[i as int].kind() == RowType::Internal);
        push_pointer_text(out, id, &rows[i]);
        assert(out@ =~= start + pointers_text(id, next));
        i = i + 1;
    }
    assert(v.subrange(0, v.len() as int) =~= v);
}

/// The lines of the rows, one row per line.
pub fn lines(rows: &Vec<Row>) -> (r: Option<String>)
    ensures
        match rows_text(views(rows@)) {
            Some(text) => r matches Some(out) && out@ == text,
            None => r is None,
        },
{
    let ghost v = views(rows@);
    let mut out = String::new();
    let mut i: usize = 0;
    assert(v.subrange(0, 0) =~= Seq::<RowView>::empty());
    while i < rows.len()
        invariant
            0 <= i <= rows@.len(),
            v == views(rows@),
            rows_text(v.subrange(0, i as int)) == Some(out@),
        decreases rows@.len() - i,
    {
        let ghost next = v.subrange(0, i + 1);
        assert(next.drop_last() =~= v.subrange(0, i as int));
        assert(next.last() == rows@[i as int]@);
        if !printable(&rows[i]) {
            proof {
                lemma_rows_text_none(v, i + 1);
            }
            return None;
        }
        if i > 0 {
            push_text(&mut out, "\n");
        }
        let line = print_row(&rows[i]);
        push_text(&mut out, line.as_str());
        assert(rows_text(next) == Some(out@)) by {
            if i == 0 {
                assert(out@ =~= row_line(next.last().id(), chars_of(next.last().value())->0));
            }
        }
        i = i + 1;
    }
    assert(v.subrange(0, v.len() as int) =~= v);
    Some(out)
}

/// Rows cannot be shown if the rows up to some place cannot.
pub proof fn lemma_rows_text_none(rows: Seq<RowView>, n: int)
    requires
        0 <= n <= rows.len(),
        rows_text(rows.subrange(0, n)) is None,
    ensures
        rows_text(rows) is None,
    decreases rows.len() - n,
{
    if n < rows.len() {
        assert(rows.subrange(0, n + 1).drop_last() =~= rows.subrange(0, n));
        lemma_rows_text_none(rows, n + 1);
    } else {
        assert(rows.subrange(0, n) =~= rows);
    }
}

impl BTree {
    /// The pager satisfies its invariant.
    pub open spec fn well_formed(&self) -> bool {
        self@.pager.well_formed()
    }

    /// Creates a new BTree instance
    pub fn new(pager: Pager) -> (r: Self)
        ensures
            r@.pager == pager@,
            r@.current == pager@.meta.root,
            r@.breadcrumbs == Seq::<(usize, usize)>::empty(),
    {
        let current = pager.root();
        Self { breadcrumbs: Vec::new(), current, pager }
    }

    /// Gives the pager back.
    pub fn into_pager(self) -> (r: Pager)
        ensures
            r@ == self@.pager,
    {
        self.pager
    }

    /// The pager that the tree works on.
    pub fn pager(&self) -> (r: &Pager)
        ensures
            r@ == self@.pager,
    {
        &self.pager
    }

    /// Sets the commit flag of the pager.
    pub fn commit(&mut self, commit: bool)
        ensures
            final(self)@.pager == old(self)@.pager.set_commit(commit),
    {
        self.pager.commit(commit);
    }

    /// Flushes the pager.
    pub fn flush(&mut self)
        requires
            old(self).well_formed(),
        ensures
            final(self).well_formed(),
            final(self)@.pager == old(self)@.pager.flush(),
    {
        self.pager.flush();
    }

    /// The page that the cursor is on.
    pub fn current(&self) -> (r: usize)
        ensures
            r == self@.current,
    {
        self.current
    }

    /// Searches an internal page for the pointer under which a key is
    /// sought: the cursor moves to the child, and the pointer joins the
    /// breadcrumbs. A page without pointers leads nowhere.
    fn search_internal(&mut self, page: &Page, id: usize) -> (r: bool)
        requires
            page.well_formed(),
            page@.kind == PageType::Internal,
        ensures
            final(self)@.pager == old(self)@.pager,
            match choice(page@.rows, id) {
                Some((q, child)) => r && final(self)@.current == child && final(self)@.breadcrumbs == old(self)@.breadcrumbs.push((old(self)@.current, q)),
                None => !r && final(self)@ == old(self)@,
            },
    {
        let n = page.rows.len();
        if n == 0 {
            return false;
        }
        let (pos, found) = search_rows(&page.rows, id);
        let ghost rows = page@.rows;
        let q: usize = if found {
            pos
        } else if pos == n {
            pos - 1
        } else {
            pos
        };
        assert(rows[q as int] == page.rows@[q as int]@);
        assert(rows[q as int].kind() == RowType::Internal);
        let pointer = &page.rows[q];
        let child = if found {
            pointer.right_offset()
        } else if pointer.id() >= id {
            pointer.left_offset()
        } else {
            pointer.right_offset()
        };
        assert(choice(rows, id) == Some((q, child)));
        self.breadcrumbs.push((self.current, q));
        self.current = child;
        true
    }

    /// Locates the most likely position of a row in the BTree structure:
    /// the cursor is left on the leaf, the path that was taken is left in
    /// the breadcrumbs, and the leaf page is returned.
    fn locate_row(&mut self, id: usize) -> (r: Result<Page, StorageError>)
        requires
            old(self).well_formed(),
        ensures
            final(self).well_formed(),
            ({
                let out = locate(
                    old(self)@.pager,
                    old(self)@.pager.meta.root,
                    id,
                    Seq::empty(),
                    old(self)@.pager.meta.pages as nat,
                );
                &&& final(self)@.pager == out.0
                &&& match out.1 {
                    Ok((leaf, crumbs, page)) => r matches Ok(p) && p@ == page && p.well_formed()
                        && p@.kind == PageType::Leaf && final(self)@.current == leaf && final(self)@.breadcrumbs == crumbs,
                    Err(e) => r == Err::<Page, StorageError>(e),
                }
            }),
    {
        self.current = self.pager.root();
        self.breadcrumbs.clear();
        let mut fuel: usize = self.pager.metadata().pages;
        let ghost goal = locate(
            old(self)@.pager,
            old(self)@.pager.meta.root,
            id,
            Seq::empty(),
            old(self)@.pager.meta.pages as nat,
        );
        assert(self.breadcrumbs@ =~= Seq::<(usize, usize)>::empty());
        loop
            invariant
                self.well_formed(),
                goal == locate(
                    old(self)@.pager,
                    old(self)@.pager.meta.root,
                    id,
                    Seq::empty(),
                    old(self)@.pager.meta.pages as nat,
                ),
                goal == locate(self@.pager, self@.current, id, self@.breadcrumbs, fuel as nat),
            decreases fuel,
        {
            let page = match self.pager.read(self.current) {
                Ok(p) => p,
                Err(e) => { return Err(e); },
            };
            if page._type == PageType::Leaf {
                return Ok(page);
            }
            if fuel == 0 {
                return Err(StorageError::Page { cause: PageError::Corrupt });
            }
            if !self.search_internal(&page, id) {
                return Err(StorageError::Page { cause: PageError::Corrupt });
            }
            fuel = fuel - 1;
        }
    }

    /// Get a single row
    ///
    /// # Errors
    ///
    /// Errors out if the row does not exist in the structure.
    pub fn select_one(&mut self, row: Row) -> (r: Result<Row, StorageError>)
        requires
            old(self).well_formed(),
        ensures
            final(self).well_formed(),
            final(self)@.pager == tree_select_one(old(self)@.pager, row@.id()).0,
            match tree_select_one(old(self)@.pager, row@.id()).1 {
                Ok(v) => r matches Ok(out) && out@ == v,
                Err(e) => r == Err::<Row, StorageError>(e),
            },
    {
        let id = row.id();
        let page = match self.locate_row(id) {
            Ok(p) => p,
            Err(e) => { return Err(e); },
        };
        let (pos, found) = search_rows(&page.rows, id);
        if found {
            assert(page@.rows[pos as int] == page.rows@[pos as int]@);
            Ok(page.rows[pos].clone())
        } else {
            Err(StorageError::Page { cause: PageError::MissingKey })
        }
    }

    /// Puts page `child` under `parent`.
    fn reparent(&mut self, child: usize, parent: usize) -> (r: Result<(), StorageError>)
        requires
            old(self).well_formed(),
        ensures
            final(self).well_formed(),
            (final(self)@.pager, r) == reparent(old(self)@.pager, child, parent),
            final(self)@.current == old(self)@.current,
            final(self)@.breadcrumbs == old(self)@.breadcrumbs,
    {
        let mut page = match self.pager.read(child) {
            Ok(p) => p,
            Err(e) => { return Err(e); },
        };
        page.parent = Some(parent);
        self.pager.write(child, &page)
    }

    /// Puts both children of the pointer `row` under `parent`.
    fn reparent_row(&mut self, row: &Row, parent: usize) -> (r: Result<(), StorageError>)
        requires
            old(self).well_formed(),
            row@.kind() == RowType::Internal,
        ensures
            final(self).well_formed(),
            (final(self)@.pager, r) == reparent_row(old(self)@.pager, row@, parent),
            final(self)@.current == old(self)@.current,
            final(self)@.breadcrumbs == old(self)@.breadcrumbs,
    {
        match self.reparent(row.left_offset(), parent) {
            Ok(_) => {},
            Err(e) => { return Err(e); },
        }
        self.reparent(row.right_offset(), parent)
    }

    /// Puts the children of all the pointers under `parent`.
    fn reparent_all(&mut self, rows: &Vec<Row>, parent: usize) -> (r: Result<(), StorageError>)
        requires
            old(self).well_formed(),
            all_of_kind(views(rows@), RowType::Internal),
        ensures
            final(self).well_formed(),
            (final(self)@.pager, r) == reparent_all(old(self)@.pager, views(rows@), parent),
            final(self)@.current == old(self)@.current,
            final(self)@.breadcrumbs == old(self)@.breadcrumbs,
    {
        let ghost moved = views(rows@);
        let ghost goal = reparent_all(old(self)@.pager, moved, parent);
        let mut i: usize = 0;
        assert(moved.subrange(0, moved.len() as int) =~= moved);
        while i < rows.len()
            invariant
                0 <= i <= rows@.len(),
                moved == views(rows@),
                all_of_kind(moved, RowType::Internal),
                self.well_formed(),
                self@.current == old(self)@.current,
                self@.breadcrumbs == old(self)@.breadcrumbs,
                goal == reparent_all(old(self)@.pager, moved, parent),
                goal == reparent_all(
                    self@.pager,
                    moved.subrange(i as int, moved.len() as int),
                    parent,
                ),
            decreases rows@.len() - i,
        {
            let ghost rest = moved.subrange(i as int, moved.len() as int);
            assert(rest[0] == rows@[i as int]@);
            assert(moved[i as int].kind() == RowType::Internal);
            assert(rest.subrange(1, rest.len() as int) =~= moved.subrange(
                i + 1,
                moved.len() as int,
            ));
            match self.reparent_row(&rows[i], parent) {
                Ok(_) => {},
                Err(e) => { return Err(e); },
            }
            i = i + 1;
        }
        Ok(())
    }

    /// Puts the children of the pointers of an internal page under
    /// `parent`.
    fn move_children(&mut self, kind: PageType, rows: &Vec<Row>, parent: usize) -> (r: Result<
        (),
        StorageError,
    >)
        requires
            old(self).well_formed(),
            all_of_kind(views(rows@), kind.row_kind()),
        ensures
            final(self).well_formed(),
            (final(self)@.pager, r) == move_children(old(self)@.pager, kind, views(rows@), parent),
            final(self)@.current == old(self)@.current,
            final(self)@.breadcrumbs == old(self)@.breadcrumbs,
    {
        if kind == PageType::Internal {
            self.reparent_all(rows, parent)
        } else {
            Ok(())
        }
    }

    /// Writes both pages of a split.
    fn write_halves(&mut self, left_id: usize, left: &Page, right_id: usize, right: &Page) -> (r:
        Result<(), StorageError>)
        requires
            old(self).well_formed(),
            total_size(left@.rows) <= ROW_SPACE,
            total_size(right@.rows) <= ROW_SPACE,
        ensures
            final(self).well_formed(),
            (final(self)@.pager, r) == write_halves(
                old(self)@.pager,
                left_id,
                left@,
                right_id,
                right@,
            ),
            final(self)@.current == old(self)@.current,
            final(self)@.breadcrumbs == old(self)@.breadcrumbs,
    {
        match self.pager.write(left_id, left) {
            Ok(_) => {},
            Err(e) => { return Err(e); },
        }
        self.pager.write(right_id, right)
    }

    /// Inserts the row into the half that it belongs to and writes both
    /// halves.
    fn place(&mut self, row: Row, lower: Page, upper: Page, id: usize, right_id: usize) -> (r:
        Result<(), StorageError>)
        requires
            old(self).well_formed(),
            lower.well_formed(),
            upper.well_formed(),
            upper@.rows.len() > 0,
            lower@.kind == upper@.kind,
            row@.kind() == upper@.kind.row_kind(),
        ensures
            final(self).well_formed(),
            (final(self)@.pager, r) == place(
                old(self)@.pager,
                row@,
                lower@,
                upper@,
                id,
                right_id,
            ),
            final(self)@.current == old(self)@.current,
            final(self)@.breadcrumbs == old(self)@.breadcrumbs,
    {
        let mut lower = lower;
        let mut upper = upper;
        assert(upper@.rows[0] == upper.rows@[0]@);
        if row.id() >= upper.rows[0].id() {
            let mut one: Vec<Row> = Vec::new();
            one.push(row.clone());
            assert(views(one@) =~= seq![row@]);
            match self.move_children(upper._type, &one, right_id) {
                Ok(_) => {},
                Err(e) => { return Err(e); },
            }
            match upper.insert(row) {
                Ok(_) => {},
                Err(e) => { return Err(e); },
            }
        } else {
            match lower.insert(row) {
                Ok(_) => {},
                Err(e) => { return Err(e); },
            }
        }
        self.write_halves(id, &lower, right_id, &upper)
    }

    /// Parts the rows of `target`, which is page `id`, between page `id`
    /// and the new page `right_id`, and inserts the row.
    fn split_page(&mut self, id: usize, target: Page, right_id: usize, insert_row: Row) -> (r:
        Result<Row, StorageError>)
        requires
            old(self).well_formed(),
            target.well_formed(),
            target@.rows.len() > 0,
            insert_row@.kind() == target@.kind.row_kind(),
        ensures
            final(self).well_formed(),
            final(self)@.pager == split_page(
                old(self)@.pager,
                id,
                target@,
                right_id,
                insert_row@,
            ).0,
            match split_page(old(self)@.pager, id, target@, right_id, insert_row@).1 {
                Ok(v) => r matches Ok(out) && out@ == v,
                Err(e) => r == Err::<Row, StorageError>(e),
            },
            final(self)@.current == old(self)@.current,
            final(self)@.breadcrumbs == old(self)@.breadcrumbs,
    {
        let ghost whole = target@;
        let kind = target._type;
        let parent = target.parent;
        let offset = target.offset;
        let mut left_candidates = target.rows;
        let splitat: usize = left_candidates.len() / 2;
        let right_candidates = left_candidates.split_off(splitat);
        proof {
            assert(views(left_candidates@) =~= lower_half(whole).rows);
            assert(views(right_candidates@) =~= upper_half(whole).rows);
            lemma_part_well_formed(whole, 0, splitat as int);
            lemma_part_well_formed(whole, splitat as int, whole.rows.len() as int);
            assert(views(right_candidates@)[0] == right_candidates@[0]@);
        }
        let mut pointer = Row::new(right_candidates[0].id(), RowType::Internal);
        pointer.set_left_offset(id);
        pointer.set_right_offset(right_id);
        match self.move_children(kind, &right_candidates, right_id) {
            Ok(_) => {},
            Err(e) => { return Err(e); },
        }
        let right_size = sum_sizes(&right_candidates);
        let left_size = sum_sizes(&left_candidates);
        let right = Page::new(kind, parent, right_candidates, right_size);
        let left = Page { _type: kind, offset, parent, size: left_size, rows: left_candidates };
        match self.place(insert_row, left, right, id, right_id) {
            Ok(_) => {},
            Err(e) => { return Err(e); },
        }
        Ok(pointer)
    }

    /// Splits a target node into two, inserting a row into one of the newly split nodes.
    /// Returns the pointer to the split nodes.
    fn split_node(&mut self, id: usize, insert_row: Row) -> (r: Result<Row, StorageError>)
        requires
            old(self).well_formed(),
        ensures
            final(self).well_formed(),
            final(self)@.pager == split_node(old(self)@.pager, id, insert_row@).0,
            match split_node(old(self)@.pager, id, insert_row@).1 {
                Ok(v) => r matches Ok(out) && out@ == v,
                Err(e) => r == Err::<Row, StorageError>(e),
            },
            final(self)@.current == old(self)@.current,
            final(self)@.breadcrumbs == old(self)@.breadcrumbs,
    {
        let target = match self.pager.read(id) {
            Ok(p) => p,
            Err(e) => { return Err(e); },
        };
        if target.parent.is_none() || target._type.row_type() != insert_row.kind() {
            return Err(StorageError::Page { cause: PageError::Corrupt });
        }
        if target.rows.len() == 0 {
            return Err(StorageError::Page { cause: PageError::Full });
        }
        let right_id = match self.pager.allocate() {
            Ok(i) => i,
            Err(e) => { return Err(e); },
        };
        self.split_page(id, target, right_id, insert_row)
    }

    /// Splits the root under a new root.
    fn split_root(&mut self, row: Row) -> (r: Result<(), StorageError>)
        requires
            old(self).well_formed(),
        ensures
            final(self).well_formed(),
            (final(self)@.pager, r) == split_root(old(self)@.pager, old(self)@.current, row@),
    {
        let parent_id = match self.pager.allocate() {
            Ok(i) => i,
            Err(e) => { return Err(e); },
        };
        match self.reparent(self.current, parent_id) {
            Ok(_) => {},
            Err(e) => { return Err(e); },
        }
        let pointer = match self.split_node(self.current, row) {
            Ok(p) => p,
            Err(e) => { return Err(e); },
        };
        let size = pointer.size();
        let mut rows: Vec<Row> = Vec::new();
        rows.push(pointer);
        let parent = Page::new(PageType::Internal, None, rows, size);
        proof {
            assert(parent@.rows =~= seq![pointer@]);
            super::page::lemma_total_size_one(pointer@);
        }
        match self.pager.write(parent_id, &parent) {
            Ok(_) => {},
            Err(e) => { return Err(e); },
        }
        let _ = self.pager.set_root(parent_id);
        self.current = parent_id;
        Ok(())
    }

    /// Splits the BTree node at `self.current` and inserts a row
    /// into the appropriate node after split.
    fn split(&mut self, row: Row, depth: usize) -> (r: Result<(), StorageError>)
        requires
            old(self).well_formed(),
        ensures
            final(self).well_formed(),
            (final(self)@.pager, r) == tree_split(
                old(self)@.pager,
                old(self)@.current,
                row@,
                depth as nat,
            ),
        decreases depth,
    {
        if self.current == self.pager.root() {
            return self.split_root(row);
        }
        let page = match self.pager.read(self.current) {
            Ok(p) => p,
            Err(e) => { return Err(e); },
        };
        let parent_id = match page.parent {
            Some(p) => p,
            None => { return Err(StorageError::Page { cause: PageError::Corrupt }); },
        };
        let pointer = match self.split_node(self.current, row) {
            Ok(p) => p,
            Err(e) => { return Err(e); },
        };
        self.current = parent_id;
        let mut parent = match self.pager.read(parent_id) {
            Ok(p) => p,
            Err(e) => { return Err(e); },
        };
        if parent._type != PageType::Internal {
            return Err(StorageError::Page { cause: PageError::Corrupt });
        }
        match parent.insert(pointer.clone()) {
            Ok(_) => self.pager.write(parent_id, &parent),
            Err(StorageError::Page { cause: PageError::Full }) => {
                if depth == 0 {
                    Err(StorageError::Page { cause: PageError::Corrupt })
                } else {
                    self.split(pointer, depth - 1)
                }
            },
            Err(StorageError::Page { cause }) => Err(
                StorageError::Engine { action: EngineAction::Split, cause },
            ),
            Err(e) => Err(e),
        }
    }

    /// Adds a new row entry into the BTree structure.
    ///
    /// # Errors
    ///
    /// Errors out if row already exists in the structure.
    pub fn insert(&mut self, row: Row) -> (r: Result<(), StorageError>)
        requires
            old(self).well_formed(),
            row@.kind() == RowType::Leaf,
        ensures
            final(self).well_formed(),
            (final(self)@.pager, r) == tree_insert(old(self)@.pager, row@),
    {
        let mut page = match self.locate_row(row.id()) {
            Ok(p) => p,
            Err(e) => { return Err(e); },
        };
        match page.insert(row.clone()) {
            Ok(_) => self.pager.write(self.current, &page),
            Err(StorageError::Page { cause: PageError::Full }) => {
                let depth = self.breadcrumbs.len();
                self.split(row, depth)
            },
            Err(StorageError::Page { cause }) => Err(
                StorageError::Engine { action: EngineAction::Insert, cause },
            ),
            Err(e) => Err(e),
        }
    }

    /// Reads the three pages of a merge.
    fn gather(&mut self, successor_id: usize, ancestor_id: usize) -> (r: Result<
        (Page, Page, usize, Page),
        StorageError,
    >)
        requires
            old(self).well_formed(),
        ensures
            final(self).well_formed(),
            final(self)@.pager == gather(old(self)@.pager, successor_id, ancestor_id).0,
            match gather(old(self)@.pager, successor_id, ancestor_id).1 {
                Ok((successor, ancestor, parent_id, parent)) => r matches Ok(out) && out.0@
                    == successor && out.1@ == ancestor && out.2 == parent_id && out.3@ == parent
                    && out.0.well_formed() && out.1.well_formed() && out.3.well_formed(),
                Err(e) => r == Err::<(Page, Page, usize, Page), StorageError>(e),
            },
            final(self)@.current == old(self)@.current,
            final(self)@.breadcrumbs == old(self)@.breadcrumbs,
    {
        let successor = match self.pager.read(successor_id) {
            Ok(p) => p,
            Err(e) => { return Err(e); },
        };
        let ancestor = match self.pager.read(ancestor_id) {
            Ok(p) => p,
            Err(e) => { return Err(e); },
        };
        let parent_id = match successor.parent {
            Some(p) => p,
            None => { return Err(StorageError::Page { cause: PageError::Corrupt }); },
        };
        let parent = match self.pager.read(parent_id) {
            Ok(p) => p,
            Err(e) => { return Err(e); },
        };
        Ok((successor, ancestor, parent_id, parent))
    }

    /// Moves the rows of the page that goes into the page that stays,
    /// writes the one and frees the other.
    fn fold_in(
        &mut self,
        successor_id: usize,
        successor: Page,
        ancestor_id: usize,
        ancestor: Page,
    ) -> (r: Result<(), StorageError>)
        requires
            old(self).well_formed(),
            successor.well_formed(),
            ancestor.well_formed(),
            successor@.kind == ancestor@.kind,
        ensures
            final(self).well_formed(),
            (final(self)@.pager, r) == fold_in(
                old(self)@.pager,
                successor_id,
                successor@,
                ancestor_id,
                ancestor@,
            ),
            final(self)@.current == old(self)@.current,
            final(self)@.breadcrumbs == old(self)@.breadcrumbs,
    {
        let ghost first = successor@;
        let ghost all = ancestor@.rows;
        let ghost goal = absorb(first, all);
        let ghost kind = successor@.kind;
        let mut stays = successor;
        let mut moved_rows = ancestor.rows;
        while moved_rows.len() > 0
            invariant
                stays.well_formed(),
                stays@.kind == kind,
                first == successor@,
                all == ancestor@.rows,
                all_of_kind(views(moved_rows@), kind.row_kind()),
                goal == absorb(first, all),
                goal == absorb(stays@, views(moved_rows@)),
                self.well_formed(),
                *self == *old(self),
            decreases moved_rows@.len(),
        {
            let ghost left = views(moved_rows@);
            match moved_rows.pop() {
                Some(row) => {
                    assert(left.last() == row@);
                    assert(left[left.len() - 1].kind() == kind.row_kind());
                    assert(views(moved_rows@) =~= left.drop_last());
                    assert forall|i: int| 0 <= i < left.drop_last().len() implies (
                    #[trigger] left.drop_last()[i]).kind() == kind.row_kind() by {
                        assert(left[i].kind() == kind.row_kind());
                    }
                    match stays.insert(row) {
                        Ok(_) => {},
                        Err(e) => { return Err(e); },
                    }
                },
                None => {},
            }
        }
        assert(views(moved_rows@) =~= Seq::<RowView>::empty());
        match self.pager.write(successor_id, &stays) {
            Ok(_) => {},
            Err(e) => { return Err(e); },
        }
        self.pager.free(ancestor_id)
    }

    /// Attempts to merge the current node; checks if the combined
    /// size of the node and sibling are enough to fit into one node and merges
    /// them.
    fn attempt_merge(&mut self) -> (r: Result<(), StorageError>)
        requires
            old(self).well_formed(),
        ensures
            final(self).well_formed(),
            (final(self)@.pager, r) == attempt_merge(
                old(self)@.pager,
                old(self)@.current,
                old(self)@.breadcrumbs,
            ),
        decreases old(self)@.breadcrumbs.len(), 1nat,
    {
        let page = match self.pager.read(self.current) {
            Ok(p) => p,
            Err(e) => { return Err(e); },
        };
        let ghost crumbs = self.breadcrumbs@;
        let (parent_id, pointer_pos) = match self.breadcrumbs.pop() {
            Some(c) => c,
            None => { return Err(StorageError::Page { cause: PageError::Corrupt }); },
        };
        assert(self.breadcrumbs@ =~= crumbs.drop_last());
        let parent = match self.pager.read(parent_id) {
            Ok(p) => p,
            Err(e) => { return Err(e); },
        };
        if parent._type != PageType::Internal || pointer_pos >= parent.rows.len() {
            return Err(StorageError::Page { cause: PageError::Corrupt });
        }
        assert(parent@.rows[pointer_pos as int] == parent.rows@[pointer_pos as int]@);
        assert(parent@.rows[pointer_pos as int].kind() == RowType::Internal);
        let pointer = &parent.rows[pointer_pos];
        let on_left = pointer.left_offset() == self.current;
        let sibling_id = if on_left {
            pointer.right_offset()
        } else {
            pointer.left_offset()
        };
        let sibling = match self.pager.read(sibling_id) {
            Ok(p) => p,
            Err(e) => { return Err(e); },
        };
        if page.size <= ROW_SPACE - sibling.size {
            if on_left {
                self.merge(self.current, sibling_id, pointer_pos)
            } else {
                self.merge(sibling_id, self.current, pointer_pos)
            }
        } else {
            Ok(())
        }
    }

    /// Merges the sibling node into the target node and updates
    /// the pointer on the parent node.
    fn merge(&mut self, successor_id: usize, ancestor_id: usize, parent_pointer: usize) -> (r:
        Result<(), StorageError>)
        requires
            old(self).well_formed(),
        ensures
            final(self).well_formed(),
            (final(self)@.pager, r) == merge(
                old(self)@.pager,
                successor_id,
                ancestor_id,
                parent_pointer,
                old(self)@.breadcrumbs,
            ),
        decreases old(self)@.breadcrumbs.len(), 2nat,
    {
        let (successor, ancestor, parent_id, parent) = match self.gather(
            successor_id,
            ancestor_id,
        ) {
            Ok(g) => g,
            Err(e) => { return Err(e); },
        };
        if successor._type != ancestor._type || parent._type != PageType::Internal
            || parent_pointer >= parent.rows.len() {
            return Err(StorageError::Page { cause: PageError::Corrupt });
        }
        match self.fold_in(successor_id, successor, ancestor_id, ancestor) {
            Ok(_) => {},
            Err(e) => { return Err(e); },
        }
        let mut parent = parent;
        drop_pointer(&mut parent, parent_pointer, successor_id);
        match self.pager.write(parent_id, &parent) {
            Ok(_) => {},
            Err(e) => { return Err(e); },
        }
        if parent_id == self.pager.root() {
            if parent.rows.len() == 0 {
                let _ = self.pager.set_root(successor_id);
                self.current = successor_id;
            }
            Ok(())
        } else {
            self.current = parent_id;
            self.attempt_merge()
        }
    }

    /// Deletes a row if present in the BTree structure
    ///
    /// # Errors
    ///
    /// Errors out if the row does not exist in the structure.
    pub fn delete(&mut self, row: Row) -> (r: Result<(), StorageError>)
        requires
            old(self).well_formed(),
        ensures
            final(self).well_formed(),
            (final(self)@.pager, r) == tree_delete(old(self)@.pager, row@.id()),
    {
        let mut page = match self.locate_row(row.id()) {
            Ok(p) => p,
            Err(e) => { return Err(e); },
        };
        match page.delete(row) {
            Ok(_) => {},
            Err(e) => { return Err(e); },
        }
        match self.pager.write(self.current, &page) {
            Ok(_) => {},
            Err(e) => { return Err(e); },
        }
        // Only merge child nodes
        if self.current != self.pager.root() {
            self.attempt_merge()
        } else {
            Ok(())
        }
    }

    /// Deletes the row and inserts it anew.
    fn reinsert(&mut self, row: Row, replaced: Row) -> (r: Result<Row, StorageError>)
        requires
            old(self).well_formed(),
            row@.kind() == RowType::Leaf,
        ensures
            final(self).well_formed(),
            final(self)@.pager == reinsert(old(self)@.pager, row@, replaced@).0,
            match reinsert(old(self)@.pager, row@, replaced@).1 {
                Ok(v) => r matches Ok(out) && out@ == v,
                Err(e) => r == Err::<Row, StorageError>(e),
            },
    {
        match self.delete(row.clone()) {
            Ok(_) => {},
            Err(e) => { return Err(e); },
        }
        match self.insert(row) {
            Ok(_) => {},
            Err(e) => { return Err(e); },
        }
        Ok(replaced)
    }

    /// Updates a row if present in the BTree structure
    ///
    /// # Errors
    ///
    /// Errors out if the row does not exist in the structure.
    pub fn update(&mut self, row: Row) -> (r: Result<Row, StorageError>)
        requires
            old(self).well_formed(),
            row@.kind() == RowType::Leaf,
        ensures
            final(self).well_formed(),
            final(self)@.pager == tree_update(old(self)@.pager, row@).0,
            match tree_update(old(self)@.pager, row@).1 {
                Ok(v) => r matches Ok(out) && out@ == v,
                Err(e) => r == Err::<Row, StorageError>(e),
            },
    {
        let mut page = match self.locate_row(row.id()) {
            Ok(p) => p,
            Err(e) => { return Err(e); },
        };
        let (pos, found) = search_rows(&page.rows, row.id());
        match page.update(row.clone()) {
            Ok(out) => {
                match self.pager.write(self.current, &page) {
                    Ok(_) => {},
                    Err(e) => { return Err(e); },
                }
                Ok(out)
            },
            Err(StorageError::Page { cause: PageError::Full }) => {
                assert(page@.rows[pos as int] == page.rows@[pos as int]@);
                let replaced = page.rows[pos].clone();
                self.reinsert(row, replaced)
            },
            Err(e) => Err(e),
        }
    }

    /// Selects all leaf rows present in the BTree.
    pub fn select(&mut self) -> (r: Result<Vec<Row>, StorageError>)
        requires
            old(self).well_formed(),
        ensures
            final(self).well_formed(),
            final(self)@.pager == tree_select(old(self)@.pager).0,
            match tree_select(old(self)@.pager).1 {
                Ok(rows) => r matches Ok(out) && views(out@) == rows,
                Err(e) => r == Err::<Vec<Row>, StorageError>(e),
            },
    {
        let limit = self.pager.metadata().pages;
        let mut stack: VecDeque<usize> = VecDeque::new();
        stack.push_back(self.pager.root());
        let mut visited: Vec<usize> = Vec::new();
        let mut out: Vec<Row> = Vec::new();
        let ghost goal = tree_select(old(self)@.pager);
        assert(stack@ =~= seq![self@.pager.meta.root]);
        assert(visited@ =~= Seq::<usize>::empty());
        assert(views(out@) =~= Seq::<RowView>::empty());
        while stack.len() > 0
            invariant
                self.well_formed(),
                goal == tree_select(old(self)@.pager),
                goal == walk(self@.pager, stack@, visited@, views(out@), limit as nat),
            decreases limit - visited@.len(), stack@.len(),
        {
            let ghost before = stack@;
            let id = match stack.pop_back() {
                Some(i) => i,
                None => { return Ok(out); },
            };
            assert(stack@ =~= before.drop_last());
            if holds(&visited, id) {
                continue ;
            }
            if visited.len() >= limit {
                return Err(StorageError::Page { cause: PageError::Corrupt });
            }
            let page = match self.pager.read(id) {
                Ok(p) => p,
                Err(e) => { return Err(e); },
            };
            visited.push(id);
            if page._type == PageType::Leaf {
                let ghost had = views(out@);
                let mut rows = page.rows;
                let ghost more = views(rows@);
                out.append(&mut rows);
                assert(views(out@) =~= had + more);
            } else {
                push_children(&mut stack, &page.rows);
            }
        }
        Ok(out)
    }

    /// Returns the structure of the BTree in Graphviz DOT language
    pub fn structure(&mut self) -> (r: Result<String, StorageError>)
        requires
            old(self).well_formed(),
        ensures
            final(self).well_formed(),
            final(self)@.pager == tree_structure(old(self)@.pager).0,
            match tree_structure(old(self)@.pager).1 {
                Ok(text) => r matches Ok(out) && out@ == text,
                Err(e) => r == Err::<String, StorageError>(e),
            },
    {
        let limit = self.pager.metadata().pages;
        let mut queue: VecDeque<usize> = VecDeque::new();
        queue.push_front(self.pager.root());
        let mut visited: Vec<usize> = Vec::new();
        let mut out = String::new();
        push_text(&mut out, "digraph {\n");
        let ghost goal = walk_text(
            old(self)@.pager,
            seq![old(self)@.pager.meta.root],
            Seq::empty(),
            "digraph {\n"@,
            old(self)@.pager.meta.pages as nat,
        );
        assert(queue@ =~= seq![self@.pager.meta.root]);
        assert(visited@ =~= Seq::<usize>::empty());
        assert(out@ =~= "digraph {\n"@);
        while queue.len() > 0
            invariant
                self.well_formed(),
                goal == walk_text(
                    old(self)@.pager,
                    seq![old(self)@.pager.meta.root],
                    Seq::empty(),
                    "digraph {\n"@,
                    old(self)@.pager.meta.pages as nat,
                ),
                goal == walk_text(self@.pager, queue@, visited@, out@, limit as nat),
            decreases limit - visited@.len(), queue@.len(),
        {
            let ghost before = queue@;
            let id = match queue.pop_back() {
                Some(i) => i,
                None => { return Ok(out); },
            };
            assert(queue@ =~= before.drop_last());
            if holds(&visited, id) {
                continue ;
            }
            if visited.len() >= limit {
                return Err(StorageError::Page { cause: PageError::Corrupt });
            }
            let page = match self.pager.read(id) {
                Ok(p) => p,
                Err(e) => { return Err(e); },
            };
            visited.push(id);
            if page._type == PageType::Leaf {
                push_leaf_text(&mut out, id, page.parent);
            } else {
                push_pointers_text(&mut out, id, &page.rows);
                queue_children(&mut queue, &page.rows);
            }
        }
        push_text(&mut out, "}");
        Ok(out)
    }

    /// Inserts rows without a value under the keys from 1 up to
    /// `quantity`.
    pub fn populate(&mut self, quantity: usize) -> (r: Result<(), StorageError>)
        requires
            old(self).well_formed(),
        ensures
            final(self).well_formed(),
            (final(self)@.pager, r) == populate(old(self)@.pager, 1, quantity as nat),
    {
        let mut i: usize = 1;
        let ghost goal = populate(old(self)@.pager, 1, quantity as nat);
        while i <= quantity
            invariant
                1 <= i,
                self.well_formed(),
                goal == populate(old(self)@.pager, 1, quantity as nat),
                goal == populate(self@.pager, i as nat, quantity as nat),
            decreases quantity + 1 - i,
        {
            let row = Row::new(i, RowType::Leaf);
            match self.insert(row) {
                Ok(_) => {},
                Err(e) => { return Err(e); },
            }
            if i == quantity {
                assert(populate(self@.pager, (i + 1) as nat, quantity as nat) == (
                    self@.pager,
                    Ok::<(), StorageError>(()),
                ));
                return Ok(());
            }
            i = i + 1;
        }
        Ok(())
    }
}

impl StorageEngine for BTree {
    open spec fn ready(&self) -> bool {
        self.well_formed()
    }

    fn execute(&mut self, command: Command) -> (r: Result<Option<String>, StorageError>)
        ensures
            (final(self)@.pager, shown(r)) == tree_execute(old(self)@.pager, command@),
    {
        match command {
            Command::Statement(s) => self.evaluate_statement(s),
            Command::Structure(_) => {
                match self.structure() {
                    Ok(out) => Ok(Some(out)),
                    Err(e) => Err(e),
                }
            },
            Command::Populate(quantity) => {
                match self.populate(quantity) {
                    Ok(_) => Ok(None),
                    Err(e) => Err(e),
                }
            },
            Command::Exit => Ok(None),
            Command::Ping => Ok(None),
        }
    }

    fn evaluate_statement(&mut self, statement: Statement) -> (r: Result<
        Option<String>,
        StorageError,
    >)
        ensures
            (final(self)@.pager, shown(r)) == tree_evaluate(old(self)@.pager, statement@),
    {
        match statement {
            Statement::Insert { .. } => {
                let row: Row = Row::from(statement);
                match self.insert(row) {
                    Ok(_) => Ok(None),
                    Err(e) => Err(e),
                }
            },
            Statement::Update { .. } => {
                let row: Row = Row::from(statement);
                match self.update(row) {
                    Ok(replaced) => {
                        if printable(&replaced) {
                            Ok(Some(print_row(&replaced)))
                        } else {
                            Err(StorageError::Page { cause: PageError::Corrupt })
                        }
                    },
                    Err(e) => Err(e),
                }
            },
            Statement::Delete { .. } => {
                let row: Row = Row::from(statement);
                match self.delete(row) {
                    Ok(_) => Ok(None),
                    Err(e) => Err(e),
                }
            },
            Statement::Select => {
                match self.select() {
                    Ok(rows) => match lines(&rows) {
                        Some(out) => Ok(Some(out)),
                        None => Err(StorageError::Page { cause: PageError::Corrupt }),
                    },
                    Err(e) => Err(e),
                }
            },
        }
    }
}


/// A split parts the rows at the separator: the halves together are the
/// rows of the page, the keys of the lower half are below the separator,
/// the keys of the upper half are not, and both halves are well formed.
pub proof fn lemma_split_parts(target: PageView, id: usize, right_id: usize)
    requires
        target.well_formed(),
        target.rows.len() > 0,
    ensures
        lower_half(target).rows + upper_half(target).rows == target.rows,
        upper_half(target).rows.len() > 0,
        lower_half(target).well_formed(),
        upper_half(target).well_formed(),
        forall|i: int|
            0 <= i < lower_half(target).rows.len() ==> (#[trigger] lower_half(target).rows[i]).id()
                < separator(target, id, right_id).id(),
        forall|i: int|
            0 <= i < upper_half(target).rows.len() ==> (#[trigger] upper_half(target).rows[i]).id()
                >= separator(target, id, right_id).id(),
        linked(target.rows) ==> linked(lower_half(target).rows) && linked(upper_half(target).rows),
{
    let m = (target.rows.len() / 2) as int;
    let n = target.rows.len() as int;
    assert(lower_half(target).rows + upper_half(target).rows =~= target.rows);
    lemma_part_well_formed(target, 0, m);
    lemma_part_well_formed(target, m, n);
    assert forall|i: int| 0 <= i < lower_half(target).rows.len() implies (
    #[trigger] lower_half(target).rows[i]).id() < separator(target, id, right_id).id() by {
        assert(target.rows[i].id() < target.rows[m].id());
    }
    assert forall|i: int| 0 <= i < upper_half(target).rows.len() implies (
    #[trigger] upper_half(target).rows[i]).id() >= separator(target, id, right_id).id() by {
        if i > 0 {
            assert(target.rows[m].id() < target.rows[m + i].id());
        }
    }
    if linked(target.rows) {
        super::page::lemma_part_linked(target.rows, 0, m);
        super::page::lemma_part_linked(target.rows, m, n);
    }
}

/// Taking a pointer out of linked pointers and making the pointers beside
/// it point to the page that stays leaves the pointers linked.
pub proof fn lemma_close_gap_links(rows: Seq<RowView>, pos: int, successor: usize)
    requires
        0 <= pos < rows.len(),
        linked(rows),
        all_of_kind(rows, RowType::Internal),
    ensures
        linked(close_gap(rows, pos, successor)),
        close_gap(rows, pos, successor).len() == rows.len() - 1,
        pos > 0 ==> close_gap(rows, pos, successor)[pos - 1].right() == successor,
        pos + 1 < rows.len() ==> close_gap(rows, pos, successor)[pos].left() == successor,
{
    let cut = rows.remove(pos);
    let out = close_gap(rows, pos, successor);
    assert forall|i: int| 0 <= i < cut.len() implies (#[trigger] cut[i]).kind()
        == RowType::Internal by {
        let a = if i < pos { i } else { i + 1 };
        assert(cut[i] == rows[a]);
        assert(rows[a].kind() == RowType::Internal);
    }
    assert forall|i: int| 0 <= i && i + 1 < out.len() implies (#[trigger] out[i]).right()
        == out[i + 1].left() by {
        assert(cut[i].kind() == RowType::Internal);
        assert(cut[i + 1].kind() == RowType::Internal);
        if i + 1 < pos {
            assert(rows[i].right() == rows[i + 1].left());
        } else if i + 1 == pos {
        } else {
            assert(rows[i + 1].right() == rows[i + 2].left());
        }
    }
    if pos > 0 {
        assert(cut[pos - 1].kind() == RowType::Internal);
    }
    if pos + 1 < rows.len() {
        assert(cut[pos].kind() == RowType::Internal);
    }
}

/// A descent only reads: it changes neither the bytes that stand for any
/// page nor the metadata.
pub proof fn lemma_locate_keeps(
    s: PagerView,
    cur: usize,
    id: usize,
    crumbs: Seq<(usize, usize)>,
    fuel: nat,
    other: usize,
)
    ensures
        locate(s, cur, id, crumbs, fuel).0.stored(other) == s.stored(other),
        locate(s, cur, id, crumbs, fuel).0.meta == s.meta,
        locate(s, cur, id, crumbs, fuel).0.file == s.file,
        locate(s, cur, id, crumbs, fuel).0.commit == s.commit,
    decreases fuel,
{
    lemma_read_keeps(s, cur, other);
    let (s1, r) = s.read(cur);
    match r {
        Err(e) => {},
        Ok(page) => {
            if page.kind != PageType::Leaf && fuel > 0 {
                match choice(page.rows, id) {
                    None => {},
                    Some((q, child)) => {
                        lemma_locate_keeps(
                            s1,
                            child,
                            id,
                            crumbs.push((cur, q)),
                            (fuel - 1) as nat,
                            other,
                        );
                    },
                }
            }
        },
    }
}

/// An insert that is refused for its key changes nothing: the bytes that
/// stand for every page, and the metadata, are as before.
pub proof fn lemma_refused_insert_changes_nothing(s: PagerView, row: RowView, other: usize)
    requires
        tree_insert(s, row).1 matches Err(StorageError::Engine { action: EngineAction::Insert, .. }),
    ensures
        tree_insert(s, row).0.stored(other) == s.stored(other),
        tree_insert(s, row).0.meta == s.meta,
        tree_insert(s, row).0.file == s.file,
{
    lemma_locate_keeps(s, s.meta.root, row.id(), Seq::empty(), s.meta.pages as nat, other);
    let (s1, r) = locate(s, s.meta.root, row.id(), Seq::empty(), s.meta.pages as nat);
    match r {
        Err(e) => {
            lemma_locate_errors(s, s.meta.root, row.id(), Seq::empty(), s.meta.pages as nat);
        },
        Ok((leaf, crumbs, page)) => {
            match page.insert(row) {
                Ok(grown) => {
                    assert(s1.write(leaf, grown).1 is Ok || s1.write(leaf, grown).1
                        == Err::<(), StorageError>(
                        StorageError::Pager { cause: super::PagerError::OutOfBounds },
                    ));
                },
                Err(PageError::Full) => {
                    lemma_split_errors(s1, leaf, row, crumbs.len());
                },
                Err(e) => {},
            }
        },
    }
}

/// A descent reports no error of the engine.
pub proof fn lemma_locate_errors(
    s: PagerView,
    cur: usize,
    id: usize,
    crumbs: Seq<(usize, usize)>,
    fuel: nat,
)
    ensures
        !(locate(s, cur, id, crumbs, fuel).1 matches Err(
            StorageError::Engine { action: EngineAction::Insert, .. },
        )),
    decreases fuel,
{
    let (s1, r) = s.read(cur);
    match r {
        Err(e) => {},
        Ok(page) => {
            if page.kind != PageType::Leaf && fuel > 0 {
                match choice(page.rows, id) {
                    None => {},
                    Some((q, child)) => {
                        lemma_locate_errors(s1, child, id, crumbs.push((cur, q)), (fuel - 1) as nat);
                    },
                }
            }
        },
    }
}

/// Putting children under a parent reports no error of the engine.
pub proof fn lemma_reparent_errors(s: PagerView, rows: Seq<RowView>, parent: usize)
    ensures
        !(reparent_all(s, rows, parent).1 matches Err(StorageError::Engine { .. })),
    decreases rows.len(),
{
    if rows.len() > 0 {
        let (s1, r) = reparent_row(s, rows[0], parent);
        match r {
            Err(e) => {},
            Ok(_) => {
                lemma_reparent_errors(s1, rows.subrange(1, rows.len() as int), parent);
            },
        }
    }
}

/// Splitting a page in two reports no error of an insert.
pub proof fn lemma_split_node_errors(s: PagerView, id: usize, row: RowView)
    ensures
        !(split_node(s, id, row).1 matches Err(
            StorageError::Engine { action: EngineAction::Insert, .. },
        )),
{
    let (s1, r1) = s.read(id);
    match r1 {
        Err(e) => {},
        Ok(target) => {
            let (s2, r2) = s1.allocate();
            match r2 {
                Err(e) => {},
                Ok(right_id) => {
                    lemma_reparent_errors(s2, upper_half(target).rows, right_id);
                    let (s3, r3) = move_children(
                        s2,
                        target.kind,
                        upper_half(target).rows,
                        right_id,
                    );
                    lemma_reparent_errors(s3, seq![row], right_id);
                },
            }
        },
    }
}

/// A split reports no error of an insert: an insert is refused for its
/// key only by the leaf that the descent ends in.
pub proof fn lemma_split_errors(s: PagerView, cur: usize, row: RowView, depth: nat)
    ensures
        !(tree_split(s, cur, row, depth).1 matches Err(
            StorageError::Engine { action: EngineAction::Insert, .. },
        )),
    decreases depth,
{
    if cur == s.meta.root {
        let (s1, r1) = s.allocate();
        match r1 {
            Err(e) => {},
            Ok(parent_id) => {
                let (s2, r2) = reparent(s1, cur, parent_id);
                match r2 {
                    Err(e) => {},
                    Ok(_) => {
                        lemma_split_node_errors(s2, cur, row);
                    },
                }
            },
        }
    } else {
        let (s1, r1) = s.read(cur);
        match r1 {
            Err(e) => {},
            Ok(page) => match page.parent {
                None => {},
                Some(parent_id) => {
                    lemma_split_node_errors(s1, cur, row);
                    let (s2, r2) = split_node(s1, cur, row);
                    match r2 {
                        Err(e) => {},
                        Ok(pointer) => {
                            let (s3, r3) = s2.read(parent_id);
                            match r3 {
                                Err(e) => {},
                                Ok(parent) => {
                                    if parent.kind == PageType::Internal && depth > 0 {
                                        lemma_split_errors(
                                            s3,
                                            parent_id,
                                            pointer,
                                            (depth - 1) as nat,
                                        );
                                    }
                                },
                            }
                        },
                    }
                },
            },
        }
    }
}

} // verus!
