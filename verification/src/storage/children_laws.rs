//! What the children of an internal page are, which pages are beside a child, and what becomes
//! of the children when some of them are replaced.
use crate::error::ShuError;
use crate::storage::model::{InternalCell, InternalNode, LeafCell};
use crate::storage::order::{lex_le, lex_lt, lex_lt_total};
use crate::storage::page::{PageId, PageModel, PageType, BODY_SIZE};
use crate::storage::pager::PagerModel;
use crate::storage::search_laws::separators_ascend;
use crate::storage::steady_laws::internal_keeps_page;
use crate::storage::tree::node_settled;
use crate::storage::tree_model::{child_of, find_child, node_of, replace_slots, siblings, slots_of};
use crate::storage::tree_model::{Sibling, Slot};
use crate::storage::tree_search::{node_search_finds, settled_node_len};
use crate::storage::tree_store::rewrite_internal_keeps;
use vstd::prelude::*;

verus! {

/// The pages below an internal page, from left to right: the children of its records, and then
/// its right child.
pub open spec fn pages_below(node: InternalNode) -> Seq<PageId> {
    node.cells.map_values(|cell: InternalCell| cell.child).push(
        node.right_child,
    )
}

/// The first place of a page among those below an internal page is found.
proof fn found_at_first_place(node: InternalNode, page_id: PageId, from: nat, at: int)
    requires
        from <= at <= node.cells.len(),
        pages_below(node)[at] == page_id,
        forall|j: int| 0 <= j < at ==> #[trigger] pages_below(node)[j] != page_id,
    ensures
        find_child(node, page_id, from) == Some(at as nat),
    decreases at - from,
{
    assert(pages_below(node)[from as int] == child_of(node, from as int));
    if from < at {
        found_at_first_place(node, page_id, from + 1, at);
    }
}

proof fn not_found(node: InternalNode, page_id: PageId, from: nat)
    requires
        !pages_below(node).contains(page_id),
    ensures
        find_child(node, page_id, from) is None,
    decreases node.cells.len() + 1 - from,
{
    if from <= node.cells.len() {
        assert(pages_below(node)[from as int] == child_of(node, from as int));
        not_found(node, page_id, from + 1);
    }
}

/// Beside a child are the one before it and the one behind it, as far as there are any, with
/// their indices. A page that is no child has none beside it.
pub proof fn neighbours_are_beside(
    parent: PageModel,
    node: InternalNode,
    page_id: PageId,
    at: int,
)
    requires
        parent.internal_entries() == Ok::<InternalNode, ShuError>(node),
        node.cells.len() < u16::MAX,
    ensures
        !pages_below(node).contains(page_id) ==> siblings(page_id, parent) == Err::<
            Seq<Sibling>,
            ShuError,
        >(ShuError::CorruptedPage { page_id: parent.header.page_id }),
        0 <= at <= node.cells.len() && pages_below(node)[at] == page_id && (forall|j: int|
            0 <= j < at ==> #[trigger] pages_below(node)[j] != page_id) ==> ({
            let left = Sibling { page: pages_below(node)[at - 1], index: (at - 1) as u16 };
            let right = Sibling { page: pages_below(node)[at + 1], index: (at + 1) as u16 };
            let is_last = at == node.cells.len();
            siblings(page_id, parent) == Ok::<Seq<Sibling>, ShuError>(
                if at > 0 && !is_last {
                    seq![left, right]
                } else if at > 0 {
                    seq![left]
                } else if !is_last {
                    seq![right]
                } else {
                    Seq::empty()
                },
            )
        }),
{
    if !pages_below(node).contains(page_id) {
        not_found(node, page_id, 0);
    }
    if 0 <= at <= node.cells.len() && pages_below(node)[at] == page_id && (forall|j: int|
        0 <= j < at ==> #[trigger] pages_below(node)[j] != page_id) {
        found_at_first_place(node, page_id, 0, at);
        let left = Sibling { page: pages_below(node)[at - 1], index: (at - 1) as u16 };
        let right = Sibling { page: pages_below(node)[at + 1], index: (at + 1) as u16 };
        let found = siblings(page_id, parent)->Ok_0;
        if at > 0 && at < node.cells.len() {
            assert(found =~= seq![left, right]);
        } else if at > 0 {
            assert(found =~= seq![left]);
        } else if at < node.cells.len() {
            assert(found =~= seq![right]);
        } else {
            assert(found =~= Seq::<Sibling>::empty());
        }
    }
}

/// The children from `start` to `end` are replaced if they are children, and if all that follow
/// them or one another have a separator. Those before and behind stay, with their separators,
/// and the new ones are in between. Otherwise the page stays as it is.
pub proof fn children_are_replaced(
    page: PageModel,
    node: InternalNode,
    start: u16,
    end: u16,
    new: Seq<Slot>,
)
    requires
        page.body.len() == BODY_SIZE,
        page.page_type() == Ok::<PageType, ShuError>(PageType::Internal),
        page.internal_entries() == Ok::<InternalNode, ShuError>(node),
        start <= end,
    ensures
        ({
            let n = node.cells.len() as int;
            let m = new.len() as int;
            let behind = n - end;
            let separated = forall|j: int|
                0 <= j < m && (j < m - 1 || behind > 0) ==> (#[trigger] new[j]).separator is Some;
            let (after, result) = page.replace_children(start, end, new);
            &&& end > n || !separated || (m + start == 0 && behind == 0) ==> result == Err::<
                (),
                ShuError,
            >(ShuError::CorruptedPage { page_id: page.header.page_id }) && after == page
            &&& end <= n && separated && (m > 0 || behind > 0) ==> {
                &&& result == Ok::<(), ShuError>(())
                &&& after.header == page.header
                &&& after.order == page.order
                &&& after.internal_entries() matches Ok(changed) && changed.cells.len() == start + m
                    + behind - 1 && (forall|j: int|
                    0 <= j < start ==> #[trigger] changed.cells[j] == node.cells[j]) && (forall|
                    j: int,
                |
                    0 <= j < m && start + j < changed.cells.len() ==> (
                    #[trigger] changed.cells[start + j]).child == new[j].page_id
                        && changed.cells[start + j].separator == new[j].separator->Some_0) && (
                forall|j: int|
                    0 <= j < behind - 1 ==> #[trigger] changed.cells[start + m + j]
                        == node.cells[end + 1 + j]) && changed.right_child == if behind > 0 {
                    node.right_child
                } else {
                    new[m - 1].page_id
                }
            }
        }),
{
    let n = node.cells.len() as int;
    let m = new.len() as int;
    let behind = n - end;
    let slots = slots_of(node);
    if end <= n {
        let all = replace_slots(slots, start as int, end as int, new);
        assert(all.len() == start + m + behind);
        assert forall|j: int| 0 <= j < start implies #[trigger] all[j] == slots[j] by {}
        assert forall|j: int| 0 <= j < m implies #[trigger] all[start + j] == new[j] by {}
        assert forall|j: int| 0 <= j < behind implies #[trigger] all[start + m + j] == slots[end + 1
            + j] by {}
        let separated = forall|j: int|
            0 <= j < m && (j < m - 1 || behind > 0) ==> (#[trigger] new[j]).separator is Some;
        if separated && (m > 0 || behind > 0) {
            assert forall|j: int| 0 <= j < all.len() - 1 implies (
            #[trigger] all[j]).separator is Some by {
                if j >= start && j < start + m {
                    assert(all[start + (j - start)] == new[j - start]);
                } else if j >= start + m {
                    assert(all[start + m + (j - start - m)] == slots[end + 1 + (j - start - m)]);
                }
            }
            let changed = node_of(all)->Some_0;
            rewrite_internal_keeps(page, changed);
            internal_keeps_page(page, changed);
            if behind > 0 {
                assert(all[start + m + (behind - 1)] == slots[end + 1 + (behind - 1)]);
            } else {
                assert(all[start + (m - 1)] == new[m - 1]);
            }
        } else if !separated {
            let j = choose|j: int|
                0 <= j < m && (j < m - 1 || behind > 0) && (#[trigger] new[j]).separator is None;
            assert(all[start + j] == new[j]);
            assert(all[start + j].separator is None);
            assert(node_of(all) is None);
        } else {
            assert(all.len() == start);
        }
    }
}

/// The list of the children of an internal page has each with its separator, and none for the
/// right child. Contents are made of such a list, and of no other: there must be a child, and all
/// but the last need a separator.
pub proof fn list_of_children(node: InternalNode, slots: Seq<Slot>)
    ensures
        slots_of(node).len() == node.cells.len() + 1,
        forall|i: int|
            0 <= i <= node.cells.len() ==> (#[trigger] slots_of(node)[i]).page_id == pages_below(
                node,
            )[i],
        forall|i: int|
            0 <= i < node.cells.len() ==> (#[trigger] slots_of(node)[i]).separator == Some(
                node.cells[i].separator,
            ),
        slots_of(node)[node.cells.len() as int].separator is None,
        node_of(slots_of(node)) == Some(node),
        node_of(slots) is Some <==> slots.len() > 0 && forall|i: int|
            0 <= i < slots.len() - 1 ==> (#[trigger] slots[i]).separator is Some,
        node_of(slots) matches Some(made) ==> pages_below(made) =~= slots.map_values(
            |slot: Slot| slot.page_id,
        ) && forall|i: int|
            0 <= i < slots.len() - 1 ==> Some((#[trigger] made.cells[i]).separator)
                == slots[i].separator,
{
    assert(node_of(slots_of(node))->Some_0.cells =~= node.cells);
}

/// The child for a key is the first whose separator is not smaller than the key, or the right
/// child if there is none.
pub proof fn child_for_key_is_right(page: PageModel, node: InternalNode, key: Seq<u8>, index: int)
    requires
        node_settled(page, node),
        separators_ascend(node.cells),
        0 <= index <= node.cells.len(),
        forall|i: int| 0 <= i < index ==> lex_lt((#[trigger] node.cells[i]).separator, key),
        index < node.cells.len() ==> lex_le(key, node.cells[index].separator),
    ensures
        page.child_index_for_key(key) == Ok::<u16, ShuError>(index as u16),
        page.child_at(index as u16) == Ok::<PageId, ShuError>(pages_below(node)[index]),
        page.child_for_key(key) == Ok::<PageId, ShuError>(pages_below(node)[index]),
{
    node_search_finds(page, node, key);
    settled_node_len(node.cells);
    let found = page.child_index_for_key(key)->Ok_0 as int;
    assert(found == index) by {
        if found < index {
            let separator = node.cells[found].separator;
            lex_lt_total(separator, key);
        } else if index < found {
            let separator = node.cells[index].separator;
            lex_lt_total(separator, key);
        }
    }
}

/// A page is added under the next number, as `allocate` does, unless no further page can be
/// counted; then nothing changes.
pub proof fn page_is_added_if_counted(s: PagerModel, page_type: PageType)
    ensures
        s.page_count == u32::MAX ==> s.add_page(page_type) == (s, Err::<PageId, ShuError>(
            ShuError::TooManyPages,
        )),
        s.page_count < u32::MAX ==> s.add_page(page_type) == s.allocate(page_type),
{
}

/// A page is rewritten where it is, and then to be saved. One that cannot be read cannot be
/// rewritten, and nothing changes.
pub proof fn page_is_rewritten_in_place(
    s: PagerModel,
    page_id: PageId,
    cells: Seq<LeafCell>,
    node: InternalNode,
)
    ensures
        s.read_page(page_id) matches Err(e) ==> s.rewrite_leaf(page_id, cells) == (s, Err::<
            (),
            ShuError,
        >(e)) && s.rewrite_internal(page_id, node) == (s, Err::<(), ShuError>(e)),
        s.read_page(page_id) matches Ok(page) ==> s.rewrite_leaf(page_id, cells) == (
            s.store(page_id, page.rewrite_leaf_entries(cells).0),
            page.rewrite_leaf_entries(cells).1,
        ) && s.rewrite_internal(page_id, node) == (
            s.store(page_id, page.rewrite_internal_entries(node).0),
            page.rewrite_internal_entries(node).1,
        ),
{
}

} // verus!
