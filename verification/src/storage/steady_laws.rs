//! What no operation on the tree changes: the byte order and the number of a page, and where
//! the pages of a database are counted.
use crate::storage::codec::ByteOrder;
use crate::storage::database_laws::put_marks_changes;
use crate::storage::model::{InternalCell, InternalNode, LeafCell};
use crate::storage::page::{Overflow, PageHeader, PageId, PageModel, PageType};
use crate::storage::pager::{described, new_database, PagerModel, META_PAGE_ID};
use crate::storage::slotted::upsert;
use crate::storage::tree_model::{gather_leaves, gather_nodes, internal_groups, leaf_groups};
use crate::storage::tree_model::{leaf_slots, node_of, node_slots, replace_slots, slots_of};
use crate::storage::tree_model::{window_ids, NodeGroup, PathFrame, Slot};
use vstd::prelude::*;

verus! {

/// A page has the byte order and the header that it had, but for its type.
pub open spec fn same_page(page: PageModel, after: PageModel) -> bool {
    &&& after.order == page.order
    &&& after.header == (PageHeader { page_type: after.header.page_type, ..page.header })
    &&& after.body.len() == page.body.len()
}

/// Appending records to a page leaves its byte order, number and type.
proof fn appending_keeps_page(
    page: PageModel,
    cells: Seq<LeafCell>,
    separators: Seq<InternalCell>,
    n: nat,
)
    ensures
        same_page(page, page.append_leaf_entries(cells, n).0),
        page.append_leaf_entries(cells, n).0.header == page.header,
        same_page(page, page.append_internal_entries(separators, n).0),
        page.append_internal_entries(separators, n).0.header == page.header,
    decreases n,
{
    reveal(PageModel::append_leaf_entry);
    reveal(PageModel::append_internal_entry);
    if n > 0 {
        appending_keeps_page(page, cells, separators, (n - 1) as nat);
    }
}

/// Whatever records a leaf page is given, and whether it takes them or not, it keeps its byte
/// order, number and type.
pub proof fn leaf_keeps_page(page: PageModel, cells: Seq<LeafCell>, key: Seq<u8>, value: Seq<u8>)
    ensures
        same_page(page, page.rewrite_leaf_entries(cells).0),
        page.rewrite_leaf_entries(cells).0.header == page.header,
        same_page(page, page.insert_leaf_entry(key, value).0),
        page.insert_leaf_entry(key, value).0.header == page.header,
{
    rewriting_leaf_keeps_page(page, cells);
    if page.leaf_entries() is Ok {
        rewriting_leaf_keeps_page(
            page,
            upsert(page.leaf_entries()->Ok_0, key, value),
        );
    }
}

proof fn rewriting_leaf_keeps_page(page: PageModel, cells: Seq<LeafCell>)
    ensures
        same_page(page, page.rewrite_leaf_entries(cells).0),
        page.rewrite_leaf_entries(cells).0.header == page.header,
{
    let empty = (PageModel { overflow: Overflow::Empty, ..page });
    appending_keeps_page(empty.init_leaf_page().0, cells, Seq::empty(), cells.len());
}

/// Whatever contents an internal page is given, and whether it takes them or not, it keeps its
/// byte order, number and type.
pub proof fn internal_keeps_page(page: PageModel, node: InternalNode)
    ensures
        same_page(page, page.rewrite_internal_entries(node).0),
        page.rewrite_internal_entries(node).0.header == page.header,
        same_page(page, page.init_internal_page().0),
        page.init_internal_page().0.header == page.header,
{
    let empty = (PageModel { overflow: Overflow::Empty, ..page });
    appending_keeps_page(
        empty.init_internal_page().0,
        Seq::empty(),
        node.cells,
        node.cells.len(),
    );
}

/// Replacing children of an internal page leaves its byte order, number and type.
pub proof fn children_keep_page(page: PageModel, start: u16, end: u16, replacements: Seq<Slot>)
    ensures
        same_page(page, page.replace_children(start, end, replacements).0),
        page.replace_children(start, end, replacements).0.header == page.header,
{
    if page.internal_entries() is Ok {
        let slots = slots_of(page.internal_entries()->Ok_0);
        let after = node_of(
            replace_slots(
                slots,
                start as int,
                end as int,
                replacements,
            ),
        );
        if after is Some {
            internal_keeps_page(page, after->Some_0);
        }
    }
}

/// The database has the byte order, the root and the list of free pages that it had, and no
/// fewer pages. Every page that was added is in memory, to be saved, under its own number and in
/// the byte order of the database; every other page in memory was there before and has the byte
/// order and the header that it had, but for the type.
pub open spec fn steady(s: PagerModel, after: PagerModel) -> bool {
    &&& after.order == s.order
    &&& after.root_page_id == s.root_page_id
    &&& after.freelist_head == s.freelist_head
    &&& after.page_count >= s.page_count
    &&& forall|id: u32| #[trigger]
        after.pages.contains_key(id) && !(s.page_count <= id < after.page_count)
            ==> s.pages.contains_key(id) && same_page(s.pages[id], after.pages[id])
    &&& forall|id: u32|
        s.page_count <= id < after.page_count ==> #[trigger] after.pages.contains_key(id)
            && after.dirty.contains(id) && after.pages[id].order == s.order
            && after.pages[id].header.page_id == PageId(id)
}

proof fn steady_twice(s: PagerModel, mid: PagerModel, after: PagerModel)
    requires
        steady(s, mid),
        steady(mid, after),
        forall|id: u32| mid.dirty.contains(id) ==> #[trigger] after.dirty.contains(id),
        forall|id: u32| mid.pages.contains_key(id) ==> #[trigger] after.pages.contains_key(id),
    ensures
        steady(s, after),
{
    assert forall|id: u32| s.page_count <= id < after.page_count implies #[trigger]
    after.pages.contains_key(id) && after.dirty.contains(id) && after.pages[id].order == s.order
        && after.pages[id].header.page_id == PageId(id) by {
        if id < mid.page_count {
            assert(mid.pages.contains_key(id));
            assert(mid.dirty.contains(id));
            assert(after.pages.contains_key(id));
            assert(after.dirty.contains(id));
            assert(same_page(mid.pages[id], after.pages[id]));
        } else {
            assert(after.pages.contains_key(id));
        }
    }
    assert forall|id: u32| #[trigger]
        after.pages.contains_key(id) && !(s.page_count <= id < after.page_count) implies
        s.pages.contains_key(id) && same_page(s.pages[id], after.pages[id]) by {
        assert(mid.pages.contains_key(id));
    }
}

/// No page is gone, and none that was to be saved is taken for saved.
spec fn no_less(s: PagerModel, after: PagerModel) -> bool {
    &&& forall|id: u32| s.dirty.contains(id) ==> #[trigger] after.dirty.contains(id)
    &&& forall|id: u32| s.pages.contains_key(id) ==> #[trigger] after.pages.contains_key(id)
}

spec fn steadily(s: PagerModel, after: PagerModel) -> bool {
    steady(s, after) && no_less(s, after)
}

proof fn steadily_twice(s: PagerModel, mid: PagerModel, after: PagerModel)
    requires
        steadily(s, mid),
        steadily(mid, after),
    ensures
        steadily(s, after),
{
    steady_twice(s, mid, after);
    assert forall|id: u32| s.dirty.contains(id) implies #[trigger] after.dirty.contains(id) by {
        assert(mid.dirty.contains(id));
    }
    assert forall|id: u32| s.pages.contains_key(id) implies #[trigger] after.pages.contains_key(
        id,
    ) by {
        assert(mid.pages.contains_key(id));
    }
}

/// Storing a page that is in memory anew.
proof fn steady_store(s: PagerModel, page_id: PageId, page: PageModel)
    requires
        s.pages.contains_key(page_id.0),
        same_page(s.pages[page_id.0], page),
    ensures
        steadily(s, s.store(page_id, page)),
{
}

/// The counts go to the meta page, which stays the same page otherwise.
proof fn steady_flush(s: PagerModel)
    ensures
        steadily(s, s.flush_meta().0),
{
    if s.cached(PageId(META_PAGE_ID)) is Ok {
        let meta = s.cached(PageId(META_PAGE_ID))->Ok_0;
        assert(s.pages.contains_key(META_PAGE_ID));
        assert(s.pages[META_PAGE_ID] == meta);
    }
}

/// A page that is added has the number behind the others, whether it is counted on the meta
/// page or not, is in memory in the byte order of the database, and is to be saved.
pub proof fn added_page_is_in_order(s: PagerModel, page_type: PageType)
    requires
        s.page_count < u32::MAX,
    ensures
        steady(s, s.allocate(page_type).0),
        s.allocate(page_type).0.page_count == s.page_count + 1,
{
    steady_allocate(s, page_type);
}

proof fn steady_allocate(s: PagerModel, page_type: PageType)
    requires
        s.page_count < u32::MAX,
    ensures
        steadily(s, s.allocate(page_type).0),
        s.allocate(page_type).0.page_count == s.page_count + 1,
{
    let page_id = PageId(s.page_count);
    let added = PagerModel {
        page_count: (s.page_count + 1) as u32,
        ..s.store(page_id, s.new_page(page_type))
    };
    assert(steadily(s, added));
    steady_flush(added);
    steadily_twice(s, added, added.flush_meta().0);
}

proof fn steady_group_page(s: PagerModel, reuse: Seq<PageId>, index: int, page_type: PageType)
    ensures
        steadily(s, s.page_for_group(reuse, index, page_type).0),
{
    if index >= reuse.len() && s.page_count < u32::MAX {
        steady_allocate(s, page_type);
    }
}

proof fn steady_leaf_groups(
    s: PagerModel,
    groups: Seq<Seq<LeafCell>>,
    reuse: Seq<PageId>,
    n: nat,
)
    ensures
        steadily(s, s.place_leaf_groups(groups, reuse, n).0),
    decreases n,
{
    if n > 0 {
        steady_leaf_groups(s, groups, reuse, (n - 1) as nat);
        let (placed, result) = s.place_leaf_groups(groups, reuse, (n - 1) as nat);
        if result is Ok {
            steady_group_page(placed, reuse, n - 1, PageType::Leaf);
            let (ready, result) = placed.page_for_group(reuse, n - 1, PageType::Leaf);
            steadily_twice(s, placed, ready);
            if result is Ok && ready.read_page(result->Ok_0) is Ok {
                let id = result->Ok_0;
                let page = ready.read_page(id)->Ok_0;
                leaf_keeps_page(page, groups[n - 1], Seq::empty(), Seq::empty());
                let after = ready.rewrite_leaf(id, groups[n - 1]).0;
                steady_store(ready, id, page.rewrite_leaf_entries(groups[n - 1]).0);
                steadily_twice(s, ready, after);
            }
        }
    }
}

proof fn steady_internal_groups(
    s: PagerModel,
    groups: Seq<NodeGroup>,
    reuse: Seq<PageId>,
    n: nat,
)
    ensures
        steadily(s, s.place_internal_groups(groups, reuse, n).0),
    decreases n,
{
    if n > 0 {
        steady_internal_groups(s, groups, reuse, (n - 1) as nat);
        let (placed, result) = s.place_internal_groups(groups, reuse, (n - 1) as nat);
        if result is Ok {
            steady_group_page(placed, reuse, n - 1, PageType::Internal);
            let (ready, result) = placed.page_for_group(reuse, n - 1, PageType::Internal);
            steadily_twice(s, placed, ready);
            if result is Ok && ready.read_page(result->Ok_0) is Ok {
                let id = result->Ok_0;
                let page = ready.read_page(id)->Ok_0;
                internal_keeps_page(page, groups[n - 1].node);
                let after = ready.rewrite_internal(id, groups[n - 1].node).0;
                steady_store(ready, id, page.rewrite_internal_entries(groups[n - 1].node).0);
                steadily_twice(s, ready, after);
            }
        }
    }
}

proof fn steady_replace(
    s: PagerModel,
    parent_id: PageId,
    start: u16,
    end: u16,
    replacements: Seq<Slot>,
)
    ensures
        steadily(s, s.replace_children(parent_id, start, end, replacements).0),
{
    if s.read_page(parent_id) is Ok {
        let parent = s.read_page(parent_id)->Ok_0;
        children_keep_page(parent, start, end, replacements);
        steady_store(s, parent_id, parent.replace_children(start, end, replacements).0);
    }
}

proof fn steady_leaf_window(s: PagerModel, parent_id: PageId, page_id: PageId, child_index: u16)
    ensures
        steadily(s, s.redistribute_leaf_window(parent_id, page_id, child_index).0),
{
    if s.read_page(parent_id) is Ok {
        let parent = s.read_page(parent_id)->Ok_0;
        if s.load_window(page_id, parent, child_index) is Ok {
            let window = s.load_window(page_id, parent, child_index)->Ok_0;
            if gather_leaves(window, window.len()) is Ok {
                let groups = leaf_groups(gather_leaves(window, window.len())->Ok_0);
                steady_leaf_groups(s, groups, window_ids(window), groups.len());
                let (placed, result) = s.place_leaf_groups(
                    groups,
                    window_ids(window),
                    groups.len(),
                );
                if result is Ok {
                    let start = window[0].index;
                    let end = window.last().index;
                    let slots = leaf_slots(
                        result->Ok_0,
                        groups,
                        end == parent.internal_entries()->Ok_0.cells.len(),
                    );
                    steady_replace(placed, parent_id, start, end, slots);
                    steadily_twice(
                        s,
                        placed,
                        placed.replace_children(parent_id, start, end, slots).0,
                    );
                }
            }
        }
    }
}

proof fn steady_internal_window(
    s: PagerModel,
    parent_id: PageId,
    page_id: PageId,
    child_index: u16,
)
    ensures
        steadily(s, s.redistribute_internal_window(parent_id, page_id, child_index).0),
{
    if s.read_page(parent_id) is Ok {
        let parent = s.read_page(parent_id)->Ok_0;
        if s.load_window(page_id, parent, child_index) is Ok {
            let window = s.load_window(page_id, parent, child_index)->Ok_0;
            let slots = slots_of(parent.internal_entries()->Ok_0);
            let gathered = gather_nodes(parent, slots, window, window.len());
            if window.last().index < slots.len() && gathered is Ok {
                let groups = internal_groups(
                    InternalNode {
                        cells: gathered->Ok_0,
                        right_child: window.last().page.internal_entries()->Ok_0.right_child,
                    },
                );
                steady_internal_groups(s, groups, window_ids(window), groups.len());
                let (placed, result) = s.place_internal_groups(
                    groups,
                    window_ids(window),
                    groups.len(),
                );
                if result is Ok {
                    let start = window[0].index;
                    let end = window.last().index;
                    let new = node_slots(
                        result->Ok_0,
                        groups,
                        slots[end as int].separator,
                    );
                    steady_replace(placed, parent_id, start, end, new);
                    steadily_twice(
                        s,
                        placed,
                        placed.replace_children(parent_id, start, end, new).0,
                    );
                }
            }
        }
    }
}

proof fn steady_root_leaf(s: PagerModel, page_id: PageId, page: PageModel)
    ensures
        steadily(s, s.split_root_leaf(page_id, page).0),
{
    if page.leaf_entries() is Ok {
        let groups = leaf_groups(page.leaf_entries()->Ok_0);
        steady_leaf_groups(s, groups, Seq::empty(), groups.len());
        let (placed, result) = s.place_leaf_groups(groups, Seq::empty(), groups.len());
        if result is Ok && placed.read_page(page_id) is Ok {
            let root = placed.read_page(page_id)->Ok_0;
            let node = node_of(
                leaf_slots(result->Ok_0, groups, true),
            );
            if node is Some {
                let typed = root.with_page_type(PageType::Internal);
                internal_keeps_page(typed, node->Some_0);
                let after = typed.rewrite_internal_entries(node->Some_0).0;
                steady_store(placed, page_id, after);
                steadily_twice(s, placed, placed.store(page_id, after));
            }
        }
    }
}

proof fn steady_root_internal(s: PagerModel, page_id: PageId, page: PageModel)
    ensures
        steadily(s, s.split_root_internal(page_id, page).0),
{
    if page.internal_entries() is Ok {
        let groups = internal_groups(page.internal_entries()->Ok_0);
        steady_internal_groups(s, groups, Seq::empty(), groups.len());
        let (placed, result) = s.place_internal_groups(groups, Seq::empty(), groups.len());
        if result is Ok && placed.read_page(page_id) is Ok {
            let root = placed.read_page(page_id)->Ok_0;
            let node = node_of(
                node_slots(result->Ok_0, groups, None),
            );
            if node is Some {
                internal_keeps_page(root, node->Some_0);
                let empty = root.init_internal_page().0;
                internal_keeps_page(empty, node->Some_0);
                let after = empty.rewrite_internal_entries(node->Some_0).0;
                steady_store(placed, page_id, empty);
                steady_store(placed, page_id, after);
                steadily_twice(s, placed, placed.store(page_id, empty));
                steadily_twice(s, placed, placed.store(page_id, after));
            }
        }
    }
}

proof fn steady_balance(s: PagerModel, page_id: PageId, path: Seq<PathFrame>)
    ensures
        steadily(s, s.balance(page_id, path).0),
    decreases path.len(),
{
    if s.read_page(page_id) is Ok {
        let page = s.read_page(page_id)->Ok_0;
        steady_root_leaf(s, page_id, page);
        steady_root_internal(s, page_id, page);
        if path.len() > 0 {
            let frame = path.last();
            let parent = frame.page_id;
            let rest = path.drop_last();
            steady_leaf_window(s, parent, page_id, frame.child_index);
            let shared = s.redistribute_leaf_window(parent, page_id, frame.child_index).0;
            steady_balance(shared, parent, rest);
            steadily_twice(s, shared, shared.balance(parent, rest).0);
            steady_internal_window(s, parent, page_id, frame.child_index);
            let shared = s.redistribute_internal_window(parent, page_id, frame.child_index).0;
            steady_balance(shared, parent, rest);
            steadily_twice(s, shared, shared.balance(parent, rest).0);
        }
    }
}

/// A put, even one that fails, leaves the byte order, the root and the list of free pages, and
/// takes no page away. The pages that it adds follow the others without a gap, are in memory in
/// the byte order of the database, and are to be saved.
pub proof fn put_is_steady(s: PagerModel, key: Seq<u8>, value: Seq<u8>)
    ensures
        steady(s, s.put(key, value).0),
{
    if s.search(key) is Ok {
        let found = s.search(key)->Ok_0;
        if s.read_page(found.leaf_id) is Ok {
            let leaf = s.read_page(found.leaf_id)->Ok_0;
            leaf_keeps_page(leaf, Seq::empty(), key, value);
            let stored = s.store(found.leaf_id, leaf.insert_leaf_entry(key, value).0);
            steady_store(s, found.leaf_id, leaf.insert_leaf_entry(key, value).0);
            steady_balance(stored, found.leaf_id, found.path);
            steadily_twice(s, stored, stored.balance(found.leaf_id, found.path).0);
        }
    }
}

/// All pages in memory are in the one byte order of the database, the meta page among them.
pub open spec fn in_one_order(s: PagerModel) -> bool {
    &&& s.pages.contains_key(META_PAGE_ID)
    &&& forall|id: u32| #[trigger] s.pages.contains_key(id) ==> s.pages[id].order == s.order
}

/// A database that is in one byte order stays so when records are put into it.
pub proof fn put_stays_in_one_order(s: PagerModel, key: Seq<u8>, value: Seq<u8>)
    requires
        in_one_order(s),
    ensures
        in_one_order(s.put(key, value).0),
        s.put(key, value).0.order == s.order,
{
    put_is_steady(s, key, value);
    put_marks_changes(s, key, value);
    let after = s.put(key, value).0;
    assert(s.pages.contains_key(META_PAGE_ID));
    assert(after.pages.contains_key(META_PAGE_ID));
    assert forall|id: u32| #[trigger] after.pages.contains_key(id) implies after.pages[id].order
        == after.order by {
        if !(s.page_count <= id < after.page_count) {
            assert(s.pages.contains_key(id));
        }
    }
}

/// A database that is in one byte order stays so when pages are added to it, when pages in that
/// order are written or supplied, and when pages are saved.
pub proof fn pages_stay_in_one_order(
    s: PagerModel,
    page_type: PageType,
    page_id: PageId,
    page: PageModel,
)
    requires
        in_one_order(s),
    ensures
        s.page_count < u32::MAX ==> in_one_order(s.allocate(page_type).0) && s.allocate(
            page_type,
        ).0.order == s.order,
        page.order == s.order ==> in_one_order(s.write_page(page_id, page).0) && in_one_order(
            s.supply(page_id, page),
        ),
        in_one_order(s.saved(page_id)),
{
    if s.page_count < u32::MAX {
        steady_allocate(s, page_type);
        let after = s.allocate(page_type).0;
        assert(s.pages.contains_key(META_PAGE_ID));
        assert(after.pages.contains_key(META_PAGE_ID));
        assert forall|id: u32| #[trigger] after.pages.contains_key(id) implies
            after.pages[id].order == after.order by {
            if !(s.page_count <= id < after.page_count) {
                assert(s.pages.contains_key(id));
            }
        }
    }
}

/// A database that is opened is in one byte order: a new one in that which was asked for, another
/// in that of its meta page.
pub proof fn opened_in_one_order(order: ByteOrder, meta: PageModel)
    ensures
        in_one_order(new_database(order)),
        new_database(order).order == order,
        described(meta) matches Ok(s) ==> in_one_order(s) && s.order == meta.order,
{
}

} // verus!
