//! What becomes of the pages in memory when groups of records go to pages of the tree.
use crate::error::ShuError;
use crate::storage::header::{written_header_reads_back, DatabaseHeader};
use crate::storage::model::{InternalNode, LeafCell};
use crate::storage::page::{blank_page, Overflow, PageId, PageModel, PageType, BODY_SIZE};
use crate::storage::pager::{PagerModel, META_PAGE_ID};
use crate::storage::slotted::{internal_space, keys_ascend, leaf_space, INTERNAL_CAPACITY};
use crate::storage::slotted::LEAF_CAPACITY;
use crate::storage::slotted_laws::{rewritten_internal_reads_back, rewritten_leaf_reads_back};
use crate::storage::tree::{leaf_at, meta_in_order, node_at, node_settled, page_at};
use crate::storage::tree_model::NodeGroup;
use vstd::prelude::*;

verus! {

/// The pages before a count, but for the meta page and some others, are as they were.
pub open spec fn unchanged_but(s: PagerModel, after: PagerModel, changed: Seq<PageId>) -> bool {
    &&& s.page_count <= after.page_count
    &&& forall|x: PageId|
        x.0 != META_PAGE_ID && x.0 < s.page_count && !changed.contains(x)
            && #[trigger] s.pages.contains_key(x.0) ==> after.pages.contains_key(x.0)
            && after.pages[x.0] == s.pages[x.0]
}

/// Adding a page makes it a page of its type and leaves the others as they were.
pub proof fn allocate_adds_page(s: PagerModel, page_type: PageType)
    requires
        meta_in_order(s),
        s.page_count < u32::MAX,
    ensures
        ({
            let (after, result) = s.allocate(page_type);
            let id = PageId(s.page_count);
            &&& result == Ok::<PageId, ShuError>(id)
            &&& meta_in_order(after)
            &&& after.page_count == s.page_count + 1
            &&& page_at(after, id)
            &&& after.pages[id.0].page_type() == Ok::<PageType, ShuError>(page_type)
            &&& after.pages[id.0].overflow is Empty
            &&& unchanged_but(s, after, Seq::empty())
        }),
{
    let id = PageId(s.page_count);
    let added = PagerModel {
        page_count: (s.page_count + 1) as u32,
        ..s.store(id, s.new_page(page_type))
    };
    let meta = s.pages[META_PAGE_ID];
    let header = DatabaseHeader {
        page_count: added.page_count,
        root_page_id: added.root_page_id,
        freelist_head: added.freelist_head,
        ..meta.database_header()->Ok_0
    };
    assert(added.cached(PageId(META_PAGE_ID)) == Ok::<PageModel, ShuError>(meta));
    written_header_reads_back(meta, header);
    assert(blank_page(s.order, page_type, id).body.len() == BODY_SIZE);
}

/// Records in order that fit go to the body of a leaf page.
pub proof fn rewrite_leaf_settles(s: PagerModel, id: PageId, cells: Seq<LeafCell>)
    requires
        page_at(s, id),
        s.pages[id.0].page_type() == Ok::<PageType, ShuError>(PageType::Leaf),
        keys_ascend(cells),
        leaf_space(cells) <= LEAF_CAPACITY,
    ensures
        ({
            let (after, result) = s.rewrite_leaf(id, cells);
            &&& result == Ok::<(), ShuError>(())
            &&& leaf_at(after, id, cells, false)
            &&& after == s.store(id, after.pages[id.0])
        }),
{
    rewritten_leaf_reads_back(s.pages[id.0], cells);
}

/// Contents go to the body of an internal page if they fit, and else to its overflow.
pub proof fn rewrite_internal_keeps(page: PageModel, node: InternalNode)
    requires
        page.body.len() == BODY_SIZE,
        page.page_type() == Ok::<PageType, ShuError>(PageType::Internal),
    ensures
        ({
            let (after, result) = page.rewrite_internal_entries(node);
            &&& result == Ok::<(), ShuError>(())
            &&& after.header == page.header
            &&& after.body.len() == BODY_SIZE
            &&& internal_space(node.cells) <= INTERNAL_CAPACITY
                ==> node_settled(after, node)
            &&& internal_space(node.cells) > INTERNAL_CAPACITY ==> after.overflow
                == Overflow::Internal(node) && node.cells.len() > 0
        }),
{
    if internal_space(node.cells) <= INTERNAL_CAPACITY {
        rewritten_internal_reads_back(page, node);
    }
}

/// Contents that fit go to the body of an internal page.
pub proof fn rewrite_internal_settles(s: PagerModel, id: PageId, node: InternalNode)
    requires
        page_at(s, id),
        s.pages[id.0].page_type() == Ok::<PageType, ShuError>(PageType::Internal),
        internal_space(node.cells) <= INTERNAL_CAPACITY,
    ensures
        ({
            let (after, result) = s.rewrite_internal(id, node);
            &&& result == Ok::<(), ShuError>(())
            &&& node_at(after, id, node, false)
            &&& after == s.store(id, after.pages[id.0])
        }),
{
    rewrite_internal_keeps(s.pages[id.0], node);
}

/// The page that the group at an index goes to.
pub open spec fn id_for_group(s: PagerModel, reuse: Seq<PageId>, index: int) -> PageId {
    if index < reuse.len() {
        reuse[index]
    } else {
        PageId((s.page_count + index - reuse.len()) as u32)
    }
}

/// The pages that the first `n` groups go to.
pub open spec fn ids_for_groups(s: PagerModel, reuse: Seq<PageId>, n: nat) -> Seq<PageId> {
    Seq::new(n, |i: int| id_for_group(s, reuse, i))
}

/// Pages to be used again are pages of a type, each once.
pub open spec fn reusable(s: PagerModel, reuse: Seq<PageId>, page_type: PageType) -> bool {
    &&& forall|i: int|
        0 <= i < reuse.len() ==> page_at(s, #[trigger] reuse[i]) && s.pages[reuse[i].0].page_type()
            == Ok::<PageType, ShuError>(page_type)
    &&& reuse.no_duplicates()
}

/// The number of pages after `n` groups went to pages.
pub open spec fn count_after(s: PagerModel, reuse: Seq<PageId>, n: nat) -> int {
    if n <= reuse.len() {
        s.page_count as int
    } else {
        s.page_count + n - reuse.len()
    }
}

/// The groups of records each go to a page of their own, unless no further page can be
/// counted.
pub proof fn place_leaves(s: PagerModel, groups: Seq<Seq<LeafCell>>, reuse: Seq<PageId>, n: nat)
    requires
        meta_in_order(s),
        reusable(s, reuse, PageType::Leaf),
        n <= groups.len(),
        forall|i: int|
            0 <= i < n ==> keys_ascend(#[trigger] groups[i]) && leaf_space(groups[i])
                <= LEAF_CAPACITY,
    ensures
        ({
            let (after, result) = s.place_leaf_groups(groups, reuse, n);
            match result {
                Err(e) => e == ShuError::TooManyPages && after.page_count == u32::MAX,
                Ok(ids) => {
                    &&& ids == ids_for_groups(s, reuse, n)
                    &&& after.page_count == count_after(s, reuse, n)
                    &&& meta_in_order(after)
                    &&& unchanged_but(s, after, ids)
                    &&& forall|i: int|
                        0 <= i < n ==> #[trigger] leaf_at(after, ids[i], groups[i], false)
                },
            }
        }),
    decreases n,
{
    if n == 0 {
        assert(ids_for_groups(s, reuse, n) =~= Seq::<PageId>::empty());
    } else {
        let m = (n - 1) as nat;
        place_leaves(s, groups, reuse, m);
        let (placed, result) = s.place_leaf_groups(groups, reuse, m);
        if result is Ok {
            let ids = result->Ok_0;
            let (ready, result) = placed.page_for_group(reuse, m as int, PageType::Leaf);
            if m < reuse.len() {
                assert(!ids.contains(reuse[m as int]));
                assert(s.pages.contains_key(reuse[m as int].0));
            } else if placed.page_count < u32::MAX {
                allocate_adds_page(placed, PageType::Leaf);
            }
            if result is Ok {
                let id = result->Ok_0;
                assert(id == id_for_group(s, reuse, m as int));
                rewrite_leaf_settles(ready, id, groups[m as int]);
                let after = ready.rewrite_leaf(id, groups[m as int]).0;
                let all = ids.push(id);
                assert(all =~= ids_for_groups(s, reuse, n));
                assert(meta_in_order(after));
                assert(!ids.contains(id));
                assert forall|i: int| 0 <= i < n implies #[trigger] leaf_at(
                    after,
                    all[i],
                    groups[i],
                    false,
                ) by {
                    if i < m {
                        assert(leaf_at(placed, ids[i], groups[i], false));
                        assert(placed.pages.contains_key(ids[i].0));
                        assert(ids[i] != id);
                    }
                }
                assert forall|x: PageId|
                    x.0 != META_PAGE_ID && x.0 < s.page_count && !all.contains(x)
                        && #[trigger] s.pages.contains_key(x.0) implies after.pages.contains_key(
                    x.0,
                ) && after.pages[x.0] == s.pages[x.0] by {
                    assert(all[m as int] == id);
                    if ids.contains(x) {
                        let j = choose|j: int| 0 <= j < ids.len() && ids[j] == x;
                        assert(all[j] == x);
                    }
                    assert(placed.pages.contains_key(x.0));
                }
            }
        }
    }
}

/// The groups of contents each go to a page of their own, unless no further page can be
/// counted.
pub proof fn place_nodes(s: PagerModel, groups: Seq<NodeGroup>, reuse: Seq<PageId>, n: nat)
    requires
        meta_in_order(s),
        reusable(s, reuse, PageType::Internal),
        n <= groups.len(),
        forall|i: int|
            0 <= i < n ==> internal_space((#[trigger] groups[i]).node.cells) <= INTERNAL_CAPACITY,
    ensures
        ({
            let (after, result) = s.place_internal_groups(groups, reuse, n);
            match result {
                Err(e) => e == ShuError::TooManyPages && after.page_count == u32::MAX,
                Ok(ids) => {
                    &&& ids == ids_for_groups(s, reuse, n)
                    &&& after.page_count == count_after(s, reuse, n)
                    &&& meta_in_order(after)
                    &&& unchanged_but(s, after, ids)
                    &&& forall|i: int|
                        0 <= i < n ==> #[trigger] node_at(after, ids[i], groups[i].node, false)
                },
            }
        }),
    decreases n,
{
    if n == 0 {
        assert(ids_for_groups(s, reuse, n) =~= Seq::<PageId>::empty());
    } else {
        let m = (n - 1) as nat;
        place_nodes(s, groups, reuse, m);
        let (placed, result) = s.place_internal_groups(groups, reuse, m);
        if result is Ok {
            let ids = result->Ok_0;
            let (ready, result) = placed.page_for_group(reuse, m as int, PageType::Internal);
            if m < reuse.len() {
                assert(!ids.contains(reuse[m as int]));
                assert(s.pages.contains_key(reuse[m as int].0));
            } else if placed.page_count < u32::MAX {
                allocate_adds_page(placed, PageType::Internal);
            }
            if result is Ok {
                let id = result->Ok_0;
                assert(id == id_for_group(s, reuse, m as int));
                rewrite_internal_settles(ready, id, groups[m as int].node);
                let after = ready.rewrite_internal(id, groups[m as int].node).0;
                let all = ids.push(id);
                assert(all =~= ids_for_groups(s, reuse, n));
                assert(meta_in_order(after));
                assert(!ids.contains(id));
                assert forall|i: int| 0 <= i < n implies #[trigger] node_at(
                    after,
                    all[i],
                    groups[i].node,
                    false,
                ) by {
                    if i < m {
                        assert(node_at(placed, ids[i], groups[i].node, false));
                        assert(placed.pages.contains_key(ids[i].0));
                        assert(ids[i] != id);
                    }
                }
                assert forall|x: PageId|
                    x.0 != META_PAGE_ID && x.0 < s.page_count && !all.contains(x)
                        && #[trigger] s.pages.contains_key(x.0) implies after.pages.contains_key(
                    x.0,
                ) && after.pages[x.0] == s.pages[x.0] by {
                    assert(all[m as int] == id);
                    if ids.contains(x) {
                        let j = choose|j: int| 0 <= j < ids.len() && ids[j] == x;
                        assert(all[j] == x);
                    }
                    assert(placed.pages.contains_key(x.0));
                }
            }
        }
    }
}

} // verus!
