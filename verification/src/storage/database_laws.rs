//! What a database promises beyond a single call: a new one is empty, one that was saved and
//! opened again says the same, and whatever changed is to be saved.
use crate::error::ShuError;
use crate::storage::codec::ByteOrder;
use crate::storage::header::{written_header_reads_back, DatabaseHeader, INITIAL_ROOT_PAGE_ID};
use crate::storage::model::{InternalNode, LeafCell};
use crate::storage::page::{blank_page, page_bytes, page_of_bytes, saved_page_reads_back, Overflow};
use crate::storage::page::{PageId, PageModel, PageType, BODY_SIZE};
use crate::storage::pager::{described, initial_header, new_database, PagerModel, META_PAGE_ID};
use crate::storage::search_laws::records;
use crate::storage::slotted_laws::rewritten_leaf_reads_back;
use crate::storage::tree::{flat, forms, leaf_settled, owns, page_at, says, stored, Tree};
use crate::storage::tree_laws::says_shortly;
use crate::storage::tree_model::{gather_leaves, gather_nodes, internal_groups, leaf_groups};
use crate::storage::tree_model::{slots_of, window_ids, NodeGroup, PathFrame};
use crate::storage::tree_path::{owned_by_kid, stored_frame};
use crate::storage::tree_short::short;
use crate::storage::tree_step::owned_pages_present;
use vstd::prelude::*;

verus! {

/// A new database, in either byte order, is whole and says nothing of any key.
pub proof fn new_database_is_empty(order: ByteOrder)
    ensures
        says_shortly(new_database(order), Map::empty()),
{
    let s = new_database(order);
    let root = PageId(INITIAL_ROOT_PAGE_ID);
    let t = Tree::Leaf { id: root, cells: Seq::empty() };
    let meta = blank_page(order, PageType::Meta, PageId(META_PAGE_ID));
    let blank = blank_page(order, PageType::Leaf, root);
    let none = Seq::<LeafCell>::empty();
    assert(meta.write_database_header(initial_header()).1 is Ok);
    written_header_reads_back(meta, initial_header());
    rewritten_leaf_reads_back(blank, none);
    assert(blank.rewrite_leaf_entries(none).0 == blank.init_leaf_page().0);
    assert(s.pages[root.0] == blank.init_leaf_page().0);
    assert(leaf_settled(s.pages[root.0], none));
    assert(records(flat(t)) =~= Map::empty());
    assert(forms(s, t, 0, PageId(META_PAGE_ID)));
    assert(short(t));
}

/// The counts that were written to the meta page are those of the database that is opened
/// from it.
pub proof fn counts_read_back(s: PagerModel)
    requires
        s.flush_meta().1 is Ok,
        s.pages[META_PAGE_ID].body.len() == BODY_SIZE,
    ensures
        described(s.flush_meta().0.pages[META_PAGE_ID]) matches Ok(again) && again.page_count
            == s.page_count && again.root_page_id == s.root_page_id && again.freelist_head
            == s.freelist_head,
{
    let meta = s.pages[META_PAGE_ID];
    let header = DatabaseHeader {
        page_count: s.page_count,
        root_page_id: s.root_page_id,
        freelist_head: s.freelist_head,
        ..meta.database_header()->Ok_0
    };
    written_header_reads_back(meta, header);
}

/// A page that was added is counted by the database that is opened again.
pub proof fn added_page_is_counted(s: PagerModel, page_type: PageType)
    requires
        s.page_count < u32::MAX,
        s.allocate(page_type).1 is Ok,
        s.pages[META_PAGE_ID].body.len() == BODY_SIZE,
    ensures
        s.allocate(page_type).1 == Ok::<PageId, ShuError>(PageId(s.page_count)),
        described(s.allocate(page_type).0.pages[META_PAGE_ID]) matches Ok(again)
            && again.page_count == s.page_count + 1,
{
    let id = PageId(s.page_count);
    let added = PagerModel {
        page_count: (s.page_count + 1) as u32,
        ..s.store(id, s.new_page(page_type))
    };
    assert(blank_page(s.order, page_type, id).body.len() == BODY_SIZE);
    counts_read_back(added);
}

/// A page that was written is read, and the others are read as before.
pub proof fn written_page_reads_back(
    s: PagerModel,
    page_id: PageId,
    page: PageModel,
    other: PageId,
)
    requires
        s.write_page(page_id, page).1 is Ok,
    ensures
        s.write_page(page_id, page).0.read_page(page_id) == Ok::<PageModel, ShuError>(page),
        other != page_id ==> s.write_page(page_id, page).0.read_page(other) == s.read_page(other),
{
}

/// What is read of a page that was saved, in the byte order it was saved in.
pub open spec fn read_again(page: PageModel) -> PageModel {
    page_of_bytes(page.order, page_bytes(page))
}

/// The pages of a whole tree are what their bytes say.
proof fn saved_tree_reads_back(s: PagerModel, t: Tree)
    requires
        stored(s, t, PageId(META_PAGE_ID)),
    ensures
        forall|x: PageId| #[trigger]
            owns(t, x) ==> read_again(s.pages[x.0]) == s.pages[x.0],
    decreases t,
{
    assert forall|x: PageId| #[trigger] owns(t, x) implies read_again(s.pages[x.0])
        == s.pages[x.0] by {
        if x == t.id() {
            saved_page_reads_back(s.pages[x.0]);
        } else {
            let i = owned_by_kid(t, x);
            saved_tree_reads_back(s, t.kids()[i]);
        }
    }
}

/// A whole database that is saved page by page, opened again from its meta page and supplied
/// with the pages says the same, if they are read in the byte order they were saved in.
pub proof fn reopened_says_same(
    s: PagerModel,
    values: Map<Seq<u8>, Seq<u8>>,
    again: PagerModel,
)
    requires
        says(s, values),
        described(read_again(s.pages[META_PAGE_ID])) matches Ok(fresh) ==> {
            &&& again.page_count == fresh.page_count
            &&& again.root_page_id == fresh.root_page_id
            &&& again.freelist_head == fresh.freelist_head
        },
        forall|id: u32|
            id < s.page_count && #[trigger] s.pages.contains_key(id) ==> again.pages.contains_key(id)
                && again.pages[id] == read_again(s.pages[id]),
    ensures
        described(read_again(s.pages[META_PAGE_ID])) is Ok,
        says(again, values),
{
    let none = PageId(META_PAGE_ID);
    let (t, height) = choose|t: Tree, height: nat| #[trigger]
        forms(s, t, height, none) && records(flat(t)) == values;
    let meta = s.pages[META_PAGE_ID];
    let plain = PageModel { overflow: Overflow::Empty, ..meta };
    saved_page_reads_back(plain);
    assert(page_bytes(plain) == page_bytes(meta));
    assert(read_again(meta) == plain);
    assert(plain.database_header() == meta.database_header());
    assert(s.pages.contains_key(META_PAGE_ID));
    owned_pages_present(s, t, none);
    saved_tree_reads_back(s, t);
    assert forall|x: PageId| #[trigger] owns(t, x) implies again.pages.contains_key(x.0)
        && again.pages[x.0] == s.pages[x.0] by {
        assert(page_at(s, x));
        assert(s.pages.contains_key(x.0));
    }
    stored_frame(s, again, t, none, none);
    assert(forms(again, t, height, none));
}

/// Whatever pages changed or are new are to be saved, and so are those that were to be saved
/// before. No page is gone.
pub open spec fn marked(s: PagerModel, after: PagerModel) -> bool {
    forall|id: u32| #![trigger after.dirty.contains(id)] #![trigger after.pages.contains_key(id)]
        {
            &&& s.dirty.contains(id) ==> after.dirty.contains(id)
            &&& s.pages.contains_key(id) ==> after.pages.contains_key(id)
            &&& after.pages.contains_key(id) && !after.dirty.contains(id)
                ==> s.pages.contains_key(id) && after.pages[id] == s.pages[id]
        }
}

proof fn marked_by_allocate(s: PagerModel, page_type: PageType)
    ensures
        marked(s, s.allocate(page_type).0),
{
}

proof fn marked_by_leaf_groups(
    s: PagerModel,
    groups: Seq<Seq<LeafCell>>,
    reuse: Seq<PageId>,
    n: nat,
)
    ensures
        marked(s, s.place_leaf_groups(groups, reuse, n).0),
    decreases n,
{
    if n > 0 {
        marked_by_leaf_groups(s, groups, reuse, (n - 1) as nat);
        let (placed, result) = s.place_leaf_groups(groups, reuse, (n - 1) as nat);
        if result is Ok {
            marked_by_allocate(placed, PageType::Leaf);
            let (ready, result) = placed.page_for_group(reuse, n - 1, PageType::Leaf);
            assert(marked(placed, ready));
            if result is Ok {
                let id = result->Ok_0;
                assert(marked(ready, ready.rewrite_leaf(id, groups[n - 1]).0));
            }
        }
    }
}

proof fn marked_by_internal_groups(
    s: PagerModel,
    groups: Seq<NodeGroup>,
    reuse: Seq<PageId>,
    n: nat,
)
    ensures
        marked(s, s.place_internal_groups(groups, reuse, n).0),
    decreases n,
{
    if n > 0 {
        marked_by_internal_groups(s, groups, reuse, (n - 1) as nat);
        let (placed, result) = s.place_internal_groups(groups, reuse, (n - 1) as nat);
        if result is Ok {
            marked_by_allocate(placed, PageType::Internal);
            let (ready, result) = placed.page_for_group(reuse, n - 1, PageType::Internal);
            assert(marked(placed, ready));
            if result is Ok {
                let id = result->Ok_0;
                assert(marked(ready, ready.rewrite_internal(id, groups[n - 1].node).0));
            }
        }
    }
}

proof fn marked_by_leaf_window(s: PagerModel, parent_id: PageId, page_id: PageId, child_index: u16)
    ensures
        marked(s, s.redistribute_leaf_window(parent_id, page_id, child_index).0),
{
    if s.read_page(parent_id) is Ok {
        let parent = s.read_page(parent_id)->Ok_0;
        if s.load_window(page_id, parent, child_index) is Ok {
            let window = s.load_window(page_id, parent, child_index)->Ok_0;
            if gather_leaves(window, window.len()) is Ok {
                let groups = leaf_groups(gather_leaves(window, window.len())->Ok_0);
                marked_by_leaf_groups(s, groups, window_ids(window), groups.len());
            }
        }
    }
}

proof fn marked_by_internal_window(
    s: PagerModel,
    parent_id: PageId,
    page_id: PageId,
    child_index: u16,
)
    ensures
        marked(s, s.redistribute_internal_window(parent_id, page_id, child_index).0),
{
    if s.read_page(parent_id) is Ok {
        let parent = s.read_page(parent_id)->Ok_0;
        if s.load_window(page_id, parent, child_index) is Ok {
            let window = s.load_window(page_id, parent, child_index)->Ok_0;
            let slots = slots_of(parent.internal_entries()->Ok_0);
            let gathered = gather_nodes(parent, slots, window, window.len());
            if window.last().index < slots.len() && gathered is Ok {
                let groups = internal_groups(
                    InternalNode {
                        cells: gathered->Ok_0,
                        right_child: window.last().page.internal_entries()->Ok_0.right_child,
                    },
                );
                marked_by_internal_groups(s, groups, window_ids(window), groups.len());
            }
        }
    }
}

proof fn marked_by_split(s: PagerModel, page_id: PageId, page: PageModel)
    ensures
        marked(s, s.split_root_leaf(page_id, page).0),
        marked(s, s.split_root_internal(page_id, page).0),
{
    if page.leaf_entries() is Ok {
        let groups = leaf_groups(page.leaf_entries()->Ok_0);
        marked_by_leaf_groups(s, groups, Seq::empty(), groups.len());
    }
    if page.internal_entries() is Ok {
        let groups = internal_groups(page.internal_entries()->Ok_0);
        marked_by_internal_groups(s, groups, Seq::empty(), groups.len());
    }
}

proof fn marked_by_balance(s: PagerModel, page_id: PageId, path: Seq<PathFrame>)
    ensures
        marked(s, s.balance(page_id, path).0),
    decreases path.len(),
{
    if s.read_page(page_id) is Ok {
        let page = s.read_page(page_id)->Ok_0;
        marked_by_split(s, page_id, page);
        if path.len() > 0 {
            let frame = path.last();
            marked_by_leaf_window(s, frame.page_id, page_id, frame.child_index);
            marked_by_internal_window(s, frame.page_id, page_id, frame.child_index);
            let shared = s.redistribute_leaf_window(
                frame.page_id,
                page_id,
                frame.child_index,
            ).0;
            marked_by_balance(shared, frame.page_id, path.drop_last());
            let shared = s.redistribute_internal_window(
                frame.page_id,
                page_id,
                frame.child_index,
            ).0;
            marked_by_balance(shared, frame.page_id, path.drop_last());
        }
    }
}

/// Whatever a put changes, even one that fails, is to be saved.
pub proof fn put_marks_changes(s: PagerModel, key: Seq<u8>, value: Seq<u8>)
    ensures
        marked(s, s.put(key, value).0),
{
    if s.search(key) is Ok {
        let found = s.search(key)->Ok_0;
        if s.read_page(found.leaf_id) is Ok {
            let leaf = s.read_page(found.leaf_id)->Ok_0;
            let stored_leaf = s.store(found.leaf_id, leaf.insert_leaf_entry(key, value).0);
            assert(marked(s, stored_leaf));
            marked_by_balance(stored_leaf, found.leaf_id, found.path);
        }
    }
}

/// Another pager of the same database has all pages in memory that this one has, and perhaps
/// more.
pub open spec fn has_more(s: PagerModel, more: PagerModel) -> bool {
    &&& more.page_count == s.page_count
    &&& more.root_page_id == s.root_page_id
    &&& forall|id: u32| #[trigger]
        s.pages.contains_key(id) ==> more.pages.contains_key(id) && more.pages[id] == s.pages[id]
}

proof fn descends_the_same(
    s: PagerModel,
    more: PagerModel,
    key: Seq<u8>,
    page: PageModel,
    path: Seq<PathFrame>,
    budget: nat,
)
    requires
        has_more(s, more),
    ensures
        s.descend(key, page, path, budget) matches Err(ShuError::Io { .. }) || more.descend(
            key,
            page,
            path,
            budget,
        ) == s.descend(key, page, path, budget),
    decreases budget,
{
    if page.page_type() == Ok::<PageType, ShuError>(PageType::Internal) && budget > 0 {
        if page.child_index_for_key(key) is Ok {
            let index = page.child_index_for_key(key)->Ok_0;
            if page.child_at(index) is Ok {
                let child = page.child_at(index)->Ok_0;
                if s.read_page(child) is Ok {
                    descends_the_same(
                        s,
                        more,
                        key,
                        s.read_page(child)->Ok_0,
                        path.push(PathFrame { page_id: page.id(), child_index: index }),
                        (budget - 1) as nat,
                    );
                }
            }
        }
    }
}

/// An answer that does not fail for want of a page in memory stays the same when further
/// pages are put into memory.
pub proof fn answer_stays_with_more_pages(s: PagerModel, more: PagerModel, key: Seq<u8>)
    requires
        has_more(s, more),
    ensures
        s.get(key) matches Err(ShuError::Io { .. }) || more.get(key) == s.get(key),
{
    if s.read_page(s.root_page_id) is Ok {
        descends_the_same(
            s,
            more,
            key,
            s.read_page(s.root_page_id)->Ok_0,
            Seq::empty(),
            s.page_count as nat,
        );
    }
}

} // verus!
