//! A tree of pages, ordered by key.
use crate::error::ShuError;
use crate::storage::btree_page::{copy_bytes, init_internal_page, internal_entries_capacity};
use crate::storage::btree_page::{internal_entry_space, leaf_entries_capacity, leaf_entry_space};
use crate::storage::btree_page::{InternalEntries, InternalEntry, LeafEntry};
use crate::storage::database_laws::{marked, new_database_is_empty, put_marks_changes};
use crate::storage::header::INITIAL_ROOT_PAGE_ID;
use crate::storage::model::{views, InternalCell, InternalNode, LeafCell};
use crate::storage::page::{Page, PageId, PageModel, PageType};
use crate::storage::pager::{described, new_database, Pager, PagerModel, META_PAGE_ID};
use crate::storage::slotted::{clamp, internal_space, leaf_cell_space, leaf_space, LeafSearchResult};
use crate::storage::slotted::{INTERNAL_CAPACITY, LEAF_CAPACITY};
use crate::storage::steady_laws::{in_one_order, opened_in_one_order, put_is_steady};
use crate::storage::steady_laws::{put_stays_in_one_order, steady};
use crate::storage::tree::says;
use crate::storage::tree_groups::{leaf_group_cut, leaf_groups_cut};
use crate::storage::tree_laws::{put_short_key, says_shortly, says_shortly_says};
use crate::storage::tree_model::{child_of, find_child, gather_leaves, gather_nodes};
use crate::storage::tree_model::{insert_by_index, internal_fit, internal_groups, leaf_fit};
use crate::storage::tree_model::{leaf_groups, leaf_slots, node_of, node_slots, replace_slots};
use crate::storage::tree_model::{siblings, slots_of, window_ids, NodeGroup, PathFrame, SearchModel};
use crate::storage::tree_model::{Sibling, Slot, WindowPage};
use crate::storage::tree_refusal::{answers_put, put_is_answered};
use crate::storage::tree_search::get_finds_value;
use crate::storage::tree_short::SHORT_KEY;
use vstd::prelude::*;

verus! {

broadcast use crate::storage::model::views_push;

/// A page that was read, and its index among its parent's children.
pub struct LoadedSibling {
    pub page: Page,
    pub index: u16,
}

impl View for LoadedSibling {
    type V = WindowPage;

    open spec fn view(&self) -> WindowPage {
        WindowPage { page: self.page@, index: self.index }
    }
}

/// A child of an internal page, with the greatest key that it may hold; the right child has
/// none.
pub struct ParentChild {
    pub page_id: PageId,
    pub separator: Option<Vec<u8>>,
}

/// The bytes of a separator, if there is one.
pub open spec fn separator_view(separator: Option<Vec<u8>>) -> Option<Seq<u8>> {
    match separator {
        Some(bytes) => Some(bytes@),
        None => None,
    }
}

impl View for ParentChild {
    type V = Slot;

    open spec fn view(&self) -> Slot {
        Slot { page_id: self.page_id, separator: separator_view(self.separator) }
    }
}

/// The contents for one internal page out of several, and the separator between it and the
/// next; the last has none.
pub struct InternalEntryGroup {
    pub entries: InternalEntries,
    pub promoted_separator: Option<Vec<u8>>,
}

impl View for InternalEntryGroup {
    type V = NodeGroup;

    open spec fn view(&self) -> NodeGroup {
        NodeGroup { node: self.entries@, promoted: separator_view(self.promoted_separator) }
    }
}

/// The outcome of a descent to a leaf.
pub struct TreeSearchResult {
    pub leaf_id: PageId,
    pub leaf_result: LeafSearchResult,
    pub path: Vec<PathFrame>,
}

impl View for TreeSearchResult {
    type V = SearchModel;

    open spec fn view(&self) -> SearchModel {
        SearchModel { leaf_id: self.leaf_id, leaf_result: self.leaf_result, path: self.path@ }
    }
}

/// What groups of entries stand for.
pub open spec fn group_views(groups: Seq<Vec<LeafEntry>>) -> Seq<Seq<LeafCell>> {
    Seq::new(groups.len(), |i: int| views(groups[i]@))
}

/// A copy of a separator.
pub fn copy_separator(separator: &Option<Vec<u8>>) -> (r: Option<Vec<u8>>)
    ensures
        separator_view(r) == separator_view(*separator),
{
    match separator {
        Some(bytes) => Some(copy_bytes(bytes)),
        None => None,
    }
}

/// Spreads entries over groups, in order. Each group fits a leaf page, or is a single entry that
/// does not. No other such groups are fewer: see `leaf_groups_are_fewest`.
pub fn distribute_leaf_entries(entries: Vec<LeafEntry>) -> (r: Vec<Vec<LeafEntry>>)
    ensures
        group_views(r@) == leaf_groups(views(entries@)),
{
    let capacity: usize = leaf_entries_capacity();
    let ghost all = views(entries@);
    let mut groups: Vec<Vec<LeafEntry>> = Vec::new();
    let mut rest = entries;
    assert(group_views(groups@) + leaf_groups(all) =~= leaf_groups(all));
    while rest.len() > 0
        invariant
            capacity == LEAF_CAPACITY,
            group_views(groups@) + leaf_groups(views(rest@)) == leaf_groups(all),
        decreases rest@.len(),
    {
        let ghost cells = views(rest@);
        let mut len: usize = 1;
        let mut size: usize = leaf_entry_space(&rest[0]);
        proof {
            assert(cells.take(1).drop_last() =~= Seq::<LeafCell>::empty());
            assert(leaf_space(Seq::<LeafCell>::empty()) == 0);
            assert(leaf_space(cells.take(1)) == leaf_cell_space(cells[0]));
        }
        let mut full: bool = false;
        while len < rest.len() && !full
            invariant
                capacity == LEAF_CAPACITY,
                cells == views(rest@),
                1 <= len <= rest@.len(),
                size == clamp(leaf_space(cells.take(len as int))),
                leaf_fit(cells, 1) == leaf_fit(cells, len as nat),
                full ==> leaf_fit(cells, 1) == len,
            decreases rest@.len() - len + if full { 0int } else { 1 },
        {
            let next: usize = size.saturating_add(leaf_entry_space(&rest[len]));
            assert(cells.take(len + 1).drop_last() =~= cells.take(len as int));
            if next > capacity {
                full = true;
            } else {
                size = next;
                len = len + 1;
            }
        }
        assert(leaf_fit(cells, 1) == len);
        let tail = rest.split_off(len);
        let ghost before = group_views(groups@);
        proof {
            assert(views(rest@) =~= cells.take(len as int));
            assert(views(tail@) =~= cells.skip(len as int));
        }
        groups.push(rest);
        rest = tail;
        proof {
            assert(group_views(groups@) =~= before.push(cells.take(len as int)));
            assert(before + leaf_groups(cells) =~= group_views(groups@) + leaf_groups(
                views(rest@),
            ));
        }
    }
    assert(group_views(groups@) =~= leaf_groups(all));
    groups
}

/// Spreads entries over groups, in order. Each group fits an internal page, or is a single entry
/// that does not. The entry between two groups gives its child to the former, as right child,
/// and its separator to the parent. No other groups that all fit are fewer: see
/// `internal_groups_are_fewest`.
pub fn distribute_internal_entries(entries: InternalEntries) -> (r: Vec<InternalEntryGroup>)
    ensures
        views(r@) == internal_groups(entries@),
{
    let capacity: usize = internal_entries_capacity();
    let ghost all = entries@;
    let right_child: PageId = entries.right_child;
    let mut groups: Vec<InternalEntryGroup> = Vec::new();
    let mut rest = entries.entries;
    let mut done: bool = false;
    assert(views(groups@) + internal_groups(all) =~= internal_groups(all));
    while !done
        invariant
            capacity == INTERNAL_CAPACITY,
            right_child == all.right_child,
            !done ==> views(groups@) + internal_groups(
                InternalNode { cells: views(rest@), right_child },
            ) == internal_groups(all),
            done ==> views(groups@) == internal_groups(all),
        decreases rest@.len() + if done { 0int } else { 1 },
    {
        let ghost cells = views(rest@);
        let mut len: usize = 0;
        let mut size: usize = 0;
        let mut full: bool = false;
        assert(cells.take(0) =~= Seq::<InternalCell>::empty());
        while len < rest.len() && !full
            invariant
                capacity == INTERNAL_CAPACITY,
                cells == views(rest@),
                len <= rest@.len(),
                size == clamp(internal_space(cells.take(len as int))),
                internal_fit(cells, 0) == internal_fit(cells, len as nat),
                full ==> len < rest@.len() && internal_fit(cells, 0) == len,
            decreases rest@.len() - len + if full { 0int } else { 1 },
        {
            let next: usize = size.saturating_add(internal_entry_space(&rest[len]));
            assert(cells.take(len + 1).drop_last() =~= cells.take(len as int));
            if next > capacity && len > 0 {
                full = true;
            } else {
                size = next;
                len = len + 1;
            }
        }
        assert(internal_fit(cells, 0) == len);
        let ghost before = views(groups@);
        let ghost node = InternalNode { cells, right_child };
        if full {
            let mut tail = rest.split_off(len);
            let boundary = tail.remove(0);
            proof {
                assert(views(rest@) =~= cells.take(len as int));
                assert(views(tail@) =~= cells.skip(len + 1));
                assert(boundary@ == cells[len as int]);
            }
            groups.push(
                InternalEntryGroup {
                    entries: InternalEntries::new(rest, boundary.child),
                    promoted_separator: Some(boundary.separator),
                },
            );
            rest = tail;
            proof {
                assert(before + internal_groups(node) =~= views(groups@) + internal_groups(
                    InternalNode { cells: views(rest@), right_child },
                ));
            }
        } else {
            groups.push(
                InternalEntryGroup {
                    entries: InternalEntries::new(rest, right_child),
                    promoted_separator: None,
                },
            );
            rest = Vec::new();
            done = true;
            proof {
                assert(internal_groups(node) =~= seq![NodeGroup { node, promoted: None }]);
                assert(views(groups@) =~= before + internal_groups(node));
            }
        }
    }
    groups
}

/// The children of an internal page with their separators.
pub fn parent_children(internal: InternalEntries) -> (r: Vec<ParentChild>)
    ensures
        views(r@) == slots_of(internal@),
{
    let ghost node = internal@;
    let right_child: PageId = internal.right_child;
    let mut entries = internal.entries;
    let mut rest: Vec<ParentChild> = Vec::new();
    rest.push(ParentChild { page_id: right_child, separator: None });
    assert(views(rest@) =~= slots_of(node).skip(node.cells.len() as int));
    while entries.len() > 0
        invariant
            entries@.len() <= node.cells.len(),
            views(entries@) == node.cells.take(entries@.len() as int),
            views(rest@) == slots_of(node).skip(entries@.len() as int),
        decreases entries@.len(),
    {
        let ghost before = entries@;
        match entries.pop() {
            Some(entry) => {
                let ghost tail = rest@;
                proof {
                    assert(views(before).last() == entry@);
                    assert(entry@ == node.cells[before.len() - 1]);
                    assert(views(entries@) =~= node.cells.take(entries@.len() as int));
                }
                rest.insert(
                    0,
                    ParentChild { page_id: entry.child, separator: Some(entry.separator) },
                );
                assert(views(rest@) =~= seq![slots_of(node)[before.len() - 1]] + views(tail));
                assert(views(rest@) =~= slots_of(node).skip(entries@.len() as int));
            },
            None => {},
        }
    }
    assert(views(rest@) =~= slots_of(node));
    rest
}

/// The contents of an internal page with these children, if there are any and all but the
/// last have a separator.
pub fn entries_of_children(slots: &Vec<ParentChild>) -> (r: Option<InternalEntries>)
    ensures
        match node_of(views(slots@)) {
            Some(node) => r matches Some(entries) && entries@ == node,
            None => r is None,
        },
{
    if slots.len() == 0 {
        return None;
    }
    let last: usize = slots.len() - 1;
    let ghost all = views(slots@);
    let mut entries: Vec<InternalEntry> = Vec::new();
    let mut i: usize = 0;
    while i < last
        invariant
            i <= last,
            last + 1 == slots@.len(),
            all == views(slots@),
            forall|k: int| 0 <= k < i ==> (#[trigger] all[k]).separator is Some,
            views(entries@) == Seq::new(
                i as nat,
                |k: int|
                    InternalCell {
                        child: all[k].page_id,
                        separator: all[k].separator->Some_0,
                    },
            ),
        decreases last - i,
    {
        match &slots[i].separator {
            Some(separator) => {
                entries.push(InternalEntry::new(slots[i].page_id, copy_bytes(separator)));
            },
            None => {
                assert(all[i as int].separator is None);
                return None;
            },
        }
        i = i + 1;
        assert(views(entries@) =~= Seq::new(
            i as nat,
            |k: int|
                InternalCell { child: all[k].page_id, separator: all[k].separator->Some_0 },
        ));
    }
    let entries = InternalEntries::new(entries, slots[last].page_id);
    assert(node_of(all) is Some);
    assert(entries@ =~= node_of(all)->Some_0);
    Some(entries)
}

/// Replaces the children of an internal page from one index to another.
pub fn rewrite_parent_child_range(
    parent: &mut Page,
    start_index: u16,
    end_index: u16,
    replacements: Vec<ParentChild>,
) -> (r: Result<(), ShuError>)
    ensures
        final(parent)@ == old(parent)@.replace_children(
            start_index,
            end_index,
            views(replacements@),
        ).0,
        r == old(parent)@.replace_children(start_index, end_index, views(replacements@)).1,
{
    let internal = parent.internal_entries()?;
    let mut slots = parent_children(internal);
    let start: usize = start_index as usize;
    let end: usize = end_index as usize;
    if start > end + 1 || end >= slots.len() {
        return Err(ShuError::CorruptedPage { page_id: parent.id() });
    }
    let ghost all = views(slots@);
    let ghost new = views(replacements@);
    let mut behind = slots.split_off(end + 1);
    slots.truncate(start);
    let mut replacements = replacements;
    slots.append(&mut replacements);
    slots.append(&mut behind);
    assert(views(slots@) =~= replace_slots(all, start as int, end as int, new));
    match entries_of_children(&slots) {
        Some(entries) => parent.rewrite_internal_entries(&entries),
        None => Err(ShuError::CorruptedPage { page_id: parent.id() }),
    }
}

/// The first index of a page among the children of an internal page.
fn position_of_child(internal: &InternalEntries, page_id: PageId) -> (r: Option<usize>)
    ensures
        match find_child(internal@, page_id, 0) {
            Some(at) => r matches Some(found) && found == at && at <= internal.entries@.len(),
            None => r is None,
        },
{
    let count: usize = internal.entries.len();
    let mut i: usize = 0;
    while i < count
        invariant
            i <= count == internal.entries@.len(),
            find_child(internal@, page_id, 0) == find_child(internal@, page_id, i as nat),
        decreases count - i,
    {
        if internal.entries[i].child == page_id {
            return Some(i);
        }
        i = i + 1;
    }
    proof {
        reveal_with_fuel(find_child, 2);
    }
    if internal.right_child == page_id {
        Some(count)
    } else {
        None
    }
}

/// The child of an internal page at an index; the right child comes last.
fn child_of_entries(internal: &InternalEntries, index: usize) -> (r: PageId)
    ensures
        r == child_of(internal@, index as int),
{
    if index < internal.entries.len() {
        internal.entries[index].child
    } else {
        internal.right_child
    }
}

/// Given the parent page and page id returns sibling pages on left and right side.
pub fn load_siblings(page_id: PageId, parent: &Page) -> (r: Result<Vec<Sibling>, ShuError>)
    ensures
        match siblings(page_id, parent@) {
            Ok(beside) => r matches Ok(found) && found@ == beside,
            Err(e) => r == Err::<Vec<Sibling>, ShuError>(e),
        },
{
    let internal = parent.internal_entries()?;
    let mut beside: Vec<Sibling> = Vec::new();
    match position_of_child(&internal, page_id) {
        Some(at) => {
            if at > 0 {
                beside.push(
                    Sibling {
                        page: child_of_entries(&internal, at - 1),
                        index: #[verifier::truncate]
                        ((at - 1) as u16),
                    },
                );
            }
            if at < internal.entries.len() {
                beside.push(
                    Sibling {
                        page: child_of_entries(&internal, at + 1),
                        index: #[verifier::truncate]
                        ((at + 1) as u16),
                    },
                );
            }
            assert(beside@ =~= siblings(page_id, parent@)->Ok_0);
            Ok(beside)
        },
        None => Err(ShuError::CorruptedPage { page_id: parent.id() }),
    }
}

/// Puts a page into a window, behind those whose index is not greater.
fn insert_into_window(window: &mut Vec<LoadedSibling>, new: LoadedSibling)
    ensures
        views(final(window)@) == insert_by_index(views(old(window)@), new@),
{
    let ghost before = views(window@);
    let mut at: usize = window.len();
    assert(before.take(at as int) =~= before);
    assert(insert_by_index(before, new@) =~= insert_by_index(before.take(at as int), new@)
        + before.skip(at as int));
    while at > 0 && new.index < window[at - 1].index
        invariant
            at <= window@.len(),
            before == views(window@),
            insert_by_index(before, new@) == insert_by_index(before.take(at as int), new@)
                + before.skip(at as int),
        decreases at,
    {
        proof {
            let part = before.take(at as int);
            assert(part.drop_last() =~= before.take(at - 1));
            assert(part.last() == window@[at - 1]@);
            assert(insert_by_index(part, new@) == insert_by_index(part.drop_last(), new@).push(
                part.last(),
            ));
            assert(insert_by_index(part, new@) + before.skip(at as int) =~= insert_by_index(
                before.take(at - 1),
                new@,
            ) + before.skip(at - 1));
        }
        at = at - 1;
    }
    proof {
        let part = before.take(at as int);
        assert(at > 0 ==> part.last() == window@[at - 1]@);
        assert(insert_by_index(part, new@) == part.push(new@));
    }
    let ghost new_view = new@;
    window.insert(at, new);
    assert(views(window@) =~= before.take(at as int).push(new_view) + before.skip(at as int));
}

/// A database of records, ordered by key.
pub struct BTree {
    pub pager: Pager,
}

impl View for BTree {
    type V = PagerModel;

    open spec fn view(&self) -> PagerModel {
        self.pager@
    }
}

impl BTree {
    /// Opens the database that a meta page describes, or a new one in the machine's byte order
    /// if there is none.
    pub fn open(meta: Option<Page>) -> (r: Result<Self, ShuError>)
        ensures
            match meta {
                None => r matches Ok(tree) && tree@ == new_database(tree@.order),
                Some(page) => match described(page@) {
                    Ok(pager) => r matches Ok(tree) && tree@ == pager,
                    Err(e) => r == Err::<Self, ShuError>(e),
                },
            },
            meta is None ==> (r matches Ok(tree) && says_shortly(tree@, Map::empty())),
            r matches Ok(tree) ==> in_one_order(tree@),
            meta matches Some(page) ==> (r matches Ok(tree) ==> tree@.order == page@.order),
    {
        let pager = Pager::open(meta)?;
        proof {
            new_database_is_empty(pager.order);
            opened_in_one_order(pager.order, pager@.pages[META_PAGE_ID]);
        }
        Ok(BTree { pager })
    }

    /// A descent for a key from the root to a leaf.
    pub fn search(&self, new_key: &[u8]) -> (r: Result<TreeSearchResult, ShuError>)
        ensures
            match self@.search(new_key@) {
                Ok(model) => r matches Ok(found) && found@ == model,
                Err(e) => r == Err::<TreeSearchResult, ShuError>(e),
            },
    {
        let mut path: Vec<PathFrame> = Vec::new();
        let mut page = self.pager.read_page(self.pager.root_page_id())?;
        let mut budget: u32 = self.pager.page_count;
        loop
            invariant
                self@.search(new_key@) == self@.descend(
                    new_key@,
                    page@,
                    path@,
                    budget as nat,
                ),
            decreases budget,
        {
            match page.page_type()? {
                PageType::Leaf => {
                    let leaf_result = page.leaf_search(new_key)?;
                    return Ok(TreeSearchResult { leaf_id: page.id(), leaf_result, path });
                },
                PageType::Internal => {
                    let child_index = page.child_index_for_key(new_key)?;
                    let page_id = page.child_at(child_index)?;
                    if budget == 0 {
                        return Err(ShuError::CorruptedPage { page_id: page.id() });
                    }
                    path.push(PathFrame { page_id: page.id(), child_index });
                    page = self.pager.read_page(page_id)?;
                    budget = budget - 1;
                },
                PageType::Meta => return Err(ShuError::InvalidPageType),
            }
        }
    }

    /// The value of a key, if it has one.
    pub fn get(&self, key: &[u8]) -> (r: Result<Option<Vec<u8>>, ShuError>)
        ensures
            match self@.get(key@) {
                Ok(Some(value)) => r matches Ok(Some(found)) && found@ == value,
                Ok(None) => r matches Ok(None),
                Err(e) => r == Err::<Option<Vec<u8>>, ShuError>(e),
            },
            forall|values: Map<Seq<u8>, Seq<u8>>| #[trigger]
                says(self@, values) ==> match r {
                    Ok(Some(found)) => values.contains_key(key@) && values[key@] == found@,
                    Ok(None) => !values.contains_key(key@),
                    Err(_) => false,
                },
    {
        proof {
            assert forall|values: Map<Seq<u8>, Seq<u8>>| #[trigger] says(
                self@,
                values,
            ) implies self@.get(key@) == Ok::<Option<Seq<u8>>, ShuError>(
                if values.contains_key(key@) {
                    Some(values[key@])
                } else {
                    None
                },
            ) by {
                get_finds_value(self@, values, key@);
            }
        }
        let search_result = self.search(key)?;
        match search_result.leaf_result {
            LeafSearchResult::Found(index) => {
                let leaf = self.pager.read_page(search_result.leaf_id)?;
                let entry = leaf.leaf_entry(index)?;
                Ok(Some(copy_bytes(entry.value)))
            },
            LeafSearchResult::Missing(_) => Ok(None),
        }
    }

    /// A page and those beside it, in order of their indices.
    pub fn load_window(&self, page_id: PageId, parent: &Page, child_index: u16) -> (r: Result<
        Vec<LoadedSibling>,
        ShuError,
    >)
        ensures
            match self@.load_window(page_id, parent@, child_index) {
                Ok(window) => r matches Ok(found) && views(found@) == window,
                Err(e) => r == Err::<Vec<LoadedSibling>, ShuError>(e),
            },
    {
        let beside = load_siblings(page_id, parent)?;
        let mut window: Vec<LoadedSibling> = Vec::new();
        let mut i: usize = 0;
        assert(views(window@) =~= Seq::<WindowPage>::empty());
        while i < beside.len()
            invariant
                i <= beside@.len(),
                siblings(page_id, parent@) == Ok::<Seq<Sibling>, ShuError>(beside@),
                self@.load_pages(beside@, i as nat) == Ok::<Seq<WindowPage>, ShuError>(
                    views(window@),
                ),
            decreases beside@.len() - i,
        {
            proof {
                load_pages_prefix(self@, beside@, (i + 1) as nat, beside@.len());
            }
            let page = self.pager.read_page(beside[i].page)?;
            insert_into_window(&mut window, LoadedSibling { page, index: beside[i].index });
            i = i + 1;
        }
        let page = self.pager.read_page(page_id)?;
        insert_into_window(&mut window, LoadedSibling { page, index: child_index });
        Ok(window)
    }
}

impl BTree {
    /// Adds a page, if one more can be counted.
    pub fn add_page(&mut self, page_type: PageType) -> (r: Result<PageId, ShuError>)
        ensures
            final(self)@ == old(self)@.add_page(page_type).0,
            r == old(self)@.add_page(page_type).1,
    {
        if self.pager.page_count == u32::MAX {
            return Err(ShuError::TooManyPages);
        }
        self.pager.allocate(page_type)
    }

    /// Replaces the records of a leaf page.
    pub fn rewrite_leaf(&mut self, page_id: PageId, entries: &[LeafEntry]) -> (r: Result<
        (),
        ShuError,
    >)
        ensures
            final(self)@ == old(self)@.rewrite_leaf(page_id, views(entries@)).0,
            r == old(self)@.rewrite_leaf(page_id, views(entries@)).1,
    {
        let mut page = self.pager.read_page(page_id)?;
        let result = page.rewrite_leaf_entries(entries);
        self.pager.store(page_id, page);
        result
    }

    /// Replaces the contents of an internal page.
    pub fn rewrite_internal(&mut self, page_id: PageId, entries: &InternalEntries) -> (r: Result<
        (),
        ShuError,
    >)
        ensures
            final(self)@ == old(self)@.rewrite_internal(page_id, entries@).0,
            r == old(self)@.rewrite_internal(page_id, entries@).1,
    {
        let mut page = self.pager.read_page(page_id)?;
        let result = page.rewrite_internal_entries(entries);
        self.pager.store(page_id, page);
        result
    }

    /// The page for the group at an index: one of those to be used again, or a new one.
    fn page_for_group(&mut self, reuse: &Vec<PageId>, index: usize, page_type: PageType) -> (r:
        Result<PageId, ShuError>)
        ensures
            final(self)@ == old(self)@.page_for_group(reuse@, index as int, page_type).0,
            r == old(self)@.page_for_group(reuse@, index as int, page_type).1,
    {
        if index < reuse.len() {
            Ok(reuse[index])
        } else {
            self.add_page(page_type)
        }
    }

    /// Writes groups of entries to a leaf page each.
    fn place_leaf_groups(&mut self, groups: &Vec<Vec<LeafEntry>>, reuse: &Vec<PageId>) -> (r:
        Result<Vec<PageId>, ShuError>)
        ensures
            ({
                let (after, result) = old(self)@.place_leaf_groups(
                    group_views(groups@),
                    reuse@,
                    groups@.len(),
                );
                &&& final(self)@ == after
                &&& match result {
                    Ok(ids) => r matches Ok(found) && found@ == ids && ids.len() == groups@.len(),
                    Err(e) => r == Err::<Vec<PageId>, ShuError>(e),
                }
            }),
    {
        let ghost before = self@;
        let ghost all = group_views(groups@);
        let mut ids: Vec<PageId> = Vec::new();
        let mut i: usize = 0;
        assert(ids@ =~= Seq::<PageId>::empty());
        while i < groups.len()
            invariant
                before == old(self)@,
                all == group_views(groups@),
                i <= groups@.len(),
                ids@.len() == i,
                before.place_leaf_groups(all, reuse@, i as nat) == (
                    self@,
                    Ok::<Seq<PageId>, ShuError>(ids@),
                ),
            decreases groups@.len() - i,
        {
            proof {
                place_leaf_groups_prefix(before, all, reuse@, (i + 1) as nat, groups@.len());
            }
            let id = self.page_for_group(reuse, i, PageType::Leaf)?;
            self.rewrite_leaf(id, &groups[i])?;
            ids.push(id);
            i = i + 1;
        }
        Ok(ids)
    }

    /// Writes groups of contents to an internal page each.
    fn place_internal_groups(&mut self, groups: &Vec<InternalEntryGroup>, reuse: &Vec<PageId>) -> (
    r: Result<Vec<PageId>, ShuError>)
        ensures
            ({
                let (after, result) = old(self)@.place_internal_groups(
                    views(groups@),
                    reuse@,
                    groups@.len(),
                );
                &&& final(self)@ == after
                &&& match result {
                    Ok(ids) => r matches Ok(found) && found@ == ids && ids.len() == groups@.len(),
                    Err(e) => r == Err::<Vec<PageId>, ShuError>(e),
                }
            }),
    {
        let ghost before = self@;
        let ghost all = views(groups@);
        let mut ids: Vec<PageId> = Vec::new();
        let mut i: usize = 0;
        assert(ids@ =~= Seq::<PageId>::empty());
        while i < groups.len()
            invariant
                before == old(self)@,
                all == views(groups@),
                i <= groups@.len(),
                ids@.len() == i,
                before.place_internal_groups(all, reuse@, i as nat) == (
                    self@,
                    Ok::<Seq<PageId>, ShuError>(ids@),
                ),
            decreases groups@.len() - i,
        {
            proof {
                place_internal_groups_prefix(before, all, reuse@, (i + 1) as nat, groups@.len());
            }
            let id = self.page_for_group(reuse, i, PageType::Internal)?;
            self.rewrite_internal(id, &groups[i].entries)?;
            ids.push(id);
            i = i + 1;
        }
        Ok(ids)
    }
}

/// An error among the first groups is the one among all.
proof fn place_leaf_groups_prefix(
    pager: PagerModel,
    groups: Seq<Seq<LeafCell>>,
    reuse: Seq<PageId>,
    n: nat,
    m: nat,
)
    requires
        n <= m,
    ensures
        pager.place_leaf_groups(groups, reuse, n).1 is Err ==> pager.place_leaf_groups(
            groups,
            reuse,
            m,
        ) == pager.place_leaf_groups(groups, reuse, n),
    decreases m,
{
    if n < m {
        place_leaf_groups_prefix(pager, groups, reuse, n, (m - 1) as nat);
    }
}

/// An error among the first groups is the one among all.
proof fn place_internal_groups_prefix(
    pager: PagerModel,
    groups: Seq<NodeGroup>,
    reuse: Seq<PageId>,
    n: nat,
    m: nat,
)
    requires
        n <= m,
    ensures
        pager.place_internal_groups(groups, reuse, n).1 is Err ==> pager.place_internal_groups(
            groups,
            reuse,
            m,
        ) == pager.place_internal_groups(groups, reuse, n),
    decreases m,
{
    if n < m {
        place_internal_groups_prefix(pager, groups, reuse, n, (m - 1) as nat);
    }
}

/// A window is one page longer after an insertion.
proof fn insert_by_index_len(window: Seq<WindowPage>, new: WindowPage)
    ensures
        insert_by_index(window, new).len() == window.len() + 1,
    decreases window.len(),
{
    if window.len() > 0 && new.index < window.last().index {
        insert_by_index_len(window.drop_last(), new);
    }
}

/// The pages of a window come in order of their indices.
pub open spec fn indices_ascend(window: Seq<WindowPage>) -> bool {
    forall|i: int, j: int|
        0 <= i <= j < window.len() ==> (#[trigger] window[i]).index <= (#[trigger] window[j]).index
}

/// An insertion keeps a window in order.
proof fn insert_by_index_ascends(window: Seq<WindowPage>, new: WindowPage)
    requires
        indices_ascend(window),
    ensures
        indices_ascend(insert_by_index(window, new)),
        insert_by_index(window, new).len() > 0,
        insert_by_index(window, new).last().index == if window.len() > 0 && new.index
            < window.last().index {
            window.last().index
        } else {
            new.index
        },
    decreases window.len(),
{
    insert_by_index_len(window, new);
    if window.len() > 0 && new.index < window.last().index {
        insert_by_index_ascends(window.drop_last(), new);
    }
}

/// A window that was loaded so far is in order.
proof fn load_pages_ascend(pager: PagerModel, beside: Seq<Sibling>, n: nat)
    requires
        pager.load_pages(beside, n) is Ok,
    ensures
        indices_ascend(pager.load_pages(beside, n)->Ok_0),
    decreases n,
{
    if n > 0 {
        load_pages_ascend(pager, beside, (n - 1) as nat);
        let page = pager.read_page(beside[n - 1].page)->Ok_0;
        insert_by_index_ascends(
            pager.load_pages(beside, (n - 1) as nat)->Ok_0,
            WindowPage { page, index: beside[n - 1].index },
        );
    }
}

/// A window that was loaded has a page and is in order.
proof fn window_in_order(pager: PagerModel, page_id: PageId, parent: PageModel, child_index: u16)
    requires
        pager.load_window(page_id, parent, child_index) is Ok,
    ensures
        pager.load_window(page_id, parent, child_index)->Ok_0.len() > 0,
        indices_ascend(pager.load_window(page_id, parent, child_index)->Ok_0),
{
    let beside = siblings(page_id, parent)->Ok_0;
    let page = pager.read_page(page_id)->Ok_0;
    load_pages_ascend(pager, beside, beside.len());
    insert_by_index_ascends(
        pager.load_pages(beside, beside.len())->Ok_0,
        WindowPage { page, index: child_index },
    );
}

/// An error among the first pages is the one among all.
proof fn gather_leaves_prefix(window: Seq<WindowPage>, n: nat, m: nat)
    requires
        n <= m,
    ensures
        gather_leaves(window, n) is Err ==> gather_leaves(window, m) == gather_leaves(window, n),
    decreases m,
{
    if n < m {
        gather_leaves_prefix(window, n, (m - 1) as nat);
    }
}

/// An error among the first pages is the one among all.
proof fn gather_nodes_prefix(
    parent: PageModel,
    slots: Seq<Slot>,
    window: Seq<WindowPage>,
    n: nat,
    m: nat,
)
    requires
        n <= m,
    ensures
        gather_nodes(parent, slots, window, n) is Err ==> gather_nodes(parent, slots, window, m)
            == gather_nodes(parent, slots, window, n),
    decreases m,
{
    if n < m {
        gather_nodes_prefix(parent, slots, window, n, (m - 1) as nat);
    }
}

/// The ids of the pages of a window.
fn ids_of_window(window: &Vec<LoadedSibling>) -> (r: Vec<PageId>)
    ensures
        r@ == window_ids(views(window@)),
{
    let mut ids: Vec<PageId> = Vec::new();
    let mut i: usize = 0;
    while i < window.len()
        invariant
            i <= window@.len(),
            ids@ == window_ids(views(window@)).take(i as int),
        decreases window@.len() - i,
    {
        ids.push(window[i].page.id());
        i = i + 1;
        assert(ids@ =~= window_ids(views(window@)).take(i as int));
    }
    assert(ids@ =~= window_ids(views(window@)));
    ids
}

/// All records of a window of leaf pages.
fn entries_of_leaves(window: &Vec<LoadedSibling>) -> (r: Result<Vec<LeafEntry>, ShuError>)
    ensures
        match gather_leaves(views(window@), window@.len()) {
            Ok(cells) => r matches Ok(found) && views(found@) == cells,
            Err(e) => r == Err::<Vec<LeafEntry>, ShuError>(e),
        },
{
    let mut entries: Vec<LeafEntry> = Vec::new();
    let mut i: usize = 0;
    assert(views(entries@) =~= Seq::<LeafCell>::empty());
    while i < window.len()
        invariant
            i <= window@.len(),
            gather_leaves(views(window@), i as nat) == Ok::<Seq<LeafCell>, ShuError>(
                views(entries@),
            ),
        decreases window@.len() - i,
    {
        proof {
            gather_leaves_prefix(views(window@), (i + 1) as nat, window@.len());
        }
        let ghost before = views(entries@);
        let mut more = window[i].page.leaf_entries()?;
        let ghost added = views(more@);
        entries.append(&mut more);
        assert(views(entries@) =~= before + added);
        i = i + 1;
    }
    Ok(entries)
}

/// All records of a window of internal pages, with the separators between the pages.
fn entries_of_internals(window: &Vec<LoadedSibling>, parent: &Page, slots: &Vec<ParentChild>) -> (r:
    Result<InternalEntries, ShuError>)
    requires
        window@.len() > 0,
        forall|i: int|
            0 <= i < window@.len() ==> (#[trigger] window@[i]).index < slots@.len(),
    ensures
        match gather_nodes(parent@, views(slots@), views(window@), window@.len()) {
            Ok(cells) => r matches Ok(found) && found@ == (InternalNode {
                cells,
                right_child: views(window@).last().page.internal_entries()->Ok_0.right_child,
            }),
            Err(e) => r == Err::<InternalEntries, ShuError>(e),
        },
{
    let mut entries: Vec<InternalEntry> = Vec::new();
    let mut right_child: PageId = PageId(0);
    let mut i: usize = 0;
    let ghost pages = views(window@);
    let ghost children = views(slots@);
    assert(views(entries@) =~= Seq::<InternalCell>::empty());
    while i < window.len()
        invariant
            i <= window@.len(),
            pages == views(window@),
            children == views(slots@),
            forall|i: int|
                0 <= i < window@.len() ==> (#[trigger] window@[i]).index < slots@.len(),
            gather_nodes(parent@, children, pages, i as nat) == Ok::<Seq<InternalCell>, ShuError>(
                views(entries@),
            ),
            i == window@.len() && i > 0 ==> right_child
                == pages.last().page.internal_entries()->Ok_0.right_child,
        decreases window@.len() - i,
    {
        proof {
            gather_nodes_prefix(parent@, children, pages, (i + 1) as nat, window@.len());
        }
        let ghost before = views(entries@);
        let internal = window[i].page.internal_entries()?;
        right_child = internal.right_child;
        let mut more = internal.entries;
        let ghost added = views(more@);
        entries.append(&mut more);
        assert(views(entries@) =~= before + added);
        if i + 1 < window.len() {
            match &slots[window[i].index as usize].separator {
                Some(separator) => {
                    entries.push(InternalEntry::new(right_child, copy_bytes(separator)));
                },
                None => return Err(ShuError::CorruptedPage { page_id: parent.id() }),
            }
        }
        i = i + 1;
    }
    Ok(InternalEntries::new(entries, right_child))
}

/// The pages that groups of records went to, as children of an internal page.
fn children_of_leaf_groups(
    ids: &Vec<PageId>,
    groups: &Vec<Vec<LeafEntry>>,
    last_is_right_child: bool,
) -> (r: Vec<ParentChild>)
    requires
        ids@.len() == groups@.len(),
        forall|i: int| 0 <= i < groups@.len() ==> (#[trigger] groups@[i])@.len() > 0,
    ensures
        views(r@) == leaf_slots(ids@, group_views(groups@), last_is_right_child),
{
    let mut children: Vec<ParentChild> = Vec::new();
    let mut i: usize = 0;
    let ghost goal = leaf_slots(ids@, group_views(groups@), last_is_right_child);
    while i < groups.len()
        invariant
            ids@.len() == groups@.len(),
            i <= groups@.len(),
            forall|i: int| 0 <= i < groups@.len() ==> (#[trigger] groups@[i])@.len() > 0,
            goal == leaf_slots(ids@, group_views(groups@), last_is_right_child),
            views(children@) == goal.take(i as int),
        decreases groups@.len() - i,
    {
        let separator = if i + 1 == groups.len() && last_is_right_child {
            None
        } else {
            let group = &groups[i];
            Some(copy_bytes(&group[group.len() - 1].key))
        };
        children.push(ParentChild { page_id: ids[i], separator });
        i = i + 1;
        assert(views(children@) =~= goal.take(i as int));
    }
    assert(views(children@) =~= goal);
    children
}

/// The pages that groups of contents went to, as children of an internal page.
fn children_of_internal_groups(
    ids: &Vec<PageId>,
    groups: &Vec<InternalEntryGroup>,
    last_separator: &Option<Vec<u8>>,
) -> (r: Vec<ParentChild>)
    requires
        ids@.len() == groups@.len(),
    ensures
        views(r@) == node_slots(ids@, views(groups@), separator_view(*last_separator)),
{
    let mut children: Vec<ParentChild> = Vec::new();
    let mut i: usize = 0;
    let ghost goal = node_slots(ids@, views(groups@), separator_view(*last_separator));
    while i < groups.len()
        invariant
            ids@.len() == groups@.len(),
            i <= groups@.len(),
            goal == node_slots(ids@, views(groups@), separator_view(*last_separator)),
            views(children@) == goal.take(i as int),
        decreases groups@.len() - i,
    {
        let separator = if i + 1 == groups.len() {
            copy_separator(last_separator)
        } else {
            copy_separator(&groups[i].promoted_separator)
        };
        children.push(ParentChild { page_id: ids[i], separator });
        i = i + 1;
        assert(views(children@) =~= goal.take(i as int));
    }
    assert(views(children@) =~= goal);
    children
}

/// No group of records is empty.
proof fn leaf_groups_not_empty(cells: Seq<LeafCell>)
    ensures
        forall|i: int| 0 <= i < leaf_groups(cells).len() ==> (#[trigger] leaf_groups(
            cells,
        )[i]).len() > 0,
{
    leaf_groups_cut(cells);
    assert forall|i: int| 0 <= i < leaf_groups(cells).len() implies (#[trigger] leaf_groups(
        cells,
    )[i]).len() > 0 by {
        assert(leaf_group_cut(cells, leaf_groups(cells), i));
    }
}

impl BTree {
    /// Replaces children of an internal page.
    fn replace_children(
        &mut self,
        parent_id: PageId,
        start: u16,
        end: u16,
        replacements: Vec<ParentChild>,
    ) -> (r: Result<(), ShuError>)
        ensures
            final(self)@ == old(self)@.replace_children(
                parent_id,
                start,
                end,
                views(replacements@),
            ).0,
            r == old(self)@.replace_children(parent_id, start, end, views(replacements@)).1,
    {
        let mut parent = self.pager.read_page(parent_id)?;
        let result = rewrite_parent_child_range(&mut parent, start, end, replacements);
        self.pager.store(parent_id, parent);
        result
    }

    /// Spreads the records of a leaf page and those beside it anew.
    pub fn redistribute_leaf_window(
        &mut self,
        parent_id: PageId,
        page_id: PageId,
        child_index: u16,
    ) -> (r: Result<(), ShuError>)
        ensures
            final(self)@ == old(self)@.redistribute_leaf_window(
                parent_id,
                page_id,
                child_index,
            ).0,
            r == old(self)@.redistribute_leaf_window(parent_id, page_id, child_index).1,
    {
        let parent = self.pager.read_page(parent_id)?;
        let window = self.load_window(page_id, &parent, child_index)?;
        proof {
            window_in_order(self@, page_id, parent@, child_index);
        }
        let start: u16 = window[0].index;
        let end: u16 = window[window.len() - 1].index;
        let reaches_right_child: bool = end as usize == parent.internal_entries()?.entries.len();
        let entries = entries_of_leaves(&window)?;
        proof {
            leaf_groups_not_empty(views(entries@));
        }
        let groups = distribute_leaf_entries(entries);
        proof {
            assert forall|i: int| 0 <= i < groups@.len() implies (#[trigger] groups@[i])@.len()
                > 0 by {
                assert(group_views(groups@)[i].len() > 0);
            }
        }
        let ids = self.place_leaf_groups(&groups, &ids_of_window(&window))?;
        let replacements = children_of_leaf_groups(&ids, &groups, reaches_right_child);
        self.replace_children(parent_id, start, end, replacements)
    }

    /// Spreads the contents of an internal page and those beside it anew.
    pub fn redistribute_internal_window(
        &mut self,
        parent_id: PageId,
        page_id: PageId,
        child_index: u16,
    ) -> (r: Result<(), ShuError>)
        ensures
            final(self)@ == old(self)@.redistribute_internal_window(
                parent_id,
                page_id,
                child_index,
            ).0,
            r == old(self)@.redistribute_internal_window(parent_id, page_id, child_index).1,
    {
        let parent = self.pager.read_page(parent_id)?;
        let window = self.load_window(page_id, &parent, child_index)?;
        proof {
            window_in_order(self@, page_id, parent@, child_index);
        }
        let start: u16 = window[0].index;
        let end: u16 = window[window.len() - 1].index;
        let slots = parent_children(parent.internal_entries()?);
        if end as usize >= slots.len() {
            return Err(ShuError::CorruptedPage { page_id: parent.id() });
        }
        proof {
            assert forall|i: int| 0 <= i < window@.len() implies (#[trigger] window@[i]).index
                < slots@.len() by {
                assert(views(window@)[i].index <= views(window@)[window@.len() - 1].index);
            }
        }
        let entries = entries_of_internals(&window, &parent, &slots)?;
        let groups = distribute_internal_entries(entries);
        let ids = self.place_internal_groups(&groups, &ids_of_window(&window))?;
        assert(views(slots@)[end as int].separator == separator_view(
            slots@[end as int].separator,
        ));
        let replacements = children_of_internal_groups(
            &ids,
            &groups,
            &slots[end as usize].separator,
        );
        self.replace_children(parent_id, start, end, replacements)
    }

    /// Moves the records of a root leaf to new leaf pages below it.
    fn split_root_leaf(&mut self, page_id: PageId, page: &Page) -> (r: Result<(), ShuError>)
        ensures
            final(self)@ == old(self)@.split_root_leaf(page_id, page@).0,
            r == old(self)@.split_root_leaf(page_id, page@).1,
    {
        let entries = page.leaf_entries()?;
        proof {
            leaf_groups_not_empty(views(entries@));
        }
        let groups = distribute_leaf_entries(entries);
        proof {
            assert forall|i: int| 0 <= i < groups@.len() implies (#[trigger] groups@[i])@.len()
                > 0 by {
                assert(group_views(groups@)[i].len() > 0);
            }
        }
        let none: Vec<PageId> = Vec::new();
        assert(none@ =~= Seq::<PageId>::empty());
        let ids = self.place_leaf_groups(&groups, &none)?;
        let mut root = self.pager.read_page(page_id)?;
        match entries_of_children(&children_of_leaf_groups(&ids, &groups, true)) {
            Some(entries) => {
                root.set_page_type(PageType::Internal);
                let result = root.rewrite_internal_entries(&entries);
                self.pager.store(page_id, root);
                result
            },
            None => Err(ShuError::CorruptedPage { page_id: page.id() }),
        }
    }

    /// Moves the contents of a root internal page to new internal pages below it.
    fn split_root_internal(&mut self, page_id: PageId, page: &Page) -> (r: Result<(), ShuError>)
        ensures
            final(self)@ == old(self)@.split_root_internal(page_id, page@).0,
            r == old(self)@.split_root_internal(page_id, page@).1,
    {
        let entries = page.internal_entries()?;
        let groups = distribute_internal_entries(entries);
        let none: Vec<PageId> = Vec::new();
        assert(none@ =~= Seq::<PageId>::empty());
        let ids = self.place_internal_groups(&groups, &none)?;
        let mut root = self.pager.read_page(page_id)?;
        match entries_of_children(&children_of_internal_groups(&ids, &groups, &None)) {
            Some(entries) => {
                let emptied = init_internal_page(&mut root);
                let result = match emptied {
                    Ok(_) => root.rewrite_internal_entries(&entries),
                    Err(e) => Err(e),
                };
                self.pager.store(page_id, root);
                result
            },
            None => Err(ShuError::CorruptedPage { page_id: page.id() }),
        }
    }

    /// Brings a page into balance, and then the pages on the path above it.
    pub fn balance(&mut self, page_id: PageId, path: Vec<PathFrame>) -> (r: Result<(), ShuError>)
        ensures
            final(self)@ == old(self)@.balance(page_id, path@).0,
            r == old(self)@.balance(page_id, path@).1,
        decreases path@.len(),
    {
        let page = self.pager.read_page(page_id)?;
        let page_type = page.page_type()?;
        if page_type == PageType::Meta {
            return Ok(());
        }
        let is_root: bool = page_id == PageId(INITIAL_ROOT_PAGE_ID);
        // The root is a special case because it can be fully empty.
        let is_underflow: bool = !is_root && page.is_underflow()?;
        let is_overflow: bool = page.is_overflow()?;
        if !is_overflow && !is_underflow {
            return Ok(());
        }
        if is_root {
            return match page_type {
                PageType::Leaf => self.split_root_leaf(page_id, &page),
                _ => self.split_root_internal(page_id, &page),
            };
        }
        let mut path = path;
        let ghost before = path@;
        match path.pop() {
            None => Err(ShuError::Rebalance),
            Some(frame) => {
                let result = match page_type {
                    PageType::Leaf => self.redistribute_leaf_window(
                        frame.page_id,
                        page_id,
                        frame.child_index,
                    ),
                    _ => self.redistribute_internal_window(
                        frame.page_id,
                        page_id,
                        frame.child_index,
                    ),
                };
                if result.is_err() {
                    return result;
                }
                assert(path@ =~= before.drop_last());
                self.balance(frame.page_id, path)
            },
        }
    }

    /// Gives a key a value.
    pub fn put(&mut self, key: &[u8], value: &[u8]) -> (r: Result<(), ShuError>)
        ensures
            final(self)@ == old(self)@.put(key@, value@).0,
            r == old(self)@.put(key@, value@).1,
            forall|values: Map<Seq<u8>, Seq<u8>>| #[trigger]
                says(old(self)@, values) ==> answers_put(
                    old(self)@,
                    final(self)@,
                    r,
                    values,
                    key@,
                    value@,
                ),
            forall|values: Map<Seq<u8>, Seq<u8>>| #[trigger]
                says_shortly(old(self)@, values) && key@.len() <= SHORT_KEY && r is Ok
                    ==> says_shortly(final(self)@, values.insert(key@, value@)),
            steady(old(self)@, final(self)@),
            marked(old(self)@, final(self)@),
            in_one_order(old(self)@) ==> in_one_order(final(self)@),
    {
        proof {
            put_is_steady(self@, key@, value@);
            put_marks_changes(self@, key@, value@);
            if in_one_order(self@) {
                put_stays_in_one_order(self@, key@, value@);
            }
            assert forall|values: Map<Seq<u8>, Seq<u8>>| #[trigger] says(
                self@,
                values,
            ) implies answers_put(
                self@,
                self@.put(key@, value@).0,
                self@.put(key@, value@).1,
                values,
                key@,
                value@,
            ) by {
                put_is_answered(self@, values, key@, value@);
            }
            assert forall|values: Map<Seq<u8>, Seq<u8>>| #[trigger]
                says_shortly(self@, values) && key@.len() <= SHORT_KEY && self@.put(key@, value@).1
                    is Ok implies says_shortly(
                self@.put(key@, value@).0,
                values.insert(key@, value@),
            ) by {
                says_shortly_says(self@, values);
                put_is_answered(self@, values, key@, value@);
                put_short_key(self@, values, key@, value@);
            }
        }
        let search_result = self.search(key)?;
        let mut leaf = self.pager.read_page(search_result.leaf_id)?;
        let result = leaf.insert_leaf_entry(key, value);
        self.pager.store(search_result.leaf_id, leaf);
        if result.is_err() {
            return result;
        }
        self.balance(search_result.leaf_id, search_result.path)
    }
}

/// An error among the first pages is the one among all.
proof fn load_pages_prefix(pager: PagerModel, beside: Seq<Sibling>, n: nat, m: nat)
    requires
        n <= m,
    ensures
        pager.load_pages(beside, n) is Err ==> pager.load_pages(beside, m) == pager.load_pages(
            beside,
            n,
        ),
    decreases m,
{
    if n < m {
        load_pages_prefix(pager, beside, n, (m - 1) as nat);
    }
}

/// The child of an internal page that holds a key, if any does.
pub fn find_child_for_key(page: &Page, key: &[u8]) -> (r: Result<PageId, ShuError>)
    ensures
        r == page@.child_for_key(key@),
{
    let child_index = page.child_index_for_key(key)?;
    page.child_at(child_index)
}

} // verus!
