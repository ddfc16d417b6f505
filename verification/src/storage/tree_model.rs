//! What the operations of the tree make of the pages in memory.
use crate::error::ShuError;
use crate::storage::header::INITIAL_ROOT_PAGE_ID;
use crate::storage::model::{InternalCell, InternalNode, LeafCell};
use crate::storage::page::{PageId, PageModel, PageType};
use crate::storage::pager::PagerModel;
use crate::storage::slotted::{internal_space, leaf_space, LeafSearchResult, INTERNAL_CAPACITY};
use crate::storage::slotted::LEAF_CAPACITY;
use vstd::prelude::*;

verus! {

/// An internal page that a descent came through, and which of its children it took.
#[derive(Clone, Copy, Debug, PartialEq, Eq, Structural)]
pub struct PathFrame {
    pub page_id: PageId,
    pub child_index: u16,
}

/// The outcome of a descent to a leaf.
#[verifier::ext_equal]
pub struct SearchModel {
    pub leaf_id: PageId,
    pub leaf_result: LeafSearchResult,
    pub path: Seq<PathFrame>,
}

/// A page beside another, and its index among its parent's children.
#[derive(Clone, Copy, Debug, PartialEq, Eq, Structural)]
pub struct Sibling {
    pub page: PageId,
    pub index: u16,
}

/// A page that was read, and its index among its parent's children.
#[verifier::ext_equal]
pub struct WindowPage {
    pub page: PageModel,
    pub index: u16,
}

/// A child of an internal page, with the greatest key that it may hold; the right child has
/// none.
#[verifier::ext_equal]
pub struct Slot {
    pub page_id: PageId,
    pub separator: Option<Seq<u8>>,
}

/// The contents for one internal page out of several, and the separator between it and the
/// next; the last has none.
#[verifier::ext_equal]
pub struct NodeGroup {
    pub node: InternalNode,
    pub promoted: Option<Seq<u8>>,
}

/// How many records go into a leaf page, after the first `n` went: as many as fit, and at
/// least one.
pub open spec fn leaf_fit(cells: Seq<LeafCell>, n: nat) -> nat
    decreases cells.len() - n,
{
    if n < cells.len() && (n == 0 || leaf_space(cells.take(n as int + 1)) <= LEAF_CAPACITY) {
        leaf_fit(cells, n + 1)
    } else {
        n
    }
}

/// A group takes no fewer records than it took, and no more than there are.
pub proof fn leaf_fit_in_range(cells: Seq<LeafCell>, n: nat)
    requires
        n <= cells.len(),
    ensures
        n <= leaf_fit(cells, n) <= cells.len(),
    decreases cells.len() - n,
{
    if n < cells.len() && (n == 0 || leaf_space(cells.take(n as int + 1)) <= LEAF_CAPACITY) {
        leaf_fit_in_range(cells, n + 1);
    }
}

/// The records in groups that go into leaf pages, each as full as it can be.
pub open spec fn leaf_groups(cells: Seq<LeafCell>) -> Seq<Seq<LeafCell>>
    decreases cells.len(),
{
    if cells.len() == 0 {
        Seq::empty()
    } else {
        let n = leaf_fit(cells, 1);
        proof {
            leaf_fit_in_range(cells, 1);
        }
        seq![cells.take(n as int)] + leaf_groups(cells.skip(n as int))
    }
}

/// How many records go into an internal page, after the first `n` went: as many as fit, and
/// at least one.
pub open spec fn internal_fit(cells: Seq<InternalCell>, n: nat) -> nat
    decreases cells.len() - n,
{
    if n < cells.len() && (n == 0 || internal_space(cells.take(n as int + 1)) <= INTERNAL_CAPACITY) {
        internal_fit(cells, n + 1)
    } else {
        n
    }
}

/// The contents in groups that go into internal pages, each as full as it can be. The record
/// behind a group gives the group its right child, and its separator to the parent.
pub open spec fn internal_groups(node: InternalNode) -> Seq<NodeGroup>
    decreases node.cells.len(),
{
    let n = internal_fit(node.cells, 0);
    if n >= node.cells.len() {
        seq![NodeGroup { node, promoted: None }]
    } else {
        let next = node.cells[n as int];
        seq![
            NodeGroup {
                node: InternalNode { cells: node.cells.take(n as int), right_child: next.child },
                promoted: Some(next.separator),
            },
        ] + internal_groups(InternalNode { cells: node.cells.skip(n as int + 1), ..node })
    }
}

/// The child at an index; the right child comes last.
pub open spec fn child_of(node: InternalNode, index: int) -> PageId {
    if index < node.cells.len() {
        node.cells[index].child
    } else {
        node.right_child
    }
}

/// The first index, from `from` on, of a page among the children.
pub open spec fn find_child(node: InternalNode, page_id: PageId, from: nat) -> Option<nat>
    decreases node.cells.len() + 1 - from,
{
    if from > node.cells.len() {
        None
    } else if child_of(node, from as int) == page_id {
        Some(from)
    } else {
        find_child(node, page_id, from + 1)
    }
}

/// The pages beside a child of an internal page.
pub open spec fn siblings(page_id: PageId, parent: PageModel) -> Result<Seq<Sibling>, ShuError> {
    match parent.internal_entries() {
        Err(e) => Err(e),
        Ok(node) => match find_child(node, page_id, 0) {
            None => Err(parent.corrupted()),
            Some(at) => {
                let left = Sibling {
                    page: child_of(node, at - 1),
                    index: (at - 1) as usize as u16,
                };
                let right = Sibling {
                    page: child_of(node, at as int + 1),
                    index: (at + 1) as usize as u16,
                };
                let before = if at > 0 {
                    seq![left]
                } else {
                    Seq::empty()
                };
                if at < node.cells.len() {
                    Ok(before.push(right))
                } else {
                    Ok(before)
                }
            },
        },
    }
}

/// A window with a page more, behind those whose index is not greater.
pub open spec fn insert_by_index(window: Seq<WindowPage>, new: WindowPage) -> Seq<WindowPage>
    decreases window.len(),
{
    if window.len() > 0 && new.index < window.last().index {
        insert_by_index(window.drop_last(), new).push(window.last())
    } else {
        window.push(new)
    }
}

/// The children of an internal page with their separators.
pub open spec fn slots_of(node: InternalNode) -> Seq<Slot> {
    Seq::new(
        node.cells.len() + 1,
        |i: int|
            Slot {
                page_id: child_of(node, i),
                separator: if i < node.cells.len() {
                    Some(node.cells[i].separator)
                } else {
                    None
                },
            },
    )
}

/// The contents of an internal page with these children, if there are any and all but the
/// last have a separator.
pub open spec fn node_of(slots: Seq<Slot>) -> Option<InternalNode> {
    if slots.len() > 0 && forall|i: int|
        0 <= i < slots.len() - 1 ==> (#[trigger] slots[i]).separator is Some {
        Some(
            InternalNode {
                cells: Seq::new(
                    (slots.len() - 1) as nat,
                    |i: int|
                        InternalCell {
                            child: slots[i].page_id,
                            separator: slots[i].separator->Some_0,
                        },
                ),
                right_child: slots.last().page_id,
            },
        )
    } else {
        None
    }
}

/// Children with those from `start` to `end` replaced by others.
pub open spec fn replace_slots(
    slots: Seq<Slot>,
    start: int,
    end: int,
    replacements: Seq<Slot>,
) -> Seq<Slot> {
    slots.take(start) + replacements + slots.skip(end + 1)
}

impl PageModel {
    /// An internal page after its children from `start` to `end` are replaced, and whether
    /// they were.
    pub open spec fn replace_children(self, start: u16, end: u16, replacements: Seq<Slot>) -> (
        PageModel,
        Result<(), ShuError>,
    ) {
        match self.internal_entries() {
            Err(e) => (self, Err(e)),
            Ok(node) => {
                let slots = slots_of(node);
                if start > end + 1 || end >= slots.len() {
                    (self, Err(self.corrupted()))
                } else {
                    match node_of(
                        replace_slots(slots, start as int, end as int, replacements),
                    ) {
                        None => (self, Err(self.corrupted())),
                        Some(after) => self.rewrite_internal_entries(after),
                    }
                }
            },
        }
    }
}

/// The records of the first `n` pages of a window, or the first error among them.
pub open spec fn gather_leaves(window: Seq<WindowPage>, n: nat) -> Result<Seq<LeafCell>, ShuError>
    decreases n,
{
    if n == 0 {
        Ok(Seq::empty())
    } else {
        match gather_leaves(window, (n - 1) as nat) {
            Err(e) => Err(e),
            Ok(cells) => match window[n - 1].page.leaf_entries() {
                Err(e) => Err(e),
                Ok(more) => Ok(cells + more),
            },
        }
    }
}

/// The records of the first `n` pages of a window, each page's right child turned into a
/// record with the separator that the parent has for the page, but for that of the last
/// page of the window.
pub open spec fn gather_nodes(
    parent: PageModel,
    slots: Seq<Slot>,
    window: Seq<WindowPage>,
    n: nat,
) -> Result<Seq<InternalCell>, ShuError>
    decreases n,
{
    if n == 0 {
        Ok(Seq::empty())
    } else {
        match gather_nodes(parent, slots, window, (n - 1) as nat) {
            Err(e) => Err(e),
            Ok(cells) => match window[n - 1].page.internal_entries() {
                Err(e) => Err(e),
                Ok(node) => if n < window.len() {
                    match slots[window[n - 1].index as int].separator {
                        None => Err(parent.corrupted()),
                        Some(separator) => Ok(
                            (cells + node.cells).push(
                                InternalCell { child: node.right_child, separator },
                            ),
                        ),
                    }
                } else {
                    Ok(cells + node.cells)
                },
            },
        }
    }
}

/// The ids of the pages of a window.
pub open spec fn window_ids(window: Seq<WindowPage>) -> Seq<PageId> {
    Seq::new(window.len(), |i: int| window[i].page.id())
}

/// The pages that groups of records went to, as children of an internal page. Each has the
/// greatest key of its group for a separator, but for the last if it is the right child.
pub open spec fn leaf_slots(
    ids: Seq<PageId>,
    groups: Seq<Seq<LeafCell>>,
    last_is_right_child: bool,
) -> Seq<Slot> {
    Seq::new(
        groups.len(),
        |i: int|
            Slot {
                page_id: ids[i],
                separator: if i + 1 == groups.len() && last_is_right_child {
                    None
                } else {
                    Some(groups[i].last().key)
                },
            },
    )
}

/// The pages that groups of contents went to, as children of an internal page.
pub open spec fn node_slots(
    ids: Seq<PageId>,
    groups: Seq<NodeGroup>,
    last_separator: Option<Seq<u8>>,
) -> Seq<Slot> {
    Seq::new(
        groups.len(),
        |i: int|
            Slot {
                page_id: ids[i],
                separator: if i + 1 == groups.len() {
                    last_separator
                } else {
                    groups[i].promoted
                },
            },
    )
}

impl PagerModel {
    /// The outcome of a descent for a key from a page, through at most `budget` further
    /// pages. A tree has no path through more pages than there are.
    pub open spec fn descend(
        self,
        key: Seq<u8>,
        page: PageModel,
        path: Seq<PathFrame>,
        budget: nat,
    ) -> Result<SearchModel, ShuError>
        decreases budget,
    {
        match page.page_type() {
            Err(e) => Err(e),
            Ok(PageType::Leaf) => match page.leaf_search(key) {
                Err(e) => Err(e),
                Ok(leaf_result) => Ok(SearchModel { leaf_id: page.id(), leaf_result, path }),
            },
            Ok(PageType::Internal) => match page.child_index_for_key(key) {
                Err(e) => Err(e),
                Ok(child_index) => match page.child_at(child_index) {
                    Err(e) => Err(e),
                    Ok(child) => if budget == 0 {
                        Err(page.corrupted())
                    } else {
                        match self.read_page(child) {
                            Err(e) => Err(e),
                            Ok(next) => self.descend(
                                key,
                                next,
                                path.push(PathFrame { page_id: page.id(), child_index }),
                                (budget - 1) as nat,
                            ),
                        }
                    },
                },
            },
            Ok(PageType::Meta) => Err(ShuError::InvalidPageType),
        }
    }

    /// The outcome of a descent for a key from the root.
    pub open spec fn search(self, key: Seq<u8>) -> Result<SearchModel, ShuError> {
        match self.read_page(self.root_page_id) {
            Err(e) => Err(e),
            Ok(root) => self.descend(key, root, Seq::empty(), self.page_count as nat),
        }
    }

    /// The value that a search for a key finds.
    pub open spec fn get(self, key: Seq<u8>) -> Result<Option<Seq<u8>>, ShuError> {
        match self.search(key) {
            Err(e) => Err(e),
            Ok(found) => match found.leaf_result {
                LeafSearchResult::Missing(_) => Ok(None),
                LeafSearchResult::Found(index) => match self.read_page(found.leaf_id) {
                    Err(e) => Err(e),
                    Ok(leaf) => match leaf.leaf_entry(index) {
                        Err(e) => Err(e),
                        Ok(cell) => Ok(Some(cell.value)),
                    },
                },
            },
        }
    }

    /// The pages of siblings, in order of their indices, or the first that cannot be read.
    pub open spec fn load_pages(self, beside: Seq<Sibling>, n: nat) -> Result<
        Seq<WindowPage>,
        ShuError,
    >
        decreases n,
    {
        if n == 0 {
            Ok(Seq::empty())
        } else {
            match self.load_pages(beside, (n - 1) as nat) {
                Err(e) => Err(e),
                Ok(window) => match self.read_page(beside[n - 1].page) {
                    Err(e) => Err(e),
                    Ok(page) => Ok(
                        insert_by_index(window, WindowPage { page, index: beside[n - 1].index }),
                    ),
                },
            }
        }
    }

    /// A page and those beside it, in order of their indices.
    pub open spec fn load_window(
        self,
        page_id: PageId,
        parent: PageModel,
        child_index: u16,
    ) -> Result<Seq<WindowPage>, ShuError> {
        match siblings(page_id, parent) {
            Err(e) => Err(e),
            Ok(beside) => match self.load_pages(beside, beside.len()) {
                Err(e) => Err(e),
                Ok(window) => match self.read_page(page_id) {
                    Err(e) => Err(e),
                    Ok(page) => Ok(
                        insert_by_index(window, WindowPage { page, index: child_index }),
                    ),
                },
            },
        }
    }

    /// The pager after a page is added, and its id; an error if no page can be counted any
    /// more.
    pub open spec fn add_page(self, page_type: PageType) -> (PagerModel, Result<PageId, ShuError>) {
        if self.page_count == u32::MAX {
            (self, Err(ShuError::TooManyPages))
        } else {
            self.allocate(page_type)
        }
    }

    /// The pager after the records of a leaf page are replaced, and whether they were.
    pub open spec fn rewrite_leaf(self, page_id: PageId, cells: Seq<LeafCell>) -> (
        PagerModel,
        Result<(), ShuError>,
    ) {
        match self.read_page(page_id) {
            Err(e) => (self, Err(e)),
            Ok(page) => {
                let (after, result) = page.rewrite_leaf_entries(cells);
                (self.store(page_id, after), result)
            },
        }
    }

    /// The pager after the contents of an internal page are replaced, and whether they were.
    pub open spec fn rewrite_internal(self, page_id: PageId, node: InternalNode) -> (
        PagerModel,
        Result<(), ShuError>,
    ) {
        match self.read_page(page_id) {
            Err(e) => (self, Err(e)),
            Ok(page) => {
                let (after, result) = page.rewrite_internal_entries(node);
                (self.store(page_id, after), result)
            },
        }
    }

    /// The page for the group at an index: one of those to be used again, or a new one.
    pub open spec fn page_for_group(self, reuse: Seq<PageId>, index: int, page_type: PageType) -> (
        PagerModel,
        Result<PageId, ShuError>,
    ) {
        if index < reuse.len() {
            (self, Ok(reuse[index]))
        } else {
            self.add_page(page_type)
        }
    }

    /// The pager after the first `n` groups of records each went to a page, and the ids of
    /// the pages.
    pub open spec fn place_leaf_groups(
        self,
        groups: Seq<Seq<LeafCell>>,
        reuse: Seq<PageId>,
        n: nat,
    ) -> (PagerModel, Result<Seq<PageId>, ShuError>)
        decreases n,
    {
        if n == 0 {
            (self, Ok(Seq::empty()))
        } else {
            let (placed, result) = self.place_leaf_groups(groups, reuse, (n - 1) as nat);
            match result {
                Err(e) => (placed, Err(e)),
                Ok(ids) => {
                    let (ready, result) = placed.page_for_group(reuse, n - 1, PageType::Leaf);
                    match result {
                        Err(e) => (ready, Err(e)),
                        Ok(id) => {
                            let (written, result) = ready.rewrite_leaf(id, groups[n - 1]);
                            match result {
                                Err(e) => (written, Err(e)),
                                Ok(_) => (written, Ok(ids.push(id))),
                            }
                        },
                    }
                },
            }
        }
    }

    /// The pager after the first `n` groups of contents each went to a page, and the ids of
    /// the pages.
    pub open spec fn place_internal_groups(
        self,
        groups: Seq<NodeGroup>,
        reuse: Seq<PageId>,
        n: nat,
    ) -> (PagerModel, Result<Seq<PageId>, ShuError>)
        decreases n,
    {
        if n == 0 {
            (self, Ok(Seq::empty()))
        } else {
            let (placed, result) = self.place_internal_groups(groups, reuse, (n - 1) as nat);
            match result {
                Err(e) => (placed, Err(e)),
                Ok(ids) => {
                    let (ready, result) = placed.page_for_group(reuse, n - 1, PageType::Internal);
                    match result {
                        Err(e) => (ready, Err(e)),
                        Ok(id) => {
                            let (written, result) = ready.rewrite_internal(id, groups[n - 1].node);
                            match result {
                                Err(e) => (written, Err(e)),
                                Ok(_) => (written, Ok(ids.push(id))),
                            }
                        },
                    }
                },
            }
        }
    }

    /// The pager after children of an internal page are replaced, and whether they were.
    pub open spec fn replace_children(
        self,
        parent_id: PageId,
        start: u16,
        end: u16,
        replacements: Seq<Slot>,
    ) -> (PagerModel, Result<(), ShuError>) {
        match self.read_page(parent_id) {
            Err(e) => (self, Err(e)),
            Ok(parent) => {
                let (after, result) = parent.replace_children(start, end, replacements);
                (self.store(parent_id, after), result)
            },
        }
    }

    /// The pager after the records of a leaf page and those beside it were spread anew, and
    /// whether they were.
    pub open spec fn redistribute_leaf_window(
        self,
        parent_id: PageId,
        page_id: PageId,
        child_index: u16,
    ) -> (PagerModel, Result<(), ShuError>) {
        match self.read_page(parent_id) {
            Err(e) => (self, Err(e)),
            Ok(parent) => match self.load_window(page_id, parent, child_index) {
                Err(e) => (self, Err(e)),
                Ok(window) => match gather_leaves(window, window.len()) {
                    Err(e) => (self, Err(e)),
                    Ok(cells) => {
                        let groups = leaf_groups(cells);
                        let (placed, result) = self.place_leaf_groups(
                            groups,
                            window_ids(window),
                            groups.len(),
                        );
                        match result {
                            Err(e) => (placed, Err(e)),
                            Ok(ids) => placed.replace_children(
                                parent_id,
                                window[0].index,
                                window.last().index,
                                leaf_slots(
                                    ids,
                                    groups,
                                    window.last().index
                                        == parent.internal_entries()->Ok_0.cells.len(),
                                ),
                            ),
                        }
                    },
                },
            },
        }
    }

    /// The pager after the contents of an internal page and those beside it were spread
    /// anew, and whether they were.
    pub open spec fn redistribute_internal_window(
        self,
        parent_id: PageId,
        page_id: PageId,
        child_index: u16,
    ) -> (PagerModel, Result<(), ShuError>) {
        match self.read_page(parent_id) {
            Err(e) => (self, Err(e)),
            Ok(parent) => match self.load_window(page_id, parent, child_index) {
                Err(e) => (self, Err(e)),
                Ok(window) => {
                    let slots = slots_of(parent.internal_entries()->Ok_0);
                    if window.last().index >= slots.len() {
                        (self, Err(parent.corrupted()))
                    } else {
                        match gather_nodes(parent, slots, window, window.len()) {
                            Err(e) => (self, Err(e)),
                            Ok(cells) => {
                                let groups = internal_groups(
                                    InternalNode {
                                        cells,
                                        right_child:
                                            window.last().page.internal_entries()->Ok_0.right_child,
                                    },
                                );
                                let (placed, result) = self.place_internal_groups(
                                    groups,
                                    window_ids(window),
                                    groups.len(),
                                );
                                match result {
                                    Err(e) => (placed, Err(e)),
                                    Ok(ids) => placed.replace_children(
                                        parent_id,
                                        window[0].index,
                                        window.last().index,
                                        node_slots(
                                            ids,
                                            groups,
                                            slots[window.last().index as int].separator,
                                        ),
                                    ),
                                }
                            },
                        }
                    }
                },
            },
        }
    }

    /// The pager after the records of a root leaf went to new leaf pages below it, and
    /// whether they did.
    pub open spec fn split_root_leaf(self, page_id: PageId, page: PageModel) -> (
        PagerModel,
        Result<(), ShuError>,
    ) {
        match page.leaf_entries() {
            Err(e) => (self, Err(e)),
            Ok(cells) => {
                let groups = leaf_groups(cells);
                let (placed, result) = self.place_leaf_groups(groups, Seq::empty(), groups.len());
                match result {
                    Err(e) => (placed, Err(e)),
                    Ok(ids) => match placed.read_page(page_id) {
                        Err(e) => (placed, Err(e)),
                        Ok(root) => match node_of(leaf_slots(ids, groups, true)) {
                            None => (placed, Err(page.corrupted())),
                            Some(node) => {
                                let (after, result) = root.with_page_type(
                                    PageType::Internal,
                                ).rewrite_internal_entries(node);
                                (placed.store(page_id, after), result)
                            },
                        },
                    },
                }
            },
        }
    }

    /// The pager after the contents of a root internal page went to new internal pages below
    /// it, and whether they did.
    pub open spec fn split_root_internal(self, page_id: PageId, page: PageModel) -> (
        PagerModel,
        Result<(), ShuError>,
    ) {
        match page.internal_entries() {
            Err(e) => (self, Err(e)),
            Ok(node) => {
                let groups = internal_groups(node);
                let (placed, result) = self.place_internal_groups(
                    groups,
                    Seq::empty(),
                    groups.len(),
                );
                match result {
                    Err(e) => (placed, Err(e)),
                    Ok(ids) => match placed.read_page(page_id) {
                        Err(e) => (placed, Err(e)),
                        Ok(root) => match node_of(node_slots(ids, groups, None)) {
                            None => (placed, Err(page.corrupted())),
                            Some(node) => {
                                let (empty, result) = root.init_internal_page();
                                if result is Err {
                                    (placed.store(page_id, empty), result)
                                } else {
                                    let (after, result) = empty.rewrite_internal_entries(node);
                                    (placed.store(page_id, after), result)
                                }
                            },
                        },
                    },
                }
            },
        }
    }

    /// The pager after a page is brought into balance, and whether it was: an overfull root
    /// is split, another page shares with those beside it what it has too much or too little
    /// of, and then its parent is brought into balance.
    pub open spec fn balance(self, page_id: PageId, path: Seq<PathFrame>) -> (
        PagerModel,
        Result<(), ShuError>,
    )
        decreases path.len(),
    {
        match self.read_page(page_id) {
            Err(e) => (self, Err(e)),
            Ok(page) => match page.page_type() {
                Err(e) => (self, Err(e)),
                Ok(PageType::Meta) => (self, Ok(())),
                Ok(page_type) => {
                    let is_root = page_id == PageId(INITIAL_ROOT_PAGE_ID);
                    let underflow = if is_root {
                        Ok(false)
                    } else {
                        page.is_underflow()
                    };
                    match underflow {
                        Err(e) => (self, Err(e)),
                        Ok(is_underflow) => match page.is_overflow() {
                            Err(e) => (self, Err(e)),
                            Ok(is_overflow) => if !is_overflow && !is_underflow {
                                (self, Ok(()))
                            } else if is_root {
                                if page_type == PageType::Leaf {
                                    self.split_root_leaf(page_id, page)
                                } else {
                                    self.split_root_internal(page_id, page)
                                }
                            } else if path.len() == 0 {
                                (self, Err(ShuError::Rebalance))
                            } else {
                                let frame = path.last();
                                let (after, result) = if page_type == PageType::Leaf {
                                    self.redistribute_leaf_window(
                                        frame.page_id,
                                        page_id,
                                        frame.child_index,
                                    )
                                } else {
                                    self.redistribute_internal_window(
                                        frame.page_id,
                                        page_id,
                                        frame.child_index,
                                    )
                                };
                                if result is Err {
                                    (after, result)
                                } else {
                                    after.balance(frame.page_id, path.drop_last())
                                }
                            },
                        },
                    }
                },
            },
        }
    }

    /// The pager after a key is given a value, and whether it was.
    pub open spec fn put(self, key: Seq<u8>, value: Seq<u8>) -> (PagerModel, Result<(), ShuError>) {
        match self.search(key) {
            Err(e) => (self, Err(e)),
            Ok(found) => match self.read_page(found.leaf_id) {
                Err(e) => (self, Err(e)),
                Ok(leaf) => {
                    let (after, result) = leaf.insert_leaf_entry(key, value);
                    let stored = self.store(found.leaf_id, after);
                    if result is Err {
                        (stored, result)
                    } else {
                        stored.balance(found.leaf_id, found.path)
                    }
                },
            },
        }
    }
}

} // verus!
