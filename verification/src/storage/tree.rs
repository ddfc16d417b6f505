//! The tree that the pages of a database form, as a mathematical value.
use crate::error::ShuError;
use crate::storage::header::INITIAL_ROOT_PAGE_ID;
use crate::storage::model::{InternalCell, InternalNode, LeafCell};
use crate::storage::order::{lex_le, lex_lt};
use crate::storage::page::{Overflow, PageId, PageModel, PageType, BODY_SIZE};
use crate::storage::pager::{PagerModel, META_PAGE_ID};
use crate::storage::search_laws::{keys_strictly_ascend, records};
use crate::storage::slotted::{internal_space, leaf_cell_space, leaf_space, INTERNAL_CAPACITY};
use crate::storage::slotted::LEAF_CAPACITY;
use vstd::prelude::*;

verus! {

/// A page and the pages below it.
pub enum Tree {
    /// A leaf page with its records.
    Leaf { id: PageId, cells: Seq<LeafCell> },
    /// An internal page with its children and the separators between them.
    Node { id: PageId, kids: Seq<Tree>, separators: Seq<Seq<u8>> },
}

impl Tree {
    /// The page at the top.
    pub open spec fn id(self) -> PageId {
        match self {
            Tree::Leaf { id, .. } => id,
            Tree::Node { id, .. } => id,
        }
    }

    /// The children.
    pub open spec fn kids(self) -> Seq<Tree> {
        match self {
            Tree::Leaf { .. } => Seq::empty(),
            Tree::Node { kids, .. } => kids,
        }
    }

    /// The separators between the children.
    pub open spec fn separators(self) -> Seq<Seq<u8>> {
        match self {
            Tree::Leaf { .. } => Seq::empty(),
            Tree::Node { separators, .. } => separators,
        }
    }
}

/// All records of a tree, from left to right.
pub open spec fn flat(t: Tree) -> Seq<LeafCell>
    decreases t,
{
    match t {
        Tree::Leaf { cells, .. } => cells,
        Tree::Node { kids, .. } => flat_all(kids),
    }
}

/// All records of trees, from left to right.
pub open spec fn flat_all(kids: Seq<Tree>) -> Seq<LeafCell>
    decreases kids,
{
    if kids.len() == 0 {
        Seq::empty()
    } else {
        flat_all(kids.drop_last()) + flat(kids.last())
    }
}

/// A key is greater than the bound, if there is one.
pub open spec fn above(lo: Option<Seq<u8>>, key: Seq<u8>) -> bool {
    lo matches Some(bound) ==> lex_lt(bound, key)
}

/// A key is not greater than the bound, if there is one.
pub open spec fn within(key: Seq<u8>, hi: Option<Seq<u8>>) -> bool {
    hi matches Some(bound) ==> lex_le(key, bound)
}

/// A key is smaller than the bound, if there is one.
pub open spec fn below(key: Seq<u8>, hi: Option<Seq<u8>>) -> bool {
    hi matches Some(bound) ==> lex_lt(key, bound)
}

/// The bound that the keys of a child are greater than.
pub open spec fn lower(separators: Seq<Seq<u8>>, lo: Option<Seq<u8>>, index: int) -> Option<Seq<u8>> {
    if index == 0 {
        lo
    } else {
        Some(separators[index - 1])
    }
}

/// The bound that the keys of a child are not greater than.
pub open spec fn upper(separators: Seq<Seq<u8>>, hi: Option<Seq<u8>>, index: int) -> Option<Seq<u8>> {
    if index == separators.len() {
        hi
    } else {
        Some(separators[index])
    }
}

/// Separators ascend between two bounds, and each fits an internal page.
pub open spec fn separators_between(
    separators: Seq<Seq<u8>>,
    lo: Option<Seq<u8>>,
    hi: Option<Seq<u8>>,
) -> bool {
    &&& forall|i: int, j: int|
        0 <= i < j < separators.len() ==> lex_lt(#[trigger] separators[i], #[trigger] separators[j])
    &&& forall|i: int|
        0 <= i < separators.len() ==> above(lo, #[trigger] separators[i]) && below(
            separators[i],
            hi,
        ) && separators[i].len() + 8 <= INTERNAL_CAPACITY
}

/// Each record fits a leaf page.
pub open spec fn cells_fit(cells: Seq<LeafCell>) -> bool {
    forall|i: int| 0 <= i < cells.len() ==> leaf_cell_space(#[trigger] cells[i]) <= LEAF_CAPACITY
}

/// Records ascend between two bounds.
pub open spec fn cells_between(
    cells: Seq<LeafCell>,
    lo: Option<Seq<u8>>,
    hi: Option<Seq<u8>>,
) -> bool {
    &&& keys_strictly_ascend(cells)
    &&& forall|i: int|
        0 <= i < cells.len() ==> above(lo, (#[trigger] cells[i]).key) && within(cells[i].key, hi)
}

/// The tree has this height everywhere, its keys are between the bounds and on the right sides
/// of the separators, and each of its records fits a page.
pub open spec fn ordered(t: Tree, height: nat, lo: Option<Seq<u8>>, hi: Option<Seq<u8>>) -> bool
    decreases height,
{
    match t {
        Tree::Leaf { cells, .. } => height == 0 && cells_between(cells, lo, hi) && cells_fit(cells),
        Tree::Node { kids, separators, .. } => {
            &&& height > 0
            &&& kids.len() == separators.len() + 1
            &&& separators_between(separators, lo, hi)
            &&& forall|i: int|
                0 <= i < kids.len() ==> ordered(
                    #[trigger] kids[i],
                    (height - 1) as nat,
                    lower(separators, lo, i),
                    upper(separators, hi, i),
                )
        },
    }
}

/// A page is part of the tree.
pub open spec fn owns(t: Tree, x: PageId) -> bool
    decreases t,
{
    t.id() == x || (match t {
        Tree::Leaf { .. } => false,
        Tree::Node { kids, .. } => exists|i: int| 0 <= i < kids.len() && owns(#[trigger] kids[i], x),
    })
}

/// No page is in the tree twice.
pub open spec fn apart(t: Tree) -> bool
    decreases t,
{
    match t {
        Tree::Leaf { .. } => true,
        Tree::Node { id, kids, .. } => {
            &&& forall|i: int| 0 <= i < kids.len() ==> !(#[trigger] owns(kids[i], id))
            &&& forall|i: int, j: int, x: PageId|
                0 <= i < j < kids.len() ==> !(#[trigger] owns(kids[i], x) && #[trigger] owns(
                    kids[j],
                    x,
                ))
            &&& forall|i: int| 0 <= i < kids.len() ==> apart(#[trigger] kids[i])
        },
    }
}

/// The contents of an internal page with these children.
pub open spec fn node_of_kids(kids: Seq<Tree>, separators: Seq<Seq<u8>>) -> InternalNode {
    InternalNode {
        cells: Seq::new(
            separators.len(),
            |i: int| InternalCell { child: kids[i].id(), separator: separators[i] },
        ),
        right_child: kids.last().id(),
    }
}

/// The body of a leaf page holds these records.
pub open spec fn leaf_settled(page: PageModel, cells: Seq<LeafCell>) -> bool {
    &&& page.overflow is Empty
    &&& leaf_space(cells) <= LEAF_CAPACITY
    &&& page.leaf_entries() == Ok::<Seq<LeafCell>, ShuError>(cells)
    &&& page.read_leaf_header() matches Ok(header) && header.record_count == cells.len()
    &&& forall|i: int|
        0 <= i < cells.len() ==> #[trigger] page.leaf_entry(i as u16) == Ok::<LeafCell, ShuError>(
            cells[i],
        )
}

/// The body of an internal page holds these contents.
pub open spec fn node_settled(page: PageModel, node: InternalNode) -> bool {
    &&& page.overflow is Empty
    &&& internal_space(node.cells) <= INTERNAL_CAPACITY
    &&& page.internal_entries() == Ok::<InternalNode, ShuError>(node)
    &&& page.read_internal_header() matches Ok(header) && header.record_count == node.cells.len()
        && header.right_child == node.right_child
    &&& forall|i: int|
        0 <= i < node.cells.len() ==> #[trigger] page.internal_entry(i as u16) == Ok::<
            InternalCell,
            ShuError,
        >(node.cells[i])
}

/// The page is in memory under its own id, which is not that of the meta page.
pub open spec fn page_at(s: PagerModel, id: PageId) -> bool {
    &&& id.0 != META_PAGE_ID
    &&& id.0 < s.page_count
    &&& s.pages.contains_key(id.0)
    &&& s.pages[id.0].id() == id
    &&& s.pages[id.0].body.len() == BODY_SIZE
}

/// The page is a leaf page with these records, in its body or, if it may be loose, in its
/// overflow.
pub open spec fn leaf_at(s: PagerModel, id: PageId, cells: Seq<LeafCell>, loose: bool) -> bool {
    &&& page_at(s, id)
    &&& s.pages[id.0].page_type() == Ok::<PageType, ShuError>(PageType::Leaf)
    &&& leaf_settled(s.pages[id.0], cells) || (loose && cells.len() > 0 && s.pages[id.0].overflow
        == Overflow::Leaf(cells))
}

/// The page is an internal page with these contents, in its body or, if it may be loose, in
/// its overflow.
pub open spec fn node_at(s: PagerModel, id: PageId, node: InternalNode, loose: bool) -> bool {
    &&& page_at(s, id)
    &&& s.pages[id.0].page_type() == Ok::<PageType, ShuError>(PageType::Internal)
    &&& node_settled(s.pages[id.0], node) || (loose && node.cells.len() > 0
        && s.pages[id.0].overflow == Overflow::Internal(node))
}

/// The pages in memory are those of the tree. Only the page `loose` may have an overflow.
pub open spec fn stored(s: PagerModel, t: Tree, loose: PageId) -> bool
    decreases t,
{
    match t {
        Tree::Leaf { id, cells } => leaf_at(s, id, cells, id == loose),
        Tree::Node { id, kids, separators } => {
            &&& kids.len() == separators.len() + 1
            &&& node_at(s, id, node_of_kids(kids, separators), id == loose)
            &&& forall|i: int| 0 <= i < kids.len() ==> stored(s, #[trigger] kids[i], loose)
        },
    }
}

/// The meta page is in memory and holds the counts, and the root is where it belongs.
pub open spec fn meta_in_order(s: PagerModel) -> bool {
    &&& s.root_page_id == PageId(INITIAL_ROOT_PAGE_ID)
    &&& s.page_count >= 2
    &&& s.pages.contains_key(META_PAGE_ID)
    &&& s.pages[META_PAGE_ID].id() == PageId(META_PAGE_ID)
    &&& s.pages[META_PAGE_ID].body.len() == BODY_SIZE
    &&& s.pages[META_PAGE_ID].database_header() matches Ok(header) && header.page_count
        == s.page_count && header.root_page_id == s.root_page_id && header.freelist_head
        == s.freelist_head
}

/// The pages in memory form this tree. Only the page `loose` may have an overflow.
pub open spec fn forms(s: PagerModel, t: Tree, height: nat, loose: PageId) -> bool {
    &&& meta_in_order(s)
    &&& t.id() == PageId(INITIAL_ROOT_PAGE_ID)
    &&& ordered(t, height, None, None)
    &&& apart(t)
    &&& stored(s, t, loose)
}

/// The database is whole and says this of keys: its pages are in memory and form a tree,
/// every page with all its records in its body, and the keys of the tree have these values.
pub open spec fn says(s: PagerModel, values: Map<Seq<u8>, Seq<u8>>) -> bool {
    exists|t: Tree, height: nat| #[trigger]
        forms(s, t, height, PageId(META_PAGE_ID)) && records(flat(t)) == values
}

} // verus!
