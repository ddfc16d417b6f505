//! What becomes of a tree when the page at its top is split.
use crate::error::ShuError;
use crate::storage::header::INITIAL_ROOT_PAGE_ID;
use crate::storage::model::{InternalCell, LeafCell};
use crate::storage::page::{Overflow, PageId, PageModel, PageType, BODY_SIZE};
use crate::storage::pager::PagerModel;
use crate::storage::slotted::{internal_space, leaf_space, INTERNAL_CAPACITY, LEAF_CAPACITY};
use crate::storage::tree::{apart, flat, forms, meta_in_order, node_at, node_of_kids, ordered, owns};
use crate::storage::tree::{page_at, stored, Tree};
use crate::storage::tree_fewest::{internal_groups_are_full, leaf_group_full};
use crate::storage::tree_fewest::leaf_groups_are_full;
use crate::storage::tree_groups::{internal_groups_cut, node_group_cut};
use crate::storage::tree_leaves::{greatest_keys, leaf_kids, leaf_kids_in_order, leaves_placed};
use crate::storage::tree_model::{internal_groups, leaf_groups, leaf_slots, node_of, node_slots};
use crate::storage::tree_nodes::{cut_separators, node_kids, part_offsets, parts_apart};
use crate::storage::tree_nodes::{parts_in_order, parts_stored, separators_fit};
use crate::storage::tree_path::{owns_kid, stored_frame};
use crate::storage::tree_short::{leaf_space_concat, separator_space, space_of_separators};
use crate::storage::tree_splice::{all_apart, any_owns, new_slots};
use crate::storage::tree_step::owned_pages_present;
use crate::storage::tree_store::{ids_for_groups, place_leaves, place_nodes, reusable};
use crate::storage::tree_store::{rewrite_internal_keeps, unchanged_but};
use vstd::prelude::*;

verus! {

/// The list of children that an internal page holds, from the children.
proof fn slots_of_new_root(kids: Seq<Tree>, separators: Seq<Seq<u8>>)
    requires
        kids.len() == separators.len() + 1,
    ensures
        node_of(new_slots(kids, separators, None)) == Some(node_of_kids(kids, separators)),
{
    let slots = new_slots(kids, separators, None);
    assert(node_of(slots)->Some_0.cells =~= node_of_kids(kids, separators).cells);
}

/// The ids of new pages.
proof fn new_ids(s: PagerModel, m: nat)
    requires
        s.page_count + m <= u32::MAX,
    ensures
        ({
            let ids = ids_for_groups(s, Seq::empty(), m);
            &&& ids.no_duplicates()
            &&& forall|i: int| 0 <= i < ids.len() ==> (#[trigger] ids[i]).0 >= s.page_count
        }),
{
}

/// A page at the top over children on pages of their own.
proof fn new_root_forms(
    placed: PagerModel,
    after: PagerModel,
    kids: Seq<Tree>,
    separators: Seq<Seq<u8>>,
    height: nat,
    root: PageId,
)
    requires
        root == PageId(INITIAL_ROOT_PAGE_ID),
        meta_in_order(placed),
        placed.pages.contains_key(root.0),
        after == placed.store(root, after.pages[root.0]),
        kids.len() == separators.len() + 1,
        node_at(after, root, node_of_kids(kids, separators), true),
        ordered(Tree::Node { id: root, kids, separators }, height, None, None),
        all_apart(kids),
        forall|i: int| 0 <= i < kids.len() ==> !owns(#[trigger] kids[i], root),
        forall|i: int| 0 <= i < kids.len() ==> stored(placed, #[trigger] kids[i], root),
    ensures
        forms(after, Tree::Node { id: root, kids, separators }, height, root),
{
    let t = Tree::Node { id: root, kids, separators };
    assert forall|i: int| 0 <= i < kids.len() implies stored(after, #[trigger] kids[i], root) by {
        assert(stored(placed, kids[i], root));
        assert(!owns(kids[i], root));
        owned_pages_present(placed, kids[i], root);
        assert forall|y: PageId| #[trigger] owns(kids[i], y) implies after.pages.contains_key(y.0)
            && after.pages[y.0] == placed.pages[y.0] by {
            assert(page_at(placed, y));
        }
        stored_frame(placed, after, kids[i], root, root);
    }
    assert(meta_in_order(after));
    assert(apart(t));
}

/// The tree after an overfull leaf at the top was split.
pub open spec fn split_leaf(s: PagerModel, t: Tree) -> Tree {
    let groups = leaf_groups(flat(t));
    let ids = ids_for_groups(s, Seq::empty(), groups.len());
    Tree::Node {
        id: t.id(),
        kids: leaf_kids(ids, groups),
        separators: greatest_keys(groups, (groups.len() - 1) as nat),
    }
}

/// The tree after an overfull internal page at the top was split.
pub open spec fn split_node(s: PagerModel, t: Tree) -> Tree {
    let groups = internal_groups(node_of_kids(t.kids(), t.separators()));
    let ids = ids_for_groups(s, Seq::empty(), groups.len());
    Tree::Node {
        id: t.id(),
        kids: node_kids(ids, t.kids(), t.separators(), groups),
        separators: cut_separators(t.separators(), groups),
    }
}

/// Two neighbours below the page at the top do not fit one page.
pub open spec fn neighbours_too_large(t: Tree) -> bool {
    forall|i: int|
        0 <= i < t.kids().len() - 1 ==> ({
            let left = #[trigger] t.kids()[i];
            let right = t.kids()[i + 1];
            &&& left is Leaf && right is Leaf ==> leaf_space(flat(left)) + leaf_space(flat(right))
                > LEAF_CAPACITY
            &&& left is Node && right is Node ==> separator_space(left.separators()) + 8
                + t.separators()[i].len() + separator_space(right.separators())
                > INTERNAL_CAPACITY
        })
}

/// The page at the top is left with an overflow only if it is an internal page with more
/// separators than fit one, all its children are pages that were added, and they are as few as
/// can be: no two neighbours among them fit one page.
pub open spec fn over_only_if_split(s: PagerModel, after: PagerModel, t: Tree) -> bool {
    let node = node_of_kids(t.kids(), t.separators());
    after.pages[INITIAL_ROOT_PAGE_ID].overflow is Empty || {
        &&& t is Node
        &&& after.pages[INITIAL_ROOT_PAGE_ID].overflow == Overflow::Internal(node)
        &&& internal_space(node.cells) > INTERNAL_CAPACITY
        &&& forall|i: int| 0 <= i < t.kids().len() ==> (#[trigger] t.kids()[i]).id().0
            >= s.page_count
        &&& neighbours_too_large(t)
    }
}

/// The leaves that groups of records make are as few as can be.
proof fn split_leaves_are_full(cells: Seq<LeafCell>, ids: Seq<PageId>, t: Tree)
    requires
        t is Node,
        t.kids() == leaf_kids(ids, leaf_groups(cells)),
    ensures
        neighbours_too_large(t),
{
    let groups = leaf_groups(cells);
    leaf_groups_are_full(cells);
    assert forall|i: int| 0 <= i < t.kids().len() - 1 implies leaf_space(
        flat(#[trigger] t.kids()[i]),
    ) + leaf_space(flat(t.kids()[i + 1])) > LEAF_CAPACITY by {
        assert(leaf_group_full(groups, i));
        let left = groups[i];
        let right = groups[i + 1];
        let more = left.push(right[0]);
        assert(left + right =~= more + right.skip(1));
        leaf_space_concat(left, right);
        leaf_space_concat(more, right.skip(1));
        assert(flat(t.kids()[i]) == left);
        assert(flat(t.kids()[i + 1]) == right);
    }
}

/// The internal pages that groups of contents make are as few as can be.
proof fn split_nodes_are_full(t: Tree, ids: Seq<PageId>, new: Tree)
    requires
        t is Node,
        t.kids().len() == t.separators().len() + 1,
        new is Node,
        ({
            let node = node_of_kids(t.kids(), t.separators());
            let groups = internal_groups(node);
            &&& forall|i: int| 0 <= i < groups.len() ==> #[trigger] node_group_cut(node, groups, i)
            &&& new.kids() == node_kids(ids, t.kids(), t.separators(), groups)
            &&& new.separators() == cut_separators(t.separators(), groups)
        }),
    ensures
        neighbours_too_large(new),
{
    let node = node_of_kids(t.kids(), t.separators());
    let groups = internal_groups(node);
    internal_groups_are_full(node);
    assert forall|i: int| 0 <= i < new.kids().len() - 1 implies separator_space(
        (#[trigger] new.kids()[i]).separators(),
    ) + 8 + new.separators()[i].len() > INTERNAL_CAPACITY by {
        assert(node_group_cut(node, groups, i));
        let group = groups[i];
        let cells = group.node.cells.push(
            InternalCell { child: group.node.right_child, separator: group.promoted->Some_0 },
        );
        let left = new.kids()[i].separators();
        let all = left.push(new.separators()[i]);
        space_of_separators(cells, all);
        assert(all.drop_last() =~= left);
    }
}

/// An overfull leaf at the top becomes an internal page over leaves with its records, unless
/// no further page can be counted.
pub proof fn root_leaf_is_split(s: PagerModel, t: Tree)
    requires
        t is Leaf,
        forms(s, t, 0, PageId(INITIAL_ROOT_PAGE_ID)),
        s.pages[INITIAL_ROOT_PAGE_ID].overflow == Overflow::Leaf(flat(t)),
        flat(t).len() > 0,
    ensures
        ({
            let root = PageId(INITIAL_ROOT_PAGE_ID);
            let (after, result) = s.split_root_leaf(root, s.pages[root.0]);
            match result {
                Err(e) => e == ShuError::TooManyPages && after.page_count == u32::MAX,
                Ok(_) => {
                    let new = split_leaf(s, t);
                    &&& forms(after, new, 1, root)
                    &&& flat(new) == flat(t)
                    &&& internal_space(node_of_kids(new.kids(), new.separators()).cells)
                        <= INTERNAL_CAPACITY ==> after.pages[root.0].overflow is Empty
                    &&& over_only_if_split(s, after, new)
                },
            }
        }),
{
    let root = PageId(INITIAL_ROOT_PAGE_ID);
    let page = s.pages[root.0];
    let cells = flat(t);
    let groups = leaf_groups(cells);
    let m = groups.len();
    let none = Seq::<PageId>::empty();
    let ids = ids_for_groups(s, none, m);
    let kids = leaf_kids(ids, groups);
    let separators = greatest_keys(groups, (m - 1) as nat);
    let new = Tree::Node { id: root, kids, separators };
    leaf_kids_in_order(cells, ids, None, None);
    assert(reusable(s, none, PageType::Leaf));
    place_leaves(s, groups, none, m);
    let (placed, result) = s.place_leaf_groups(groups, none, m);
    if result is Ok {
        new_ids(s, m);
        assert(!ids.contains(root));
        assert(s.pages.contains_key(root.0));
        assert(placed.read_page(root) == Ok::<PageModel, ShuError>(page));
        assert(leaf_slots(ids, groups, true) =~= new_slots(kids, separators, None));
        slots_of_new_root(kids, separators);
        let node = node_of_kids(kids, separators);
        let typed = page.with_page_type(PageType::Internal);
        rewrite_internal_keeps(typed, node);
        let after = placed.store(root, typed.rewrite_internal_entries(node).0);
        leaves_placed(placed, ids, groups, root);
        assert(ordered(new, 1, None, None));
        assert forall|i: int| 0 <= i < kids.len() implies !owns(#[trigger] kids[i], root) by {
            assert(ids[i].0 >= s.page_count);
        }
        new_root_forms(placed, after, kids, separators, 1, root);
        split_leaves_are_full(cells, ids, new);
    }
}

/// The children of a page at the top, after groups of them went to new pages.
proof fn kids_still_stored(s: PagerModel, placed: PagerModel, t: Tree, ids: Seq<PageId>)
    requires
        t is Node,
        apart(t),
        stored(s, t, t.id()),
        unchanged_but(s, placed, ids),
        forall|i: int| 0 <= i < ids.len() ==> (#[trigger] ids[i]).0 >= s.page_count,
    ensures
        forall|i: int| 0 <= i < t.kids().len() ==> stored(placed, #[trigger] t.kids()[i], t.id()),
        forall|i: int| 0 <= i < ids.len() ==> !any_owns(t.kids(), #[trigger] ids[i]),
        forall|x: PageId| #[trigger] any_owns(t.kids(), x) ==> x != t.id(),
        all_apart(t.kids()),
{
    let kids = t.kids();
    owned_pages_present(s, t, t.id());
    assert forall|x: PageId| #[trigger] any_owns(kids, x) implies x != t.id() && page_at(s, x) by {
        let i = choose|i: int| 0 <= i < kids.len() && owns(#[trigger] kids[i], x);
        owns_kid(t, i, x);
        assert(!owns(kids[i], t.id()));
    }
    assert forall|i: int| 0 <= i < kids.len() implies stored(
        placed,
        #[trigger] kids[i],
        t.id(),
    ) by {
        assert(stored(s, kids[i], t.id()));
        assert forall|y: PageId| #[trigger] owns(kids[i], y) implies placed.pages.contains_key(y.0)
            && placed.pages[y.0] == s.pages[y.0] by {
            assert(any_owns(kids, y));
            assert(s.pages.contains_key(y.0));
            assert(!ids.contains(y));
        }
        stored_frame(s, placed, kids[i], t.id(), t.id());
    }
}

/// An overfull internal page at the top becomes an internal page over internal pages with its
/// children, unless no further page can be counted.
pub proof fn root_node_is_split(s: PagerModel, t: Tree, height: nat)
    requires
        t is Node,
        forms(s, t, height, PageId(INITIAL_ROOT_PAGE_ID)),
        s.pages[INITIAL_ROOT_PAGE_ID].overflow == Overflow::Internal(
            node_of_kids(t.kids(), t.separators()),
        ),
    ensures
        ({
            let root = PageId(INITIAL_ROOT_PAGE_ID);
            let (after, result) = s.split_root_internal(root, s.pages[root.0]);
            match result {
                Err(e) => e == ShuError::TooManyPages && after.page_count == u32::MAX,
                Ok(_) => {
                    let new = split_node(s, t);
                    &&& forms(after, new, height + 1, root)
                    &&& flat(new) == flat(t)
                    &&& internal_space(node_of_kids(new.kids(), new.separators()).cells)
                        <= INTERNAL_CAPACITY ==> after.pages[root.0].overflow is Empty
                    &&& over_only_if_split(s, after, new)
                },
            }
        }),
{
    let root = PageId(INITIAL_ROOT_PAGE_ID);
    let page = s.pages[root.0];
    let node = node_of_kids(t.kids(), t.separators());
    let groups = internal_groups(node);
    let m = groups.len();
    let none = Seq::<PageId>::empty();
    let ids = ids_for_groups(s, none, m);
    let kids = node_kids(ids, t.kids(), t.separators(), groups);
    let separators = cut_separators(t.separators(), groups);
    let new = Tree::Node { id: root, kids, separators };
    parts_in_order(t, height, None, None, ids);
    assert(reusable(s, none, PageType::Internal));
    place_nodes(s, groups, none, m);
    let (placed, result) = s.place_internal_groups(groups, none, m);
    if result is Ok {
        new_ids(s, m);
        assert(!ids.contains(root));
        assert(s.pages.contains_key(root.0));
        assert(placed.read_page(root) == Ok::<PageModel, ShuError>(page));
        assert(node_slots(ids, groups, None) =~= new_slots(kids, separators, None));
        slots_of_new_root(kids, separators);
        let written = node_of_kids(kids, separators);
        let empty = page.init_internal_page().0;
        assert(page.init_internal_page().1 is Ok);
        assert(empty.body.len() == BODY_SIZE);
        rewrite_internal_keeps(empty, written);
        let after = placed.store(root, empty.rewrite_internal_entries(written).0);
        kids_still_stored(s, placed, t, ids);
        separators_fit(t, height, None, None);
        part_offsets(node, groups);
        parts_apart(ids, t.kids(), t.separators(), groups);
        parts_stored(placed, ids, t.kids(), t.separators(), groups, root);
        assert(ordered(new, height + 1, None, None));
        assert forall|i: int| 0 <= i < kids.len() implies !owns(#[trigger] kids[i], root) by {
            assert(ids[i].0 >= s.page_count);
            assert(!any_owns(t.kids(), root));
        }
        new_root_forms(placed, after, kids, separators, height + 1, root);
        internal_groups_cut(node);
        split_nodes_are_full(t, ids, new);
    }
}

} // verus!
