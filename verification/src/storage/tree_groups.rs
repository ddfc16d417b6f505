//! How records and children are spread over groups that fit a page each.
use crate::storage::model::{InternalCell, InternalNode, LeafCell};
use crate::storage::slotted::{internal_cell_space, internal_space, leaf_cell_space, leaf_space};
use crate::storage::slotted::{INTERNAL_CAPACITY, LEAF_CAPACITY};
use crate::storage::tree_model::{child_of, internal_fit, internal_groups, leaf_fit, leaf_groups};
use crate::storage::tree_model::NodeGroup;
use vstd::prelude::*;

verus! {

/// How many records are in the groups before one.
#[verifier::opaque]
pub open spec fn leaf_offset(groups: Seq<Seq<LeafCell>>, index: int) -> int
    decreases index,
{
    if index <= 0 {
        0
    } else {
        leaf_offset(groups, index - 1) + groups[index - 1].len()
    }
}

/// How many children are in the groups before one.
#[verifier::opaque]
pub open spec fn node_offset(groups: Seq<NodeGroup>, index: int) -> int
    decreases index,
{
    if index <= 0 {
        0
    } else {
        node_offset(groups, index - 1) + groups[index - 1].node.cells.len() + 1
    }
}

/// Nothing is before the first group.
pub proof fn first_offset(leaves: Seq<Seq<LeafCell>>, nodes: Seq<NodeGroup>)
    ensures
        leaf_offset(leaves, 0) == 0,
        node_offset(nodes, 0) == 0,
{
    reveal(leaf_offset);
    reveal(node_offset);
}

/// One more group in front moves the others.
proof fn leaf_offset_behind(first: Seq<LeafCell>, rest: Seq<Seq<LeafCell>>, index: int)
    requires
        0 <= index <= rest.len(),
    ensures
        leaf_offset(seq![first] + rest, index + 1) == first.len() + leaf_offset(rest, index),
    decreases index,
{
    reveal(leaf_offset);
    let all = seq![first] + rest;
    if index == 0 {
        assert(leaf_offset(all, 0) == 0);
        assert(all[0] == first);
    } else {
        leaf_offset_behind(first, rest, index - 1);
        assert(all[index] == rest[index - 1]);
    }
}

/// One more group in front moves the others.
proof fn node_offset_behind(first: NodeGroup, rest: Seq<NodeGroup>, index: int)
    requires
        0 <= index <= rest.len(),
    ensures
        node_offset(seq![first] + rest, index + 1) == first.node.cells.len() + 1 + node_offset(
            rest,
            index,
        ),
    decreases index,
{
    reveal(node_offset);
    let all = seq![first] + rest;
    if index == 0 {
        assert(node_offset(all, 0) == 0);
        assert(all[0] == first);
    } else {
        node_offset_behind(first, rest, index - 1);
        assert(all[index] == rest[index - 1]);
    }
}

/// A group takes one record, and further ones while they fit.
proof fn leaf_fit_fits(cells: Seq<LeafCell>, n: nat)
    requires
        1 <= n <= cells.len(),
        n == 1 || leaf_space(cells.take(n as int)) <= LEAF_CAPACITY,
    ensures
        n <= leaf_fit(cells, n) <= cells.len(),
        leaf_fit(cells, n) == 1 || leaf_space(cells.take(leaf_fit(cells, n) as int))
            <= LEAF_CAPACITY,
    decreases cells.len() - n,
{
    if n < cells.len() && leaf_space(cells.take(n as int + 1)) <= LEAF_CAPACITY {
        leaf_fit_fits(cells, n + 1);
    }
}

/// A group takes records while they fit.
proof fn internal_fit_fits(cells: Seq<InternalCell>, n: nat)
    requires
        n <= cells.len(),
        internal_space(cells.take(n as int)) <= INTERNAL_CAPACITY,
        forall|i: int|
            0 <= i < cells.len() ==> internal_cell_space(#[trigger] cells[i]) <= INTERNAL_CAPACITY,
    ensures
        n <= internal_fit(cells, n) <= cells.len(),
        internal_space(cells.take(internal_fit(cells, n) as int)) <= INTERNAL_CAPACITY,
    decreases cells.len() - n,
{
    if n < cells.len() {
        let more = cells.take(n as int + 1);
        if n == 0 {
            assert(more.drop_last() =~= Seq::<InternalCell>::empty());
            assert(internal_space(Seq::<InternalCell>::empty()) == 0);
            assert(internal_space(more) == internal_cell_space(cells[0]));
        }
        if n == 0 || internal_space(more) <= INTERNAL_CAPACITY {
            internal_fit_fits(cells, n + 1);
        }
    }
}

/// The group at an index is the part of the records that its place asks for.
pub open spec fn leaf_group_cut(
    cells: Seq<LeafCell>,
    groups: Seq<Seq<LeafCell>>,
    index: int,
) -> bool {
    let start = leaf_offset(groups, index);
    let end = leaf_offset(groups, index + 1);
    &&& 0 <= start < end <= cells.len()
    &&& groups[index] == cells.subrange(start, end)
    &&& groups[index].len() == 1 || leaf_space(groups[index]) <= LEAF_CAPACITY
}

/// The space of one record.
pub proof fn leaf_space_of_one(cell: LeafCell)
    ensures
        leaf_space(seq![cell]) == leaf_cell_space(cell),
{
    assert(seq![cell].drop_last() =~= Seq::<LeafCell>::empty());
    assert(leaf_space(Seq::<LeafCell>::empty()) == 0);
}

/// A group fits a leaf page if each record does.
pub proof fn leaf_group_fits(cells: Seq<LeafCell>, groups: Seq<Seq<LeafCell>>, index: int)
    requires
        0 <= index < groups.len(),
        leaf_group_cut(cells, groups, index),
        forall|i: int|
            0 <= i < cells.len() ==> leaf_cell_space(#[trigger] cells[i]) <= LEAF_CAPACITY,
    ensures
        leaf_space(groups[index]) <= LEAF_CAPACITY,
{
    if groups[index].len() == 1 {
        let cell = cells[leaf_offset(groups, index)];
        assert(groups[index] =~= seq![cell]);
        leaf_space_of_one(cell);
    }
}

/// The groups are the records cut into parts. None is empty. Each is one record, or fits a
/// leaf page.
pub proof fn leaf_groups_cut(cells: Seq<LeafCell>)
    ensures
        ({
            let groups = leaf_groups(cells);
            &&& leaf_offset(groups, groups.len() as int) == cells.len()
            &&& cells.len() > 0 ==> groups.len() > 0
            &&& forall|i: int| 0 <= i < groups.len() ==> #[trigger] leaf_group_cut(cells, groups, i)
        }),
    decreases cells.len(),
{
    reveal(leaf_offset);
    let groups = leaf_groups(cells);
    if cells.len() > 0 {
        leaf_fit_fits(cells, 1);
        let n = leaf_fit(cells, 1) as int;
        let first = cells.take(n);
        let behind = cells.skip(n);
        let rest = leaf_groups(behind);
        assert(groups == seq![first] + rest);
        leaf_groups_cut(behind);
        leaf_offset_behind(first, rest, rest.len() as int);
        assert forall|i: int| 0 <= i < groups.len() implies #[trigger] leaf_group_cut(
            cells,
            groups,
            i,
        ) by {
            leaf_offset_behind(first, rest, i);
            if i == 0 {
                assert(leaf_offset(groups, 0) == 0);
                assert(leaf_offset(rest, 0) == 0);
                assert(first =~= cells.subrange(0, n));
            } else {
                assert(leaf_group_cut(behind, rest, i - 1));
                leaf_offset_behind(first, rest, i - 1);
                assert(groups[i] == rest[i - 1]);
                assert(behind.subrange(leaf_offset(rest, i - 1), leaf_offset(rest, i))
                    =~= cells.subrange(leaf_offset(groups, i), leaf_offset(groups, i + 1)));
            }
        }
    }
}

/// The group at an index is the part of the contents that its place asks for.
pub open spec fn node_group_cut(node: InternalNode, groups: Seq<NodeGroup>, index: int) -> bool {
    let start = node_offset(groups, index);
    let end = node_offset(groups, index + 1);
    &&& 0 <= start < end <= node.cells.len() + 1
    &&& groups[index].node.cells == node.cells.subrange(start, end - 1)
    &&& groups[index].node.right_child == child_of(node, end - 1)
    &&& internal_space(groups[index].node.cells) <= INTERNAL_CAPACITY
    &&& index + 1 < groups.len() ==> end <= node.cells.len() && groups[index].promoted == Some(
        node.cells[end - 1].separator,
    )
}

/// A group that is cut right stays so behind another.
proof fn node_group_cut_behind(
    node: InternalNode,
    first: NodeGroup,
    rest: Seq<NodeGroup>,
    n: int,
    index: int,
)
    requires
        0 <= n < node.cells.len(),
        first.node.cells.len() == n,
        0 <= index < rest.len(),
        node_group_cut(InternalNode { cells: node.cells.skip(n + 1), ..node }, rest, index),
    ensures
        node_group_cut(node, seq![first] + rest, index + 1),
{
    let behind = InternalNode { cells: node.cells.skip(n + 1), ..node };
    let groups = seq![first] + rest;
    node_offset_behind(first, rest, index);
    node_offset_behind(first, rest, index + 1);
    let start = node_offset(rest, index);
    let end = node_offset(rest, index + 1);
    assert(groups[index + 1] == rest[index]);
    assert(behind.cells.subrange(start, end - 1) =~= node.cells.subrange(
        start + n + 1,
        end + n,
    ));
}

/// The groups are the contents cut into parts, at a record each time: it gives its child to
/// the part before it, and its separator is between the parts. Each part fits an internal
/// page if each record does.
pub proof fn internal_groups_cut(node: InternalNode)
    requires
        forall|i: int|
            0 <= i < node.cells.len() ==> internal_cell_space(#[trigger] node.cells[i])
                <= INTERNAL_CAPACITY,
    ensures
        ({
            let groups = internal_groups(node);
            &&& groups.len() > 0
            &&& node_offset(groups, groups.len() as int) == node.cells.len() + 1
            &&& forall|i: int| 0 <= i < groups.len() ==> #[trigger] node_group_cut(node, groups, i)
        }),
    decreases node.cells.len(),
{
    reveal(node_offset);
    let groups = internal_groups(node);
    let cells = node.cells;
    assert(cells.take(0) =~= Seq::<InternalCell>::empty());
    internal_fit_fits(cells, 0);
    let n = internal_fit(cells, 0) as int;
    if n == cells.len() {
        let whole = NodeGroup { node, promoted: None };
        assert(groups =~= seq![whole]);
        assert(cells.take(n) =~= cells);
        assert(node_offset(groups, 0) == 0);
        assert(node_offset(groups, 1) == cells.len() + 1);
        assert(cells.subrange(0, n) =~= cells);
    } else {
        let first = NodeGroup {
            node: InternalNode { cells: cells.take(n), right_child: cells[n].child },
            promoted: Some(cells[n].separator),
        };
        let behind = InternalNode { cells: cells.skip(n + 1), ..node };
        let rest = internal_groups(behind);
        assert(groups == seq![first] + rest);
        internal_groups_cut(behind);
        node_offset_behind(first, rest, rest.len() as int);
        assert forall|i: int| 0 <= i < groups.len() implies #[trigger] node_group_cut(
            node,
            groups,
            i,
        ) by {
            if i == 0 {
                assert(node_offset(groups, 0) == 0);
                assert(node_offset(groups, 1) == n + 1);
                assert(groups[0] == first);
                assert(cells.take(n) =~= cells.subrange(0, n));
            } else {
                assert(node_group_cut(behind, rest, i - 1));
                node_group_cut_behind(node, first, rest, n, i - 1);
            }
        }
    }
}

/// A part of an internal page's children begins and ends in order.
pub open spec fn part_in_range(groups: Seq<NodeGroup>, index: int, count: nat) -> bool {
    0 <= node_offset(groups, index) < node_offset(groups, index + 1) <= count
}

} // verus!
