//! Filling each group as far as it goes makes the fewest groups.
use crate::storage::model::{InternalCell, InternalNode, LeafCell};
use crate::storage::slotted::{internal_space, leaf_space, INTERNAL_CAPACITY, LEAF_CAPACITY};
use crate::storage::slotted_laws::{internal_space_monotonic, leaf_space_monotonic};
use crate::storage::tree_groups::{first_offset, leaf_group_cut, leaf_offset};
use crate::storage::tree_groups::{node_group_cut, node_offset};
use crate::storage::tree_model::{internal_fit, internal_groups, leaf_fit, leaf_groups, NodeGroup};
use crate::storage::tree_short::{internal_fit_stops, internal_space_concat};
use crate::storage::tree_short::{leaf_fit_stops, leaf_space_concat};
use vstd::prelude::*;

verus! {

/// A group that starts inside a part takes in the rest of that part.
proof fn leaf_fit_reaches(cells: Seq<LeafCell>, start: int, from: int, end: int)
    requires
        0 <= start <= from < end <= cells.len(),
        end == start + 1 || leaf_space(cells.subrange(start, end)) <= LEAF_CAPACITY,
    ensures
        end <= from + leaf_fit(cells.skip(from), 1) <= cells.len(),
{
    let rest = cells.skip(from);
    let n = leaf_fit(rest, 1) as int;
    leaf_fit_stops(rest, 1);
    if from + n < end {
        leaf_space_monotonic(rest, n + 1, end - from);
        leaf_space_concat(cells.subrange(start, from), rest.take(end - from));
        assert(cells.subrange(start, from) + rest.take(end - from) =~= cells.subrange(start, end));
    }
}

/// A group that starts inside a part takes in the rest of that part.
proof fn internal_fit_reaches(cells: Seq<InternalCell>, start: int, from: int, end: int)
    requires
        0 <= start <= from <= end <= cells.len(),
        internal_space(cells.subrange(start, end)) <= INTERNAL_CAPACITY,
    ensures
        end <= from + internal_fit(cells.skip(from), 0) <= cells.len(),
{
    let rest = cells.skip(from);
    let n = internal_fit(rest, 0) as int;
    internal_fit_stops(rest, 0);
    if from + n < end {
        internal_space_monotonic(rest, n + 1, end - from);
        internal_space_concat(cells.subrange(start, from), rest.take(end - from));
        assert(cells.subrange(start, from) + rest.take(end - from) =~= cells.subrange(start, end));
    }
}

/// The groups of what is left are no more than the parts from `index` on, if nothing before
/// those parts is left.
proof fn leaf_groups_keep_up(
    cells: Seq<LeafCell>,
    parts: Seq<Seq<LeafCell>>,
    from: int,
    index: int,
)
    requires
        forall|i: int| 0 <= i < parts.len() ==> #[trigger] leaf_group_cut(cells, parts, i),
        leaf_offset(parts, parts.len() as int) == cells.len(),
        0 <= index <= parts.len(),
        0 <= leaf_offset(parts, index) <= from <= cells.len(),
    ensures
        leaf_groups(cells.skip(from)).len() <= parts.len() - index,
    decreases parts.len() - index,
{
    if from < cells.len() {
        let rest = cells.skip(from);
        let n = leaf_fit(rest, 1) as int;
        assert(leaf_group_cut(cells, parts, index));
        let start = leaf_offset(parts, index);
        let end = leaf_offset(parts, index + 1);
        if from < end {
            leaf_fit_reaches(cells, start, from, end);
        } else {
            leaf_fit_stops(rest, 1);
        }
        leaf_groups_keep_up(cells, parts, from + n, index + 1);
        assert(rest.skip(n) =~= cells.skip(from + n));
    }
}

/// However records are cut into parts that fit a leaf page each, where one record alone counts
/// as fitting, the parts are no fewer than the groups.
pub proof fn leaf_groups_are_fewest(cells: Seq<LeafCell>, parts: Seq<Seq<LeafCell>>)
    requires
        forall|i: int| 0 <= i < parts.len() ==> #[trigger] leaf_group_cut(cells, parts, i),
        leaf_offset(parts, parts.len() as int) == cells.len(),
    ensures
        leaf_groups(cells).len() <= parts.len(),
{
    first_offset(parts, Seq::empty());
    leaf_groups_keep_up(cells, parts, 0, 0);
    assert(cells.skip(0) =~= cells);
}

/// The groups of what is left are no more than the parts from `index` on, if nothing before
/// those parts is left.
proof fn internal_groups_keep_up(
    node: InternalNode,
    parts: Seq<NodeGroup>,
    from: int,
    index: int,
)
    requires
        forall|i: int| 0 <= i < parts.len() ==> #[trigger] node_group_cut(node, parts, i),
        node_offset(parts, parts.len() as int) == node.cells.len() + 1,
        0 <= index <= parts.len(),
        0 <= node_offset(parts, index) <= from <= node.cells.len(),
    ensures
        internal_groups(InternalNode { cells: node.cells.skip(from), ..node }).len()
            <= parts.len() - index,
    decreases parts.len() - index,
{
    let cells = node.cells;
    let rest = cells.skip(from);
    let n = internal_fit(rest, 0) as int;
    assert(node_group_cut(node, parts, index));
    let start = node_offset(parts, index);
    let end = node_offset(parts, index + 1);
    if from < end {
        internal_fit_reaches(cells, start, from, end - 1);
    } else {
        internal_fit_stops(rest, 0);
    }
    if n < rest.len() {
        internal_groups_keep_up(node, parts, from + n + 1, index + 1);
        assert(rest.skip(n + 1) =~= cells.skip(from + n + 1));
    }
}

/// However the contents of internal pages are cut into parts that fit an internal page each,
/// the parts are no fewer than the groups.
pub proof fn internal_groups_are_fewest(node: InternalNode, parts: Seq<NodeGroup>)
    requires
        forall|i: int| 0 <= i < parts.len() ==> #[trigger] node_group_cut(node, parts, i),
        node_offset(parts, parts.len() as int) == node.cells.len() + 1,
    ensures
        internal_groups(node).len() <= parts.len(),
{
    first_offset(Seq::empty(), parts);
    internal_groups_keep_up(node, parts, 0, 0);
    assert(node.cells.skip(0) =~= node.cells);
}

/// The group at an index is as full as it can be: the first record of the next one does not fit
/// it.
pub open spec fn leaf_group_full(groups: Seq<Seq<LeafCell>>, index: int) -> bool {
    &&& groups[index + 1].len() > 0
    &&& leaf_space(groups[index].push(groups[index + 1][0])) > LEAF_CAPACITY
}

/// Each group is as full as it can be.
pub proof fn leaf_groups_are_full(cells: Seq<LeafCell>)
    ensures
        forall|i: int|
            0 <= i < leaf_groups(cells).len() - 1 ==> #[trigger] leaf_group_full(
                leaf_groups(cells),
                i,
            ),
    decreases cells.len(),
{
    if cells.len() > 0 {
        let groups = leaf_groups(cells);
        leaf_fit_stops(cells, 1);
        let n = leaf_fit(cells, 1) as int;
        let behind = cells.skip(n);
        let rest = leaf_groups(behind);
        assert(groups == seq![cells.take(n)] + rest);
        leaf_groups_are_full(behind);
        assert forall|i: int| 0 <= i < groups.len() - 1 implies #[trigger] leaf_group_full(
            groups,
            i,
        ) by {
            assert(groups[i + 1] == rest[i]);
            if i == 0 {
                leaf_fit_stops(behind, 1);
                assert(rest[0] == behind.take(leaf_fit(behind, 1) as int));
                assert(cells.take(n).push(cells[n]) =~= cells.take(n + 1));
            } else {
                assert(leaf_group_full(rest, i - 1));
                assert(groups[i] == rest[i - 1]);
            }
        }
    }
}

/// Each group is as full as it can be: the record between it and the next one does not fit it.
pub proof fn internal_groups_are_full(node: InternalNode)
    ensures
        forall|i: int|
            0 <= i < internal_groups(node).len() - 1 ==> ({
                let group = #[trigger] internal_groups(node)[i];
                &&& group.promoted is Some
                &&& internal_space(
                    group.node.cells.push(
                        InternalCell {
                            child: group.node.right_child,
                            separator: group.promoted->Some_0,
                        },
                    ),
                ) > INTERNAL_CAPACITY
            }),
    decreases node.cells.len(),
{
    let groups = internal_groups(node);
    let cells = node.cells;
    internal_fit_stops(cells, 0);
    let n = internal_fit(cells, 0) as int;
    if n < cells.len() {
        let behind = InternalNode { cells: cells.skip(n + 1), ..node };
        let rest = internal_groups(behind);
        internal_groups_are_full(behind);
        assert(cells.take(n).push(cells[n]) =~= cells.take(n + 1));
        assert forall|i: int| 0 <= i < groups.len() - 1 implies ({
            let group = #[trigger] groups[i];
            &&& group.promoted is Some
            &&& internal_space(
                group.node.cells.push(
                    InternalCell {
                        child: group.node.right_child,
                        separator: group.promoted->Some_0,
                    },
                ),
            ) > INTERNAL_CAPACITY
        }) by {
            if i > 0 {
                assert(groups[i] == rest[i - 1]);
            } else {
                assert(groups[0].node.cells == cells.take(n));
                assert(InternalCell {
                    child: groups[0].node.right_child,
                    separator: groups[0].promoted->Some_0,
                } == cells[n]);
            }
        }
    }
}

} // verus!
