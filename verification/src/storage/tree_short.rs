//! How many pages and how much space it takes to spread records anew when keys are short.
use crate::storage::model::{InternalCell, InternalNode, LeafCell};
use crate::storage::page::PageId;
use crate::storage::pager::PagerModel;
use crate::storage::slotted::{internal_cell_space, internal_space, leaf_space, INTERNAL_CAPACITY};
use crate::storage::slotted::LEAF_CAPACITY;
use crate::storage::tree::{flat, flat_all, lower, node_of_kids, ordered, upper, Tree};
use crate::storage::tree_groups::{internal_groups_cut, leaf_group_cut, leaf_groups_cut};
use crate::storage::tree_groups::{leaf_offset, node_group_cut, node_offset};
use crate::storage::tree_leaves::{greatest_keys, leaf_kids, leaves_spread};
use crate::storage::tree_model::{internal_fit, internal_groups, leaf_fit, leaf_groups, window_ids};
use crate::storage::tree_nodes::{cut_separators, merged_in_order, merged_kids, merged_separators};
use crate::storage::tree_nodes::{node_kids, nodes_spread, window_node};
use crate::storage::tree_path::{flat_all_around, has_place, part, with, with_kid};
use crate::storage::tree_root::{split_leaf, split_node};
use crate::storage::tree_search::kids_between;
use crate::storage::tree_splice::{spliced, spliced_separators};
use crate::storage::tree_store::ids_for_groups;
use crate::storage::tree_window::{window_end, window_of, window_start};
use vstd::prelude::*;

verus! {

/// A key with at most this many bytes is short.
pub const SHORT_KEY: usize = 444;

/// The greatest space that the contents of an internal page with short keys take before the
/// page is balanced.
pub const SHORT_NODE: usize = 7236;

/// All keys and separators of the tree are short.
pub open spec fn short(t: Tree) -> bool
    decreases t,
{
    match t {
        Tree::Leaf { cells, .. } => short_cells(cells),
        Tree::Node { kids, separators, .. } => short_all(separators) && forall|i: int|
            0 <= i < kids.len() ==> short(#[trigger] kids[i]),
    }
}

/// All keys of records are short.
pub open spec fn short_cells(cells: Seq<LeafCell>) -> bool {
    forall|i: int| 0 <= i < cells.len() ==> (#[trigger] cells[i]).key.len() <= SHORT_KEY
}

/// All separators are short.
pub open spec fn short_all(separators: Seq<Seq<u8>>) -> bool {
    forall|i: int| 0 <= i < separators.len() ==> (#[trigger] separators[i]).len() <= SHORT_KEY
}

/// The space that records with these separators take in an internal page.
pub open spec fn separator_space(separators: Seq<Seq<u8>>) -> nat
    decreases separators.len(),
{
    if separators.len() == 0 {
        0
    } else {
        separator_space(separators.drop_last()) + 8 + separators.last().len()
    }
}

/// The space that records take in an internal page is that of their separators.
pub proof fn space_of_separators(cells: Seq<InternalCell>, separators: Seq<Seq<u8>>)
    requires
        cells.len() == separators.len(),
        forall|i: int| 0 <= i < cells.len() ==> (#[trigger] cells[i]).separator == separators[i],
    ensures
        internal_space(cells) == separator_space(separators),
    decreases cells.len(),
{
    if cells.len() > 0 {
        space_of_separators(cells.drop_last(), separators.drop_last());
    }
}

/// The space of separators in two parts.
proof fn separator_space_concat(a: Seq<Seq<u8>>, b: Seq<Seq<u8>>)
    ensures
        separator_space(a + b) == separator_space(a) + separator_space(b),
    decreases b.len(),
{
    if b.len() == 0 {
        assert(a + b =~= a);
    } else {
        separator_space_concat(a, b.drop_last());
        assert((a + b).drop_last() =~= a + b.drop_last());
    }
}

/// The space of short separators.
proof fn separator_space_short(separators: Seq<Seq<u8>>)
    requires
        short_all(separators),
    ensures
        separator_space(separators) <= 452 * separators.len(),
    decreases separators.len(),
{
    if separators.len() > 0 {
        separator_space_short(separators.drop_last());
        assert(separators[separators.len() - 1].len() <= SHORT_KEY);
    }
}

/// The space of records in two parts.
pub proof fn leaf_space_concat(a: Seq<LeafCell>, b: Seq<LeafCell>)
    ensures
        leaf_space(a + b) == leaf_space(a) + leaf_space(b),
    decreases b.len(),
{
    if b.len() == 0 {
        assert(a + b =~= a);
    } else {
        leaf_space_concat(a, b.drop_last());
        assert((a + b).drop_last() =~= a + b.drop_last());
    }
}

/// The space of records in two parts.
pub proof fn internal_space_concat(a: Seq<InternalCell>, b: Seq<InternalCell>)
    ensures
        internal_space(a + b) == internal_space(a) + internal_space(b),
    decreases b.len(),
{
    if b.len() == 0 {
        assert(a + b =~= a);
    } else {
        internal_space_concat(a, b.drop_last());
        assert((a + b).drop_last() =~= a + b.drop_last());
    }
}

/// A group ends where the next record does not fit.
pub proof fn leaf_fit_stops(cells: Seq<LeafCell>, n: nat)
    requires
        1 <= n <= cells.len(),
    ensures
        n <= leaf_fit(cells, n) <= cells.len(),
        leaf_fit(cells, n) < cells.len() ==> leaf_space(
            cells.take(leaf_fit(cells, n) as int + 1),
        ) > LEAF_CAPACITY,
    decreases cells.len() - n,
{
    if n < cells.len() && leaf_space(cells.take(n as int + 1)) <= LEAF_CAPACITY {
        leaf_fit_stops(cells, n + 1);
    }
}

/// A group ends where the next record does not fit.
pub proof fn internal_fit_stops(cells: Seq<InternalCell>, n: nat)
    requires
        n <= cells.len(),
    ensures
        n <= internal_fit(cells, n) <= cells.len(),
        internal_fit(cells, n) < cells.len() ==> internal_space(
            cells.take(internal_fit(cells, n) as int + 1),
        ) > INTERNAL_CAPACITY,
    decreases cells.len() - n,
{
    if n < cells.len() && (n == 0 || internal_space(cells.take(n as int + 1))
        <= INTERNAL_CAPACITY) {
        internal_fit_stops(cells, n + 1);
    }
}

/// Two neighbouring groups of records do not fit one page.
pub proof fn leaf_groups_are_few(cells: Seq<LeafCell>)
    ensures
        4069 * (leaf_groups(cells).len() / 2) <= leaf_space(cells),
    decreases cells.len(),
{
    if cells.len() > 0 {
        leaf_fit_stops(cells, 1);
        let n = leaf_fit(cells, 1) as int;
        let behind = cells.skip(n);
        assert(cells.take(n) + behind =~= cells);
        leaf_space_concat(cells.take(n), behind);
        if behind.len() > 0 {
            leaf_fit_stops(behind, 1);
            let k = leaf_fit(behind, 1) as int;
            let rest = behind.skip(k);
            assert(behind.take(k) + rest =~= behind);
            leaf_space_concat(behind.take(k), rest);
            leaf_groups_are_few(rest);
            assert(leaf_groups(behind) == seq![behind.take(k)] + leaf_groups(rest));
            assert(leaf_groups(cells) == seq![cells.take(n)] + leaf_groups(behind));
            let m = leaf_groups(rest).len();
            assert(leaf_groups(cells).len() == m + 2);
            assert((m + 2) / 2 == m / 2 + 1);
            // The first record of the second group did not fit the first.
            assert(cells.take(n + 1) =~= cells.take(n) + behind.take(1));
            leaf_space_concat(cells.take(n), behind.take(1));
            assert(behind.take(k) =~= behind.take(1) + behind.subrange(1, k));
            leaf_space_concat(behind.take(1), behind.subrange(1, k));
        } else {
            assert(leaf_groups(cells) == seq![cells.take(n)] + leaf_groups(behind));
            assert(leaf_groups(cells).len() == 1);
            assert(1nat / 2 == 0);
        }
    }
}

/// A group of contents and the record behind it do not fit one page.
pub proof fn internal_groups_are_few(node: InternalNode)
    ensures
        internal_groups(node).len() >= 1,
        4073 * (internal_groups(node).len() - 1) <= internal_space(node.cells),
    decreases node.cells.len(),
{
    let cells = node.cells;
    internal_fit_stops(cells, 0);
    let n = internal_fit(cells, 0) as int;
    if n < cells.len() {
        let behind = InternalNode { cells: cells.skip(n + 1), ..node };
        internal_groups_are_few(behind);
        assert(cells.take(n + 1) + behind.cells =~= cells);
        internal_space_concat(cells.take(n + 1), behind.cells);
        let m = internal_groups(behind).len();
        assert(internal_groups(node).len() == m + 1);
    }
}

/// The records of a tree with short keys have short keys.
proof fn short_flat(t: Tree)
    requires
        short(t),
    ensures
        short_cells(flat(t)),
    decreases t,
{
    match t {
        Tree::Leaf { .. } => {},
        Tree::Node { kids, .. } => {
            assert forall|i: int| 0 <= i < kids.len() implies short(#[trigger] kids[i]) by {}
            short_flat_all(kids);
        },
    }
}

/// The records of trees with short keys have short keys.
proof fn short_flat_all(kids: Seq<Tree>)
    requires
        forall|i: int| 0 <= i < kids.len() ==> short(#[trigger] kids[i]),
    ensures
        short_cells(flat_all(kids)),
    decreases kids,
{
    if kids.len() > 0 {
        let first = kids.drop_last();
        assert forall|i: int| 0 <= i < first.len() implies short(#[trigger] first[i]) by {
            assert(first[i] == kids[i]);
        }
        short_flat_all(first);
        assert(short(kids[kids.len() - 1]));
        short_flat(kids.last());
        let all = flat_all(kids);
        let n = flat_all(first).len();
        assert forall|i: int| 0 <= i < all.len() implies (#[trigger] all[i]).key.len()
            <= SHORT_KEY by {
            if i < n {
                assert(all[i] == flat_all(first)[i]);
            } else {
                assert(all[i] == flat(kids.last())[i - n]);
            }
        }
    }
}

/// The part at a place of a tree with short keys has short keys.
pub proof fn short_part(t: Tree, place: Seq<int>)
    requires
        short(t),
        has_place(t, place),
    ensures
        short(part(t, place)),
    decreases place.len(),
{
    if place.len() > 0 {
        short_part(t, place.drop_last());
    }
}

/// A tree with short keys keeps them when a part is replaced by one with short keys.
pub proof fn short_with(t: Tree, place: Seq<int>, new: Tree)
    requires
        short(t),
        has_place(t, place),
        short(new),
    ensures
        short(with(t, place, new)),
    decreases place.len(),
{
    if place.len() > 0 {
        let parent = place.drop_last();
        let node = part(t, parent);
        let i = place.last();
        short_part(t, parent);
        let after = with_kid(node, i, new);
        assert forall|j: int| 0 <= j < after.kids().len() implies short(
            #[trigger] after.kids()[j],
        ) by {
            if j != i {
                assert(after.kids()[j] == node.kids()[j]);
            }
        }
        short_with(t, parent, after);
    }
}

/// The space and the shortness of separators, some of them replaced.
proof fn spliced_short(
    separators: Seq<Seq<u8>>,
    a: int,
    b: int,
    inner: Seq<Seq<u8>>,
    end: Seq<u8>,
)
    requires
        0 <= a <= b <= separators.len(),
        short_all(separators),
        short_all(inner),
        b < separators.len() ==> end.len() <= SHORT_KEY,
        separator_space(separators) <= INTERNAL_CAPACITY,
    ensures
        short_all(spliced_separators(separators, a, b, inner, end)),
        separator_space(spliced_separators(separators, a, b, inner, end)) <= INTERNAL_CAPACITY
            + 452 * (inner.len() + 1),
        b < separators.len() && end == separators[b] ==> separator_space(
            spliced_separators(separators, a, b, inner, end),
        ) <= INTERNAL_CAPACITY + 452 * inner.len(),
{
    let first = separators.take(a);
    let rest = separators.skip(b + 1);
    let all = spliced_separators(separators, a, b, inner, end);
    separator_space_short(inner);
    separator_space_concat(first, separators.skip(a));
    assert(first + separators.skip(a) =~= separators);
    if b < separators.len() {
        let tail = seq![end] + rest;
        assert(all =~= first + inner + tail);
        separator_space_concat(first + inner, tail);
        separator_space_concat(first, inner);
        separator_space_concat(seq![end], rest);
        assert(seq![end].drop_last() =~= Seq::<Seq<u8>>::empty());
        assert(separator_space(Seq::<Seq<u8>>::empty()) == 0);
        assert(separator_space(seq![end]) == 8 + end.len());
        let mid = separators.subrange(a, b);
        let one = seq![separators[b]];
        assert(separators.skip(a) =~= mid + (one + rest));
        separator_space_concat(mid, one + rest);
        separator_space_concat(one, rest);
        assert(one.drop_last() =~= Seq::<Seq<u8>>::empty());
        assert(separator_space(one) == 8 + separators[b].len());
    } else {
        assert(all =~= first + inner);
        separator_space_concat(first, inner);
    }
    assert forall|i: int| 0 <= i < all.len() implies (#[trigger] all[i]).len() <= SHORT_KEY by {
        let m = inner.len();
        if i < a {
            assert(all[i] == separators[i]);
        } else if i < a + m {
            assert(all[i] == inner[i - a]);
        } else if i > a + m {
            assert(all[i] == separators[i - a - m + b]);
        }
    }
}

/// Trees with short keys, some of them replaced.
proof fn spliced_kids_short(kids: Seq<Tree>, a: int, b: int, new: Seq<Tree>)
    requires
        0 <= a <= b < kids.len(),
        forall|i: int| 0 <= i < kids.len() ==> short(#[trigger] kids[i]),
        forall|i: int| 0 <= i < new.len() ==> short(#[trigger] new[i]),
    ensures
        forall|i: int|
            0 <= i < spliced(kids, a, b, new).len() ==> short(
                #[trigger] spliced(kids, a, b, new)[i],
            ),
{
    let all = spliced(kids, a, b, new);
    let m = new.len();
    assert forall|i: int| 0 <= i < all.len() implies short(#[trigger] all[i]) by {
        if i < a {
            assert(all[i] == kids[i]);
        } else if i < a + m {
            assert(all[i] == new[i - a]);
        } else {
            assert(all[i] == kids[i - a - m + b + 1]);
        }
    }
}

/// The leaves that records with short keys make, and their greatest keys.
proof fn leaf_groups_short(cells: Seq<LeafCell>, ids: Seq<PageId>)
    requires
        short_cells(cells),
        cells.len() > 0,
    ensures
        ({
            let groups = leaf_groups(cells);
            &&& groups.len() > 0
            &&& short_all(greatest_keys(groups, (groups.len() - 1) as nat))
            &&& forall|i: int|
                0 <= i < groups.len() ==> short(#[trigger] leaf_kids(ids, groups)[i])
        }),
{
    let groups = leaf_groups(cells);
    leaf_groups_cut(cells);
    assert forall|i: int| 0 <= i < groups.len() implies short_cells(#[trigger] groups[i])
        && groups[i].len() > 0 by {
        assert(leaf_group_cut(cells, groups, i));
        let start = leaf_offset(groups, i);
        assert forall|k: int| 0 <= k < groups[i].len() implies (#[trigger] groups[i][k]).key.len()
            <= SHORT_KEY by {
            assert(groups[i][k] == cells[start + k]);
        }
    }
    let keys = greatest_keys(groups, (groups.len() - 1) as nat);
    assert forall|i: int| 0 <= i < keys.len() implies (#[trigger] keys[i]).len() <= SHORT_KEY by {
        let group = groups[i];
        assert(short_cells(groups[i]));
        assert(group[group.len() - 1].key.len() <= SHORT_KEY);
    }
    let kids = leaf_kids(ids, groups);
    assert forall|i: int| 0 <= i < groups.len() implies short(#[trigger] kids[i]) by {
        assert(short_cells(groups[i]));
    }
}

/// The internal pages that contents with short keys make, and the separators between them.
proof fn node_groups_short(
    ids: Seq<PageId>,
    kids: Seq<Tree>,
    separators: Seq<Seq<u8>>,
)
    requires
        kids.len() == separators.len() + 1,
        short_all(separators),
        forall|i: int| 0 <= i < kids.len() ==> short(#[trigger] kids[i]),
    ensures
        ({
            let groups = internal_groups(node_of_kids(kids, separators));
            &&& short_all(cut_separators(separators, groups))
            &&& forall|i: int|
                0 <= i < groups.len() ==> short(
                    #[trigger] node_kids(ids, kids, separators, groups)[i],
                )
        }),
{
    let node = node_of_kids(kids, separators);
    let groups = internal_groups(node);
    assert forall|i: int| 0 <= i < node.cells.len() implies internal_cell_space(
        #[trigger] node.cells[i],
    ) <= INTERNAL_CAPACITY by {
        assert(separators[i].len() <= SHORT_KEY);
    }
    internal_groups_cut(node);
    let cuts = cut_separators(separators, groups);
    assert forall|i: int| 0 <= i < cuts.len() implies (#[trigger] cuts[i]).len() <= SHORT_KEY by {
        assert(node_group_cut(node, groups, i));
    }
    let parts = node_kids(ids, kids, separators, groups);
    assert forall|i: int| 0 <= i < groups.len() implies short(#[trigger] parts[i]) by {
        assert(node_group_cut(node, groups, i));
        let start = node_offset(groups, i);
        let own = parts[i].separators();
        let below = parts[i].kids();
        assert forall|k: int| 0 <= k < own.len() implies (#[trigger] own[k]).len()
            <= SHORT_KEY by {
            assert(own[k] == separators[start + k]);
        }
        assert forall|k: int| 0 <= k < below.len() implies short(#[trigger] below[k]) by {
            assert(below[k] == kids[start + k]);
        }
    }
}

/// The space of the records of neighbouring leaves, of which one may be overfull by a record.
proof fn window_leaf_space(kids: Seq<Tree>, i: int, a: int, n: int)
    requires
        0 <= a <= n <= kids.len(),
        forall|j: int|
            0 <= j < kids.len() ==> leaf_space(flat(#[trigger] kids[j])) <= if j == i {
                8136
            } else {
                4068nat
            },
    ensures
        leaf_space(flat_all(kids.subrange(a, n))) <= 4068 * (n - a) + if a <= i < n {
            4068int
        } else {
            0
        },
    decreases n - a,
{
    let window = kids.subrange(a, n);
    if n > a {
        window_leaf_space(kids, i, a, n - 1);
        assert(window.drop_last() =~= kids.subrange(a, n - 1));
        assert(window.last() == kids[n - 1]);
        leaf_space_concat(flat_all(window.drop_last()), flat(window.last()));
    } else {
        assert(window =~= Seq::<Tree>::empty());
    }
}

/// Spreading records with short keys anew leaves the parent with short keys, and not much more
/// of them than fit it.
pub proof fn leaves_spread_short(
    s: PagerModel,
    t: Tree,
    lo: Option<Seq<u8>>,
    hi: Option<Seq<u8>>,
    i: int,
)
    requires
        t is Node,
        ordered(t, 1, lo, hi),
        0 <= i < t.kids().len(),
        short(t),
        separator_space(t.separators()) <= INTERNAL_CAPACITY,
        flat(t.kids()[i]).len() > 0,
        forall|j: int|
            0 <= j < t.kids().len() ==> leaf_space(flat(#[trigger] t.kids()[j])) <= if j == i {
                8136
            } else {
                4068nat
            },
    ensures
        short(leaves_spread(s, t, i)),
        separator_space(leaves_spread(s, t, i).separators()) <= SHORT_NODE,
{
    let kids = t.kids();
    let separators = t.separators();
    let a = window_start(i);
    let b = window_end(i, separators.len() as int);
    let old = kids.subrange(a, b + 1);
    let cells = flat_all(old);
    let groups = leaf_groups(cells);
    let m = groups.len();
    let new = leaves_spread(s, t, i);
    assert(old[i - a] == kids[i]);
    flat_all_around(old, i - a);
    kids_between(t, 1, lo, hi, a, b + 1);
    assert forall|j: int| 0 <= j < old.len() implies short(#[trigger] old[j]) by {
        assert(old[j] == kids[a + j]);
    }
    short_flat_all(old);
    window_leaf_space(kids, i, a, b + 1);
    leaf_groups_are_few(cells);
    let ids = ids_for_groups(s, window_ids(window_of(s, kids, a, b)), m);
    leaf_groups_short(cells, ids);
    assert(m <= 7);
    assert(cells[cells.len() - 1].key.len() <= SHORT_KEY);
    spliced_short(separators, a, b, greatest_keys(groups, (m - 1) as nat), cells.last().key);
    spliced_kids_short(kids, a, b, leaf_kids(ids, groups));
}

/// The contents of neighbouring internal pages with short keys, of which one may be overfull.
proof fn merged_short(
    t: Tree,
    height: nat,
    lo: Option<Seq<u8>>,
    hi: Option<Seq<u8>>,
    i: int,
    a: int,
    n: int,
)
    requires
        t is Node,
        height > 1,
        ordered(t, height, lo, hi),
        short(t),
        0 <= a < n <= t.kids().len(),
        forall|j: int|
            0 <= j < t.kids().len() ==> separator_space((#[trigger] t.kids()[j]).separators())
                <= if j == i {
                SHORT_NODE as nat
            } else {
                4072nat
            },
    ensures
        ({
            let nodes = t.kids().subrange(a, n);
            let separators = merged_separators(nodes, t.separators().subrange(a, n - 1));
            let kids = merged_kids(nodes);
            &&& short_all(separators)
            &&& forall|k: int| 0 <= k < kids.len() ==> short(#[trigger] kids[k])
            &&& separator_space(separators) <= 4072 * (n - a) + 452 * (n - a - 1) + if a <= i < n {
                3164int
            } else {
                0
            }
        }),
    decreases n - a,
{
    let nodes = t.kids().subrange(a, n);
    let dividers = t.separators().subrange(a, n - 1);
    let separators = merged_separators(nodes, dividers);
    let kids = merged_kids(nodes);
    let last = t.kids()[n - 1];
    assert(nodes.last() == last);
    assert(short(last));
    assert(ordered(
        last,
        (height - 1) as nat,
        lower(t.separators(), lo, n - 1),
        upper(t.separators(), hi, n - 1),
    ));
    if n == a + 1 {
        assert(nodes =~= seq![last]);
        assert(nodes.drop_last() =~= Seq::<Tree>::empty());
        assert(merged_kids(nodes.drop_last()) =~= Seq::<Tree>::empty());
        assert(kids =~= last.kids());
        assert(separators =~= last.separators());
    } else {
        merged_short(t, height, lo, hi, i, a, n - 1);
        let before = t.kids().subrange(a, n - 1);
        assert(nodes.drop_last() =~= before);
        assert(dividers.drop_last() =~= t.separators().subrange(a, n - 2));
        let mid = t.separators()[n - 2];
        assert(dividers.last() == mid);
        assert(mid.len() <= SHORT_KEY);
        let first = merged_separators(before, dividers.drop_last());
        assert(separators =~= first.push(mid) + last.separators());
        separator_space_concat(first.push(mid), last.separators());
        assert(first.push(mid).drop_last() =~= first);
        let first_kids = merged_kids(before);
        assert forall|k: int| 0 <= k < kids.len() implies short(#[trigger] kids[k]) by {
            if k < first_kids.len() {
                assert(kids[k] == first_kids[k]);
            } else {
                assert(kids[k] == last.kids()[k - first_kids.len()]);
            }
        }
        assert forall|k: int| 0 <= k < separators.len() implies (#[trigger] separators[k]).len()
            <= SHORT_KEY by {
            if k < first.len() {
                assert(separators[k] == first[k]);
            } else if k > first.len() {
                assert(separators[k] == last.separators()[k - first.len() - 1]);
            }
        }
    }
}

/// Spreading contents with short keys anew leaves the parent with short keys, and not much
/// more of them than fit it.
pub proof fn nodes_spread_short(
    s: PagerModel,
    t: Tree,
    height: nat,
    lo: Option<Seq<u8>>,
    hi: Option<Seq<u8>>,
    i: int,
)
    requires
        t is Node,
        height > 1,
        ordered(t, height, lo, hi),
        0 <= i < t.kids().len(),
        short(t),
        separator_space(t.separators()) <= INTERNAL_CAPACITY,
        forall|j: int|
            0 <= j < t.kids().len() ==> separator_space((#[trigger] t.kids()[j]).separators())
                <= if j == i {
                SHORT_NODE as nat
            } else {
                4072nat
            },
    ensures
        short(nodes_spread(s, t, i)),
        separator_space(nodes_spread(s, t, i).separators()) <= SHORT_NODE,
{
    let kids = t.kids();
    let separators = t.separators();
    let a = window_start(i);
    let b = window_end(i, separators.len() as int);
    let big = window_node(t, a, b);
    let node = node_of_kids(big.kids(), big.separators());
    let groups = internal_groups(node);
    let m = groups.len();
    let ids = ids_for_groups(s, window_ids(window_of(s, kids, a, b)), m);
    merged_in_order(t, height, lo, hi, a, b + 1, t.id());
    merged_short(t, height, lo, hi, i, a, b + 1);
    space_of_separators(node.cells, big.separators());
    internal_groups_are_few(node);
    assert(m <= 4);
    node_groups_short(ids, big.kids(), big.separators());
    spliced_short(
        separators,
        a,
        b,
        cut_separators(big.separators(), groups),
        separators[b],
    );
    spliced_kids_short(kids, a, b, node_kids(ids, big.kids(), big.separators(), groups));
}

/// A leaf at the top that is overfull by a record splits into few pages.
pub proof fn split_leaf_short(s: PagerModel, t: Tree)
    requires
        t is Leaf,
        ordered(t, 0, None, None),
        short(t),
        flat(t).len() > 0,
        leaf_space(flat(t)) <= 8136,
    ensures
        short(split_leaf(s, t)),
        separator_space(split_leaf(s, t).separators()) <= INTERNAL_CAPACITY,
{
    let cells = flat(t);
    let groups = leaf_groups(cells);
    leaf_groups_are_few(cells);
    assert(groups.len() <= 3);
    leaf_groups_short(cells, ids_for_groups(s, Seq::empty(), groups.len()));
    separator_space_short(greatest_keys(groups, (groups.len() - 1) as nat));
}

/// An internal page at the top that is not much overfull splits into few pages.
pub proof fn split_node_short(s: PagerModel, t: Tree, height: nat)
    requires
        t is Node,
        ordered(t, height, None, None),
        short(t),
        separator_space(t.separators()) <= SHORT_NODE,
    ensures
        short(split_node(s, t)),
        separator_space(split_node(s, t).separators()) <= INTERNAL_CAPACITY,
{
    let node = node_of_kids(t.kids(), t.separators());
    let groups = internal_groups(node);
    space_of_separators(node.cells, t.separators());
    internal_groups_are_few(node);
    assert(groups.len() <= 2);
    node_groups_short(
        ids_for_groups(s, Seq::empty(), groups.len()),
        t.kids(),
        t.separators(),
    );
    separator_space_short(cut_separators(t.separators(), groups));
}

} // verus!
