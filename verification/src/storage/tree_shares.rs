//! How a page out of balance shares with the pages beside it, and when it does.
use crate::error::ShuError;
use crate::storage::header::INITIAL_ROOT_PAGE_ID;
use crate::storage::model::{InternalCell, LeafCell};
use crate::storage::page::{Overflow, PageId, PageModel, PageType};
use crate::storage::pager::PagerModel;
use crate::storage::slotted::{internal_space, leaf_space, INTERNAL_CAPACITY, LEAF_CAPACITY};
use crate::storage::tree::{apart, flat, flat_all, forms, lower, meta_in_order, node_of_kids};
use crate::storage::tree::{ordered, stored, upper, Tree};
use crate::storage::tree_fewest::{internal_groups_are_full, leaf_group_full};
use crate::storage::tree_fewest::leaf_groups_are_full;
use crate::storage::tree_groups::{first_offset, internal_groups_cut, node_group_cut, node_offset};
use crate::storage::tree_leaves::{greatest_keys, leaf_kids, leaf_kids_in_order, leaves_spread};
use crate::storage::tree_leaves::{leaf_window_is_rearranged, leaf_window_reusable};
use crate::storage::tree_leaves::leaf_window_unfolds;
use crate::storage::tree_model::{internal_groups, leaf_groups, window_ids, NodeGroup, PathFrame};
use crate::storage::tree_nodes::{cut_separators, internal_window_is_rearranged, merged_in_order};
use crate::storage::tree_nodes::{internal_window_reusable, internal_window_unfolds, merged_kids};
use crate::storage::tree_nodes::{merged_separators, node_kids, nodes_spread, separators_fit};
use crate::storage::tree_nodes::window_node;
use crate::storage::tree_path::flat_all_around;
use crate::storage::tree_root::{over_only_if_split, root_leaf_is_split, root_node_is_split};
use crate::storage::tree_root::{split_leaf, split_node};
use crate::storage::tree_search::kids_between;
use crate::storage::tree_short::{separator_space, space_of_separators};
use crate::storage::tree_step::{rearranged, respliced};
use crate::storage::tree_store::{ids_for_groups, place_leaves, place_nodes};
use crate::storage::tree_window::{window_is_loaded, window_of};
use vstd::prelude::*;

verus! {

/// The child before a child, or the child itself if there is none.
pub open spec fn first_beside(i: int) -> int {
    if i > 0 {
        i - 1
    } else {
        0
    }
}

/// The child behind a child, or the child itself if there is none.
pub open spec fn last_beside(t: Tree, i: int) -> int {
    if i + 1 < t.kids().len() {
        i + 1
    } else {
        i
    }
}

/// A child, the one before it and the one behind it were replaced by `m` others. They are on the
/// pages that those were on, one after the other; if there are more, the rest are on pages that
/// were added. All other children and separators are as they were.
pub open spec fn shared_by(
    s: PagerModel,
    after: PagerModel,
    t: Tree,
    new: Tree,
    i: int,
    m: int,
) -> bool {
    let a = first_beside(i);
    let b = last_beside(t, i);
    let w = b - a + 1;
    &&& m >= 1
    &&& new is Node
    &&& new.id() == t.id()
    &&& new.kids().len() == t.kids().len() - w + m
    &&& new.kids().take(a) == t.kids().take(a)
    &&& new.kids().skip(a + m) == t.kids().skip(b + 1)
    &&& new.separators().len() == new.kids().len() - 1
    &&& new.separators().take(a) == t.separators().take(a)
    &&& b + 1 < t.kids().len() ==> new.separators().skip(a + m) == t.separators().skip(b + 1)
    &&& forall|j: int|
        0 <= j < m ==> (#[trigger] new.kids()[a + j]).id() == if j < w {
            t.kids()[a + j].id()
        } else {
            PageId((s.page_count + j - w) as u32)
        }
    &&& after.page_count == s.page_count + if m > w {
        m - w
    } else {
        0
    }
}

/// Children in the place of others, and the separators between and behind them.
proof fn shape_of_shared(
    t: Tree,
    a: int,
    b: int,
    fresh: Seq<Tree>,
    inner: Seq<Seq<u8>>,
    end: Seq<u8>,
)
    requires
        t is Node,
        t.kids().len() == t.separators().len() + 1,
        0 <= a <= b < t.kids().len(),
        fresh.len() == inner.len() + 1,
    ensures
        ({
            let new = respliced(t, a, b, fresh, inner, end);
            let m = fresh.len() as int;
            &&& new.kids().len() == t.kids().len() - (b - a + 1) + m
            &&& new.kids().take(a) == t.kids().take(a)
            &&& new.kids().skip(a + m) == t.kids().skip(b + 1)
            &&& new.kids().subrange(a, a + m) == fresh
            &&& new.separators().len() == new.kids().len() - 1
            &&& new.separators().take(a) == t.separators().take(a)
            &&& b + 1 < t.kids().len() ==> new.separators().skip(a + m) == t.separators().skip(
                b + 1,
            )
            &&& forall|j: int| 0 <= j < m ==> #[trigger] new.kids()[a + j] == fresh[j]
            &&& forall|j: int|
                0 <= j < m && a + j < new.separators().len() ==> #[trigger] new.separators()[a + j]
                    == if j < m - 1 {
                    inner[j]
                } else {
                    end
                }
        }),
{
    let new = respliced(t, a, b, fresh, inner, end);
    let m = fresh.len() as int;
    assert(new.kids().take(a) =~= t.kids().take(a));
    assert(new.kids().skip(a + m) =~= t.kids().skip(b + 1));
    assert(new.kids().subrange(a, a + m) =~= fresh);
    assert(new.separators().take(a) =~= t.separators().take(a));
    if b + 1 < t.kids().len() {
        assert(new.separators().skip(a + m) =~= t.separators().skip(b + 1));
    }
}

/// Leaves in a row are as full as can be, and the separators behind them are their greatest
/// keys.
pub open spec fn full_leaves(t: Tree, a: int, m: int) -> bool {
    &&& forall|j: int|
        a <= j < a + m ==> #[trigger] t.kids()[j] is Leaf && flat(t.kids()[j]).len() > 0
    &&& forall|j: int|
        a <= j < a + m - 1 ==> leaf_space(
            flat(#[trigger] t.kids()[j]).push(flat(t.kids()[j + 1])[0]),
        ) > LEAF_CAPACITY
    &&& forall|j: int|
        a <= j < a + m && j < t.separators().len() ==> #[trigger] t.separators()[j] == flat(
            t.kids()[j],
        ).last().key
}

/// The leaves that groups of records make are full.
proof fn groups_make_full_leaves(
    new: Tree,
    a: int,
    cells: Seq<LeafCell>,
    ids: Seq<PageId>,
    end: Seq<u8>,
)
    requires
        a >= 0,
        ({
            let groups = leaf_groups(cells);
            let fresh = leaf_kids(ids, groups);
            let m = groups.len() as int;
            &&& m > 0
            &&& groups[m - 1].last().key == end
            &&& forall|i: int| 0 <= i < m ==> (#[trigger] groups[i]).len() > 0
            &&& forall|j: int| 0 <= j < m ==> #[trigger] new.kids()[a + j] == fresh[j]
            &&& forall|j: int|
                0 <= j < m && a + j < new.separators().len() ==> #[trigger] new.separators()[a + j]
                    == if j < m - 1 {
                    greatest_keys(groups, (m - 1) as nat)[j]
                } else {
                    end
                }
        }),
    ensures
        full_leaves(new, a, leaf_groups(cells).len() as int),
{
    let groups = leaf_groups(cells);
    let fresh = leaf_kids(ids, groups);
    let m = groups.len() as int;
    leaf_groups_are_full(cells);
    assert forall|j: int| a <= j < a + m implies #[trigger] new.kids()[j] is Leaf && flat(
        new.kids()[j],
    ) == groups[j - a] by {
        assert(new.kids()[a + (j - a)] == fresh[j - a]);
    }
    assert forall|j: int| a <= j < a + m - 1 implies leaf_space(
        flat(#[trigger] new.kids()[j]).push(flat(new.kids()[j + 1])[0]),
    ) > LEAF_CAPACITY by {
        assert(leaf_group_full(groups, j - a));
        assert(flat(new.kids()[j + 1]) == groups[j + 1 - a]);
    }
    assert forall|j: int| a <= j < a + m && j < new.separators().len() implies
        #[trigger] new.separators()[j] == flat(new.kids()[j]).last().key by {
        assert(new.separators()[a + (j - a)] == new.separators()[j]);
        assert(flat(new.kids()[j]) == groups[j - a]);
    }
}

/// The pages that groups go to.
proof fn pages_of_shared(
    s: PagerModel,
    t: Tree,
    new: Tree,
    fresh: Seq<Tree>,
    a: int,
    b: int,
    loose: PageId,
)
    requires
        t is Node,
        stored(s, t, loose),
        0 <= a <= b < t.kids().len(),
        forall|j: int| 0 <= j < fresh.len() ==> #[trigger] new.kids()[a + j] == fresh[j],
        forall|j: int|
            0 <= j < fresh.len() ==> (#[trigger] fresh[j]).id() == ids_for_groups(
                s,
                window_ids(window_of(s, t.kids(), a, b)),
                fresh.len(),
            )[j],
    ensures
        forall|j: int|
            0 <= j < fresh.len() ==> (#[trigger] new.kids()[a + j]).id() == if j < b - a + 1 {
                t.kids()[a + j].id()
            } else {
                PageId((s.page_count + j - (b - a + 1)) as u32)
            },
{
    assert forall|j: int| 0 <= j < fresh.len() implies (#[trigger] new.kids()[a + j]).id() == if j
        < b - a + 1 {
        t.kids()[a + j].id()
    } else {
        PageId((s.page_count + j - (b - a + 1)) as u32)
    } by {
        if j < b - a + 1 {
            assert(stored(s, t.kids()[a + j], loose));
        }
    }
}

/// A leaf page that is out of balance shares its records with the leaves beside it, under the
/// same parent. The records stay in order. Each leaf takes as many as fit it, so that the first
/// record of the next one does not; the separator behind each is its greatest key. This fails
/// only if no further page can be counted.
pub proof fn leaves_share(
    s: PagerModel,
    t: Tree,
    lo: Option<Seq<u8>>,
    hi: Option<Seq<u8>>,
    i: int,
) -> (r: (Tree, int))
    requires
        meta_in_order(s),
        t is Node,
        ordered(t, 1, lo, hi),
        apart(t),
        0 <= i < t.kids().len(),
        stored(s, t, t.kids()[i].id()),
        flat(t.kids()[i]).len() > 0,
    ensures
        ({
            let (new, m) = r;
            let (after, result) = s.redistribute_leaf_window(
                t.id(),
                t.kids()[i].id(),
                i as u16,
            );
            let a = first_beside(i);
            let b = last_beside(t, i);
            match result {
                Err(e) => e == ShuError::TooManyPages && after.page_count == u32::MAX,
                Ok(_) => {
                    &&& rearranged(s, after, t, new, 1, lo, hi)
                    &&& shared_by(s, after, t, new, i, m)
                    &&& flat_all(new.kids().subrange(a, a + m)) == flat_all(
                        t.kids().subrange(a, b + 1),
                    )
                    &&& full_leaves(new, a, m)
                },
            }
        }),
{
    let kids = t.kids();
    let separators = t.separators();
    let a = first_beside(i);
    let b = last_beside(t, i);
    let old = kids.subrange(a, b + 1);
    let cells = flat_all(old);
    let new = leaves_spread(s, t, i);
    let groups = leaf_groups(cells);
    let m = groups.len() as int;
    let reuse = window_ids(window_of(s, kids, a, b));
    let ids = ids_for_groups(s, reuse, groups.len());
    let fresh = leaf_kids(ids, groups);
    let inner = greatest_keys(groups, (m - 1) as nat);
    let end = cells.last().key;
    leaf_window_is_rearranged(s, t, lo, hi, i);
    window_makes_groups(s, t, lo, hi, i, ids);
    assert(new == respliced(t, a, b, fresh, inner, end));
    shape_of_shared(t, a, b, fresh, inner, end);
    groups_make_full_leaves(new, a, cells, ids, end);
    assert forall|j: int| 0 <= j < fresh.len() implies (#[trigger] fresh[j]).id() == ids[j] by {}
    pages_of_shared(s, t, new, fresh, a, b, kids[i].id());
    (new, m)
}

/// The records of a leaf and its neighbours make groups, and each goes to a page.
proof fn window_makes_groups(
    s: PagerModel,
    t: Tree,
    lo: Option<Seq<u8>>,
    hi: Option<Seq<u8>>,
    i: int,
    ids: Seq<PageId>,
)
    requires
        meta_in_order(s),
        t is Node,
        ordered(t, 1, lo, hi),
        apart(t),
        0 <= i < t.kids().len(),
        stored(s, t, t.kids()[i].id()),
        flat(t.kids()[i]).len() > 0,
    ensures
        ({
            let a = first_beside(i);
            let b = last_beside(t, i);
            let w = b - a + 1;
            let cells = flat_all(t.kids().subrange(a, b + 1));
            let groups = leaf_groups(cells);
            let m = groups.len() as int;
            let (after, result) = s.redistribute_leaf_window(t.id(), t.kids()[i].id(), i as u16);
            &&& m > 0
            &&& groups[m - 1].last().key == cells.last().key
            &&& flat_all(leaf_kids(ids, groups)) == cells
            &&& forall|i: int| 0 <= i < m ==> (#[trigger] groups[i]).len() > 0
            &&& result is Ok ==> after.page_count == s.page_count + if m > w {
                m - w
            } else {
                0
            }
        }),
{
    let kids = t.kids();
    let separators = t.separators();
    let a = first_beside(i);
    let b = last_beside(t, i);
    let old = kids.subrange(a, b + 1);
    let cells = flat_all(old);
    let groups = leaf_groups(cells);
    let reuse = window_ids(window_of(s, kids, a, b));
    assert forall|j: int| 0 <= j < kids.len() implies #[trigger] kids[j] is Leaf by {
        assert(ordered(kids[j], 0, lower(separators, lo, j), upper(separators, hi, j)));
    }
    leaf_window_unfolds(s, t, i);
    kids_between(t, 1, lo, hi, a, b + 1);
    assert(old[i - a] == kids[i]);
    flat_all_around(old, i - a);
    leaf_kids_in_order(cells, ids, lower(separators, lo, a), upper(separators, hi, b));
    leaf_window_reusable(s, t, a, b, kids[i].id());
    place_leaves(s, groups, reuse, groups.len());
    assert(groups.last() == groups[groups.len() - 1]);
}

/// The first parts hold the first children, with the separators between them.
proof fn first_parts_merge(
    ids: Seq<PageId>,
    kids: Seq<Tree>,
    separators: Seq<Seq<u8>>,
    groups: Seq<NodeGroup>,
    n: int,
)
    requires
        kids.len() == separators.len() + 1,
        forall|i: int|
            0 <= i < groups.len() ==> #[trigger] node_group_cut(
                node_of_kids(kids, separators),
                groups,
                i,
            ),
        0 < n <= groups.len(),
    ensures
        0 < node_offset(groups, n) <= kids.len(),
        merged_kids(node_kids(ids, kids, separators, groups).take(n)) == kids.take(
            node_offset(groups, n),
        ),
        merged_separators(
            node_kids(ids, kids, separators, groups).take(n),
            cut_separators(separators, groups).take(n - 1),
        ) == separators.take(node_offset(groups, n) - 1),
    decreases n,
{
    let parts = node_kids(ids, kids, separators, groups);
    let cuts = cut_separators(separators, groups);
    let start = node_offset(groups, n - 1);
    let end = node_offset(groups, n);
    first_offset(Seq::empty(), groups);
    assert(node_group_cut(node_of_kids(kids, separators), groups, n - 1));
    let taken = parts.take(n);
    assert(taken.drop_last() =~= parts.take(n - 1));
    assert(taken.last() == parts[n - 1]);
    if n == 1 {
        assert(taken.drop_last() =~= Seq::<Tree>::empty());
        assert(merged_kids(Seq::<Tree>::empty()) =~= Seq::<Tree>::empty());
        assert(merged_kids(taken) =~= kids.take(end));
        assert(taken[0].separators() =~= separators.take(end - 1));
    } else {
        first_parts_merge(ids, kids, separators, groups, n - 1);
        assert(merged_kids(taken) =~= kids.take(end));
        assert(cuts.take(n - 1).drop_last() =~= cuts.take(n - 2));
        assert(cuts.take(n - 1).last() == separators[start - 1]);
        assert(merged_separators(taken, cuts.take(n - 1)) =~= separators.take(end - 1));
    }
}

/// Internal pages in a row are as full as can be: the separator behind each does not fit it.
pub open spec fn full_nodes(t: Tree, a: int, m: int) -> bool {
    &&& forall|j: int| a <= j < a + m ==> #[trigger] t.kids()[j] is Node
    &&& forall|j: int|
        a <= j < a + m - 1 ==> separator_space((#[trigger] t.kids()[j]).separators()) + 8
            + t.separators()[j].len() > INTERNAL_CAPACITY
}

/// The internal pages that groups of contents make are full.
proof fn groups_make_full_nodes(
    new: Tree,
    a: int,
    kids: Seq<Tree>,
    separators: Seq<Seq<u8>>,
    ids: Seq<PageId>,
    end: Seq<u8>,
)
    requires
        a >= 0,
        kids.len() == separators.len() + 1,
        ({
            let node = node_of_kids(kids, separators);
            let groups = internal_groups(node);
            let fresh = node_kids(ids, kids, separators, groups);
            let m = groups.len() as int;
            &&& forall|i: int| 0 <= i < m ==> #[trigger] node_group_cut(node, groups, i)
            &&& forall|j: int| 0 <= j < m ==> #[trigger] new.kids()[a + j] == fresh[j]
            &&& a + m - 1 <= new.separators().len()
            &&& forall|j: int|
                0 <= j < m && a + j < new.separators().len() ==> #[trigger] new.separators()[a + j]
                    == if j < m - 1 {
                    cut_separators(separators, groups)[j]
                } else {
                    end
                }
        }),
    ensures
        full_nodes(new, a, internal_groups(node_of_kids(kids, separators)).len() as int),
{
    let node = node_of_kids(kids, separators);
    let groups = internal_groups(node);
    let fresh = node_kids(ids, kids, separators, groups);
    let m = groups.len() as int;
    internal_groups_are_full(node);
    assert forall|j: int| a <= j < a + m implies #[trigger] new.kids()[j] is Node by {
        assert(new.kids()[a + (j - a)] == fresh[j - a]);
    }
    assert forall|j: int| a <= j < a + m - 1 implies separator_space(
        (#[trigger] new.kids()[j]).separators(),
    ) + 8 + new.separators()[j].len() > INTERNAL_CAPACITY by {
        let i = j - a;
        assert(node_group_cut(node, groups, i));
        assert(new.kids()[a + i] == fresh[i]);
        assert(new.separators()[a + i] == cut_separators(separators, groups)[i]);
        let group = groups[i];
        let cells = group.node.cells.push(
            InternalCell { child: group.node.right_child, separator: group.promoted->Some_0 },
        );
        let left = new.kids()[j].separators();
        let all = left.push(new.separators()[j]);
        space_of_separators(cells, all);
        assert(all.drop_last() =~= left);
    }
}

/// The contents of an internal page and its neighbours make groups, and each goes to a page.
proof fn window_makes_node_groups(
    s: PagerModel,
    t: Tree,
    height: nat,
    lo: Option<Seq<u8>>,
    hi: Option<Seq<u8>>,
    i: int,
    ids: Seq<PageId>,
)
    requires
        meta_in_order(s),
        t is Node,
        height > 1,
        ordered(t, height, lo, hi),
        apart(t),
        0 <= i < t.kids().len(),
        stored(s, t, t.kids()[i].id()),
    ensures
        ({
            let a = first_beside(i);
            let b = last_beside(t, i);
            let w = b - a + 1;
            let big = window_node(t, a, b);
            let node = node_of_kids(big.kids(), big.separators());
            let groups = internal_groups(node);
            let m = groups.len() as int;
            let (after, result) = s.redistribute_internal_window(
                t.id(),
                t.kids()[i].id(),
                i as u16,
            );
            &&& m > 0
            &&& big.kids().len() == big.separators().len() + 1
            &&& node_offset(groups, m) == big.kids().len()
            &&& forall|i: int| 0 <= i < m ==> #[trigger] node_group_cut(node, groups, i)
            &&& result is Ok ==> after.page_count == s.page_count + if m > w {
                m - w
            } else {
                0
            }
        }),
{
    let kids = t.kids();
    let separators = t.separators();
    let a = first_beside(i);
    let b = last_beside(t, i);
    let reuse = window_ids(window_of(s, kids, a, b));
    let big = window_node(t, a, b);
    let node = node_of_kids(big.kids(), big.separators());
    let groups = internal_groups(node);
    internal_window_unfolds(s, t, height, lo, hi, i);
    merged_in_order(t, height, lo, hi, a, b + 1, t.id());
    separators_fit(
        big,
        (height - 1) as nat,
        lower(separators, lo, a),
        upper(separators, hi, b),
    );
    internal_groups_cut(node);
    internal_window_reusable(s, t, a, b, kids[i].id());
    assert forall|i: int| 0 <= i < groups.len() implies internal_space(
        (#[trigger] groups[i]).node.cells,
    ) <= INTERNAL_CAPACITY by {
        assert(node_group_cut(node, groups, i));
    }
    place_nodes(s, groups, reuse, groups.len());
}

/// An internal page that is out of balance shares its children with the internal pages beside
/// it, under the same parent. The children and the separators between them stay in order. Each
/// page takes as many as fit it, so that the separator behind it does not. This fails only if no
/// further page can be counted.
pub proof fn nodes_share(
    s: PagerModel,
    t: Tree,
    height: nat,
    lo: Option<Seq<u8>>,
    hi: Option<Seq<u8>>,
    i: int,
) -> (r: (Tree, int))
    requires
        meta_in_order(s),
        t is Node,
        height > 1,
        ordered(t, height, lo, hi),
        apart(t),
        0 <= i < t.kids().len(),
        stored(s, t, t.kids()[i].id()),
    ensures
        ({
            let (new, m) = r;
            let (after, result) = s.redistribute_internal_window(
                t.id(),
                t.kids()[i].id(),
                i as u16,
            );
            let a = first_beside(i);
            let b = last_beside(t, i);
            match result {
                Err(e) => e == ShuError::TooManyPages && after.page_count == u32::MAX,
                Ok(_) => {
                    &&& rearranged(s, after, t, new, height, lo, hi)
                    &&& shared_by(s, after, t, new, i, m)
                    &&& merged_kids(new.kids().subrange(a, a + m)) == merged_kids(
                        t.kids().subrange(a, b + 1),
                    )
                    &&& merged_separators(
                        new.kids().subrange(a, a + m),
                        new.separators().subrange(a, a + m - 1),
                    ) == merged_separators(
                        t.kids().subrange(a, b + 1),
                        t.separators().subrange(a, b),
                    )
                    &&& full_nodes(new, a, m)
                    &&& b + 1 < t.kids().len() ==> new.separators()[a + m - 1]
                        == t.separators()[b]
                },
            }
        }),
{
    let kids = t.kids();
    let separators = t.separators();
    let a = first_beside(i);
    let b = last_beside(t, i);
    let new = nodes_spread(s, t, i);
    let big = window_node(t, a, b);
    let groups = internal_groups(node_of_kids(big.kids(), big.separators()));
    let m = groups.len() as int;
    let reuse = window_ids(window_of(s, kids, a, b));
    let ids = ids_for_groups(s, reuse, groups.len());
    let fresh = node_kids(ids, big.kids(), big.separators(), groups);
    let inner = cut_separators(big.separators(), groups);
    let end = separators[b];
    internal_window_is_rearranged(s, t, height, lo, hi, i);
    window_makes_node_groups(s, t, height, lo, hi, i, ids);
    assert(new == respliced(t, a, b, fresh, inner, end));
    shape_of_shared(t, a, b, fresh, inner, end);
    groups_make_full_nodes(new, a, big.kids(), big.separators(), ids, end);
    assert forall|j: int| 0 <= j < fresh.len() implies (#[trigger] fresh[j]).id() == ids[j] by {}
    pages_of_shared(s, t, new, fresh, a, b, kids[i].id());
    first_parts_merge(ids, big.kids(), big.separators(), groups, m);
    assert(fresh.take(m) =~= fresh);
    assert(inner.take(m - 1) =~= inner);
    assert(big.kids().take(big.kids().len() as int) =~= big.kids());
    assert(big.separators().take(big.separators().len() as int) =~= big.separators());
    assert(new.separators().subrange(a, a + m - 1) =~= inner) by {
        assert forall|j: int| 0 <= j < m - 1 implies new.separators().subrange(a, a + m - 1)[j]
            == inner[j] by {
            assert(new.separators()[a + j] == inner[j]);
        }
    }
    if b + 1 < kids.len() {
        assert(new.separators()[a + (m - 1)] == end);
    }
    (new, m)
}

/// The children of the page at the top are on pages that were added, one after the other.
pub open spec fn on_added_pages(s: PagerModel, after: PagerModel, new: Tree) -> bool {
    &&& after.page_count == s.page_count + new.kids().len()
    &&& forall|j: int|
        0 <= j < new.kids().len() ==> (#[trigger] new.kids()[j]).id().0 == s.page_count + j
}

/// A root leaf with more records than fit it becomes an internal page over leaves with these
/// records, in order. Each leaf takes as many as fit it, so that the first record of the next one
/// does not; the separator behind each is its greatest key. This fails only if no further page
/// can be counted.
pub proof fn root_leaf_is_shared_out(s: PagerModel, t: Tree) -> (new: Tree)
    requires
        t is Leaf,
        forms(s, t, 0, PageId(INITIAL_ROOT_PAGE_ID)),
        s.pages[INITIAL_ROOT_PAGE_ID].overflow == Overflow::Leaf(flat(t)),
        flat(t).len() > 0,
    ensures
        ({
            let root = PageId(INITIAL_ROOT_PAGE_ID);
            let (after, result) = s.split_root_leaf(root, s.pages[root.0]);
            match result {
                Err(e) => e == ShuError::TooManyPages && after.page_count == u32::MAX,
                Ok(_) => {
                    &&& forms(after, new, 1, root)
                    &&& over_only_if_split(s, after, new)
                    &&& on_added_pages(s, after, new)
                    &&& flat_all(new.kids()) == flat(t)
                    &&& full_leaves(new, 0, new.kids().len() as int)
                },
            }
        }),
{
    let root = PageId(INITIAL_ROOT_PAGE_ID);
    let cells = flat(t);
    let groups = leaf_groups(cells);
    let none = Seq::<PageId>::empty();
    let ids = ids_for_groups(s, none, groups.len());
    let new = split_leaf(s, t);
    root_leaf_is_split(s, t);
    leaf_kids_in_order(cells, ids, None, None);
    place_leaves(s, groups, none, groups.len());
    assert(groups.last() == groups[groups.len() - 1]);
    groups_make_full_leaves(new, 0, cells, ids, cells.last().key);
    let (after, result) = s.split_root_leaf(root, s.pages[root.0]);
    if result is Ok {
        assert(after.page_count == s.page_count + groups.len());
        assert forall|j: int| 0 <= j < new.kids().len() implies (#[trigger] new.kids()[j]).id().0
            == s.page_count + j by {
            assert(new.kids()[j].id() == ids[j]);
        }
    }
    new
}

/// A root internal page with more separators than fit it becomes an internal page over internal
/// pages with its children and separators, in order. Each page takes as many as fit it, so that
/// the separator behind it does not. This fails only if no further page can be counted.
pub proof fn root_node_is_shared_out(s: PagerModel, t: Tree, height: nat) -> (new: Tree)
    requires
        t is Node,
        forms(s, t, height, PageId(INITIAL_ROOT_PAGE_ID)),
        s.pages[INITIAL_ROOT_PAGE_ID].overflow == Overflow::Internal(
            node_of_kids(t.kids(), t.separators()),
        ),
    ensures
        ({
            let root = PageId(INITIAL_ROOT_PAGE_ID);
            let (after, result) = s.split_root_internal(root, s.pages[root.0]);
            match result {
                Err(e) => e == ShuError::TooManyPages && after.page_count == u32::MAX,
                Ok(_) => {
                    &&& forms(after, new, height + 1, root)
                    &&& over_only_if_split(s, after, new)
                    &&& on_added_pages(s, after, new)
                    &&& merged_kids(new.kids()) == t.kids()
                    &&& merged_separators(new.kids(), new.separators()) == t.separators()
                    &&& full_nodes(new, 0, new.kids().len() as int)
                },
            }
        }),
{
    let root = PageId(INITIAL_ROOT_PAGE_ID);
    let node = node_of_kids(t.kids(), t.separators());
    let groups = internal_groups(node);
    let m = groups.len() as int;
    let none = Seq::<PageId>::empty();
    let ids = ids_for_groups(s, none, groups.len());
    let new = split_node(s, t);
    let cuts = cut_separators(t.separators(), groups);
    root_node_is_split(s, t, height);
    separators_fit(t, height, None, None);
    internal_groups_cut(node);
    assert forall|i: int| 0 <= i < groups.len() implies internal_space(
        (#[trigger] groups[i]).node.cells,
    ) <= INTERNAL_CAPACITY by {
        assert(node_group_cut(node, groups, i));
    }
    place_nodes(s, groups, none, groups.len());
    groups_make_full_nodes(new, 0, t.kids(), t.separators(), ids, Seq::empty());
    first_parts_merge(ids, t.kids(), t.separators(), groups, m);
    assert(new.kids().take(m) =~= new.kids());
    assert(cuts.take(m - 1) =~= cuts);
    assert(t.kids().take(t.kids().len() as int) =~= t.kids());
    assert(t.separators().take(t.separators().len() as int) =~= t.separators());
    let (after, result) = s.split_root_internal(root, s.pages[root.0]);
    if result is Ok {
        assert(after.page_count == s.page_count + groups.len());
        assert forall|j: int| 0 <= j < new.kids().len() implies (#[trigger] new.kids()[j]).id().0
            == s.page_count + j by {
            assert(new.kids()[j].id() == ids[j]);
        }
    }
    new
}

/// A page is read, and its state is known: whether it is overfull, and whether more than half of
/// it is free.
pub open spec fn state_known(s: PagerModel, page_id: PageId, page_type: PageType) -> bool {
    &&& s.read_page(page_id) is Ok
    &&& s.read_page(page_id)->Ok_0.page_type() == Ok::<PageType, ShuError>(page_type)
    &&& s.read_page(page_id)->Ok_0.is_overflow() is Ok
    &&& s.read_page(page_id)->Ok_0.is_underflow() is Ok
}

/// A page that is not overfull is in balance if it is the root, or if no more than half of it is
/// free. Bringing it into balance changes nothing.
pub proof fn page_in_balance_is_left_alone(
    s: PagerModel,
    page_id: PageId,
    page_type: PageType,
    path: Seq<PathFrame>,
)
    requires
        state_known(s, page_id, page_type),
        s.read_page(page_id)->Ok_0.is_overflow() == Ok::<bool, ShuError>(false),
        page_id == PageId(INITIAL_ROOT_PAGE_ID) || s.read_page(page_id)->Ok_0.is_underflow()
            == Ok::<bool, ShuError>(false),
    ensures
        s.balance(page_id, path) == (s, Ok::<(), ShuError>(())),
{
}

/// An overfull root is split, whatever the path.
pub proof fn overfull_root_is_split(s: PagerModel, path: Seq<PathFrame>)
    requires
        s.read_page(PageId(INITIAL_ROOT_PAGE_ID)) is Ok,
        s.read_page(PageId(INITIAL_ROOT_PAGE_ID))->Ok_0.is_overflow() == Ok::<bool, ShuError>(
            true,
        ),
    ensures
        ({
            let root = PageId(INITIAL_ROOT_PAGE_ID);
            let page = s.read_page(root)->Ok_0;
            &&& page.page_type() == Ok::<PageType, ShuError>(PageType::Leaf) ==> s.balance(
                root,
                path,
            ) == s.split_root_leaf(root, page)
            &&& page.page_type() == Ok::<PageType, ShuError>(PageType::Internal) ==> s.balance(
                root,
                path,
            ) == s.split_root_internal(root, page)
        }),
{
}

/// Any other page that is overfull, or of which more than half is free, shares with the pages
/// beside it, and then its parent is brought into balance. Without a parent it cannot be.
pub proof fn page_out_of_balance_shares(
    s: PagerModel,
    page_id: PageId,
    page_type: PageType,
    path: Seq<PathFrame>,
)
    requires
        state_known(s, page_id, page_type),
        page_type != PageType::Meta,
        page_id != PageId(INITIAL_ROOT_PAGE_ID),
        s.read_page(page_id)->Ok_0.is_overflow() == Ok::<bool, ShuError>(true) || s.read_page(
            page_id,
        )->Ok_0.is_underflow() == Ok::<bool, ShuError>(true),
    ensures
        path.len() == 0 ==> s.balance(page_id, path) == (s, Err::<(), ShuError>(
            ShuError::Rebalance,
        )),
        path.len() > 0 ==> ({
            let frame = path.last();
            let (shared, result) = if page_type == PageType::Leaf {
                s.redistribute_leaf_window(frame.page_id, page_id, frame.child_index)
            } else {
                s.redistribute_internal_window(frame.page_id, page_id, frame.child_index)
            };
            s.balance(page_id, path) == if result is Ok {
                shared.balance(frame.page_id, path.drop_last())
            } else {
                (shared, result)
            }
        }),
{
}

/// More than half of a leaf page is free if its cells begin that far behind its pointers; more
/// than half of an internal page likewise. A page is overfull if it has an overflow with records.
pub proof fn state_is_told_right(page: PageModel)
    ensures
        page.overflow is Empty && page.read_leaf_header() is Ok ==> page.is_underflow() == Ok::<
            bool,
            ShuError,
        >(
            page.read_leaf_header()->Ok_0.record_content_start - 12
                - 2 * page.read_leaf_header()->Ok_0.record_count > 2034,
        ),
        page.overflow is Empty && page.read_internal_header() is Ok ==> page.is_underflow()
            == Ok::<bool, ShuError>(
            page.read_internal_header()->Ok_0.record_content_start - 8
                - 2 * page.read_internal_header()->Ok_0.record_count > 2036,
        ),
        page.overflow is Empty && page.page_type() is Ok ==> page.is_overflow() == Ok::<
            bool,
            ShuError,
        >(false),
        page.page_type() == Ok::<PageType, ShuError>(PageType::Leaf) ==> (
        page.overflow matches Overflow::Leaf(cells) ==> cells.len() > 0 ==> page.is_overflow()
            == Ok::<bool, ShuError>(true) && page.is_underflow() == Ok::<bool, ShuError>(false)),
        page.page_type() == Ok::<PageType, ShuError>(PageType::Internal) ==> (
        page.overflow matches Overflow::Internal(node) ==> node.cells.len() > 0
            ==> page.is_overflow() == Ok::<bool, ShuError>(true) && page.is_underflow() == Ok::<
            bool,
            ShuError,
        >(false)),
{
}

/// A put gives the record to the leaf that the search for its key ends at, and then brings that
/// leaf into balance along the path of the search. If the leaf does not take the record, the put
/// fails as the leaf did.
pub proof fn put_brings_leaf_into_balance(s: PagerModel, key: Seq<u8>, value: Seq<u8>)
    requires
        s.search(key) is Ok,
        s.read_page(s.search(key)->Ok_0.leaf_id) is Ok,
    ensures
        ({
            let found = s.search(key)->Ok_0;
            let (leaf, result) = s.read_page(found.leaf_id)->Ok_0.insert_leaf_entry(key, value);
            let given = s.store(found.leaf_id, leaf);
            &&& result is Ok ==> s.put(key, value) == given.balance(found.leaf_id, found.path)
            &&& result is Err ==> s.put(key, value) == (given, result)
        }),
{
}

/// The window around a child is made of the child, the one before it and the one behind it, as
/// far as there are any, in order and with their indices.
pub proof fn window_is_child_and_neighbours(s: PagerModel, t: Tree, i: int, loose: PageId)
    requires
        t is Node,
        apart(t),
        stored(s, t, loose),
        t.id() != loose,
        0 <= i < t.kids().len(),
    ensures
        s.load_window(t.kids()[i].id(), s.pages[t.id().0], i as u16) matches Ok(window)
            && window.len() == last_beside(t, i) - first_beside(i) + 1 && forall|j: int|
            0 <= j < window.len() ==> (#[trigger] window[j]).index == first_beside(i) + j
                && window[j].page == s.pages[t.kids()[first_beside(i) + j].id().0],
{
    window_is_loaded(s, t, i, loose);
}

} // verus!
