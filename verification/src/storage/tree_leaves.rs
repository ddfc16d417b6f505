//! What becomes of a tree when the records of neighbouring leaves are spread anew.
use crate::error::ShuError;
use crate::storage::model::LeafCell;
use crate::storage::order::{lex_le, lex_lt, lex_lt_transitive};
use crate::storage::page::{PageId, PageType};
use crate::storage::pager::PagerModel;
use crate::storage::search_laws::strictly_ascending_keys_ascend;
use crate::storage::slotted::{keys_ascend, leaf_cell_space, leaf_space, INTERNAL_CAPACITY};
use crate::storage::slotted::LEAF_CAPACITY;
use crate::storage::tree::{above, apart, below, cells_between, cells_fit, flat, flat_all, leaf_at};
use crate::storage::tree::{lower, meta_in_order, ordered, owns, page_at, separators_between};
use crate::storage::tree::{stored, upper, within, Tree};
use crate::storage::tree_groups::{first_offset, leaf_group_cut, leaf_group_fits, leaf_groups_cut};
use crate::storage::tree_groups::leaf_offset;
use crate::storage::tree_model::{gather_leaves, leaf_groups, leaf_slots, window_ids};
use crate::storage::tree_path::flat_all_around;
use crate::storage::tree_search::kids_between;
use crate::storage::tree_splice::{all_apart, any_owns, end_bound, new_slots, splice_fits};
use crate::storage::tree_step::{group_ids, rearranged, respliced, splice_rearranges};
use crate::storage::tree_store::{ids_for_groups, place_leaves, reusable};
use crate::storage::tree_window::{window_end, window_is_loaded, window_of, window_start};
use vstd::prelude::*;

verus! {

/// Groups of records as leaves.
pub open spec fn leaf_kids(ids: Seq<PageId>, groups: Seq<Seq<LeafCell>>) -> Seq<Tree> {
    Seq::new(groups.len(), |i: int| Tree::Leaf { id: ids[i], cells: groups[i] })
}

/// The greatest keys of the first `n` groups.
pub open spec fn greatest_keys(groups: Seq<Seq<LeafCell>>, n: nat) -> Seq<Seq<u8>> {
    Seq::new(n, |i: int| groups[i].last().key)
}

/// The first groups hold the first records.
proof fn first_groups_flat(cells: Seq<LeafCell>, ids: Seq<PageId>, n: int)
    requires
        forall|i: int|
            0 <= i < leaf_groups(cells).len() ==> #[trigger] leaf_group_cut(
                cells,
                leaf_groups(cells),
                i,
            ),
        0 <= n <= leaf_groups(cells).len(),
    ensures
        0 <= leaf_offset(leaf_groups(cells), n) <= cells.len(),
        flat_all(leaf_kids(ids, leaf_groups(cells)).take(n)) == cells.take(
            leaf_offset(leaf_groups(cells), n),
        ),
    decreases n,
{
    let groups = leaf_groups(cells);
    let kids = leaf_kids(ids, groups);
    first_offset(groups, Seq::empty());
    if n == 0 {
        assert(kids.take(0) =~= Seq::<Tree>::empty());
        assert(cells.take(0) =~= Seq::<LeafCell>::empty());
    } else {
        first_groups_flat(cells, ids, n - 1);
        assert(leaf_group_cut(cells, groups, n - 1));
        assert(kids.take(n).drop_last() =~= kids.take(n - 1));
        assert(kids.take(n).last() == kids[n - 1]);
        assert(flat(kids[n - 1]) == groups[n - 1]);
        let start = leaf_offset(groups, n - 1);
        let end = leaf_offset(groups, n);
        assert(cells.take(end) =~= cells.take(start) + cells.subrange(start, end));
    }
}

/// The leaves that groups of records make hold the records, and each is in order.
pub proof fn leaf_kids_in_order(
    cells: Seq<LeafCell>,
    ids: Seq<PageId>,
    lo: Option<Seq<u8>>,
    hi: Option<Seq<u8>>,
)
    requires
        cells_between(cells, lo, hi),
        cells_fit(cells),
        cells.len() > 0,
    ensures
        ({
            let groups = leaf_groups(cells);
            let kids = leaf_kids(ids, groups);
            let inner = greatest_keys(groups, (groups.len() - 1) as nat);
            &&& groups.len() > 0
            &&& flat_all(kids) == cells
            &&& groups.last().last().key == cells.last().key
            &&& separators_between(inner, lo, hi)
            &&& separators_between(inner, lo, Some(cells.last().key))
            &&& forall|i: int|
                0 <= i < kids.len() ==> ordered(
                    #[trigger] kids[i],
                    0,
                    lower(inner, lo, i),
                    upper(inner, hi, i),
                ) && ordered(
                    kids[i],
                    0,
                    lower(inner, lo, i),
                    upper(inner, Some(cells.last().key), i),
                )
            &&& forall|i: int|
                0 <= i < groups.len() ==> keys_ascend(#[trigger] groups[i]) && leaf_space(groups[i])
                    <= LEAF_CAPACITY && groups[i].len() > 0
        }),
{
    let groups = leaf_groups(cells);
    let m = groups.len() as int;
    let kids = leaf_kids(ids, groups);
    let inner = greatest_keys(groups, (groups.len() - 1) as nat);
    let end = cells.last().key;
    leaf_groups_cut(cells);
    first_groups_flat(cells, ids, m);
    assert(kids.take(m) =~= kids);
    assert(cells.take(cells.len() as int) =~= cells);
    assert(groups[m - 1].last() == cells.last()) by {
        assert(leaf_group_cut(cells, groups, m - 1));
    }
    assert forall|i: int| 0 <= i < inner.len() implies above(lo, #[trigger] inner[i]) && below(
        inner[i],
        Some(end),
    ) && below(inner[i], hi) && inner[i].len() + 8 <= INTERNAL_CAPACITY by {
        assert(leaf_group_cut(cells, groups, i));
        let at = leaf_offset(groups, i + 1) - 1;
        assert(inner[i] == cells[at].key);
        offsets_ascend(cells, groups, i + 1, m);
        assert(lex_lt(cells[at].key, cells[cells.len() - 1].key));
        if hi is Some {
            assert(lex_le(end, hi->Some_0));
            if end != hi->Some_0 {
                lex_lt_transitive(inner[i], end, hi->Some_0);
            }
        }
    }
    assert forall|i: int, j: int| 0 <= i < j < inner.len() implies lex_lt(
        #[trigger] inner[i],
        #[trigger] inner[j],
    ) by {
        assert(leaf_group_cut(cells, groups, i));
        assert(leaf_group_cut(cells, groups, j));
        offsets_ascend(cells, groups, i + 1, j + 1);
        assert(inner[i] == cells[leaf_offset(groups, i + 1) - 1].key);
        assert(inner[j] == cells[leaf_offset(groups, j + 1) - 1].key);
    }
    assert forall|i: int| 0 <= i < groups.len() implies keys_ascend(#[trigger] groups[i])
        && leaf_space(groups[i]) <= LEAF_CAPACITY && groups[i].len() > 0 by {
        assert(leaf_group_cut(cells, groups, i));
        leaf_group_fits(cells, groups, i);
        group_in_order(cells, lo, hi, i);
        strictly_ascending_keys_ascend(groups[i]);
    }
    assert forall|i: int| 0 <= i < kids.len() implies ordered(
        #[trigger] kids[i],
        0,
        lower(inner, lo, i),
        upper(inner, hi, i),
    ) && ordered(kids[i], 0, lower(inner, lo, i), upper(inner, Some(end), i)) by {
        group_in_order(cells, lo, hi, i);
    }
}

/// A group of records in order is in order between the greatest keys of the groups before it
/// and its own.
proof fn group_in_order(
    cells: Seq<LeafCell>,
    lo: Option<Seq<u8>>,
    hi: Option<Seq<u8>>,
    i: int,
)
    requires
        cells_between(cells, lo, hi),
        cells_fit(cells),
        0 <= i < leaf_groups(cells).len(),
    ensures
        ({
            let groups = leaf_groups(cells);
            let inner = greatest_keys(groups, (groups.len() - 1) as nat);
            &&& cells_between(groups[i], lower(inner, lo, i), upper(inner, hi, i))
            &&& cells_between(
                groups[i],
                lower(inner, lo, i),
                upper(inner, Some(cells.last().key), i),
            )
            &&& cells_fit(groups[i])
        }),
{
    let groups = leaf_groups(cells);
    let m = groups.len() as int;
    let inner = greatest_keys(groups, (groups.len() - 1) as nat);
    let end = cells.last().key;
    leaf_groups_cut(cells);
    let group = groups[i];
    assert(leaf_group_cut(cells, groups, i));
    let start = leaf_offset(groups, i);
    let stop = leaf_offset(groups, i + 1);
    if i > 0 {
        assert(leaf_group_cut(cells, groups, i - 1));
        assert(inner[i - 1] == cells[start - 1].key);
    }
    if i < m - 1 {
        assert(inner[i] == cells[stop - 1].key);
    }
    assert forall|k: int| 0 <= k < group.len() implies above(
        lower(inner, lo, i),
        (#[trigger] group[k]).key,
    ) && within(group[k].key, upper(inner, hi, i)) && within(
        group[k].key,
        upper(inner, Some(end), i),
    ) && leaf_cell_space(group[k]) <= LEAF_CAPACITY by {
        assert(group[k] == cells[start + k]);
        if i > 0 {
            assert(lex_lt(cells[start - 1].key, cells[start + k].key));
        }
        if i < m - 1 {
            if start + k < stop - 1 {
                assert(lex_lt(cells[start + k].key, cells[stop - 1].key));
            }
        } else {
            if start + k < cells.len() - 1 {
                assert(lex_lt(cells[start + k].key, cells[cells.len() - 1].key));
            }
        }
    }
    assert forall|k: int, l: int| 0 <= k < l < group.len() implies lex_lt(
        #[trigger] group[k].key,
        #[trigger] group[l].key,
    ) by {
        assert(lex_lt(cells[start + k].key, cells[start + l].key));
    }
}

/// A later group begins later.
proof fn offsets_ascend(cells: Seq<LeafCell>, groups: Seq<Seq<LeafCell>>, i: int, j: int)
    requires
        forall|i: int| 0 <= i < groups.len() ==> #[trigger] leaf_group_cut(cells, groups, i),
        0 <= i < j <= groups.len(),
    ensures
        leaf_offset(groups, i) < leaf_offset(groups, j),
    decreases j - i,
{
    assert(leaf_group_cut(cells, groups, j - 1));
    if i < j - 1 {
        offsets_ascend(cells, groups, i, j - 1);
    }
}

/// The records of leaves in memory are gathered.
proof fn leaves_are_gathered(
    s: PagerModel,
    kids: Seq<Tree>,
    loose: PageId,
    a: int,
    b: int,
    n: nat,
)
    requires
        0 <= a <= b < kids.len(),
        n <= b - a + 1,
        forall|i: int|
            0 <= i < kids.len() ==> #[trigger] kids[i] is Leaf && stored(s, kids[i], loose),
    ensures
        gather_leaves(window_of(s, kids, a, b), n) == Ok::<Seq<LeafCell>, ShuError>(
            flat_all(kids.subrange(a, a + n)),
        ),
    decreases n,
{
    if n == 0 {
        assert(kids.subrange(a, a) =~= Seq::<Tree>::empty());
    } else {
        leaves_are_gathered(s, kids, loose, a, b, (n - 1) as nat);
        let last = kids[a + n - 1];
        assert(kids.subrange(a, a + n).drop_last() =~= kids.subrange(a, a + n - 1));
        assert(kids.subrange(a, a + n).last() == last);
        assert(stored(s, last, loose));
        assert(window_of(s, kids, a, b)[n - 1].page == s.pages[last.id().0]);
        assert(flat_all(kids.subrange(a, a + n)) == flat_all(kids.subrange(a, a + n - 1)) + flat(
            last,
        ));
    }
}

/// A leaf in order is so with a lower bound that is not greater.
proof fn leaf_bound_lowered(
    t: Tree,
    lo: Seq<u8>,
    new_lo: Seq<u8>,
    hi: Option<Seq<u8>>,
)
    requires
        ordered(t, 0, Some(lo), hi),
        lex_le(new_lo, lo),
    ensures
        ordered(t, 0, Some(new_lo), hi),
{
    let cells = flat(t);
    assert forall|i: int| 0 <= i < cells.len() implies above(
        Some(new_lo),
        (#[trigger] cells[i]).key,
    ) by {
        assert(above(Some(lo), cells[i].key));
        if new_lo != lo {
            lex_lt_transitive(new_lo, lo, cells[i].key);
        }
    }
}

/// Spreading the records of a leaf and its neighbours anew takes the records of the window,
/// writes groups of them to pages, and replaces the children in the parent's list.
pub proof fn leaf_window_unfolds(s: PagerModel, t: Tree, i: int)
    requires
        t is Node,
        apart(t),
        0 <= i < t.kids().len(),
        stored(s, t, t.kids()[i].id()),
        forall|j: int| 0 <= j < t.kids().len() ==> #[trigger] t.kids()[j] is Leaf,
    ensures
        t.id() != t.kids()[i].id(),
        t.kids().len() <= 510,
        ({
            let last = t.separators().len() as int;
            let a = window_start(i);
            let b = window_end(i, last);
            let groups = leaf_groups(flat_all(t.kids().subrange(a, b + 1)));
            let (placed, result) = s.place_leaf_groups(
                groups,
                window_ids(window_of(s, t.kids(), a, b)),
                groups.len(),
            );
            s.redistribute_leaf_window(t.id(), t.kids()[i].id(), i as u16) == match result {
                Err(e) => (placed, Err::<(), ShuError>(e)),
                Ok(ids) => placed.replace_children(
                    t.id(),
                    a as u16,
                    b as u16,
                    leaf_slots(ids, groups, b == last),
                ),
            }
        }),
{
    let kids = t.kids();
    let separators = t.separators();
    let last = separators.len() as int;
    let x = kids[i].id();
    let a = window_start(i);
    let b = window_end(i, last);
    let window = window_of(s, kids, a, b);
    assert(owns(kids[i], x));
    assert(!owns(kids[i], t.id()));
    window_is_loaded(s, t, i, x);
    assert forall|j: int| 0 <= j < kids.len() implies #[trigger] kids[j] is Leaf && stored(
        s,
        kids[j],
        x,
    ) by {}
    leaves_are_gathered(s, kids, x, a, b, window.len());
}

/// The pages of the leaves of a window can be used again.
pub proof fn leaf_window_reusable(s: PagerModel, t: Tree, a: int, b: int, loose: PageId)
    requires
        t is Node,
        apart(t),
        stored(s, t, loose),
        0 <= a <= b < t.kids().len(),
        forall|j: int| 0 <= j < t.kids().len() ==> #[trigger] t.kids()[j] is Leaf,
    ensures
        reusable(s, window_ids(window_of(s, t.kids(), a, b)), PageType::Leaf),
{
    let reuse = window_ids(window_of(s, t.kids(), a, b));
    group_ids(s, t, a, b, 0, loose);
    assert forall|j: int| 0 <= j < reuse.len() implies page_at(s, #[trigger] reuse[j])
        && s.pages[reuse[j].0].page_type() == Ok::<PageType, ShuError>(PageType::Leaf) by {
        assert(stored(s, t.kids()[a + j], loose));
    }
}

/// The tree after the records of a leaf and its neighbours were spread anew.
pub open spec fn leaves_spread(s: PagerModel, t: Tree, i: int) -> Tree {
    let a = window_start(i);
    let b = window_end(i, t.separators().len() as int);
    let cells = flat_all(t.kids().subrange(a, b + 1));
    let groups = leaf_groups(cells);
    let ids = ids_for_groups(s, window_ids(window_of(s, t.kids(), a, b)), groups.len());
    respliced(
        t,
        a,
        b,
        leaf_kids(ids, groups),
        greatest_keys(groups, (groups.len() - 1) as nat),
        cells.last().key,
    )
}

/// Spreading the records of a leaf and its neighbours anew rearranges the tree of their
/// parent, unless no further page can be counted.
pub proof fn leaf_window_is_rearranged(
    s: PagerModel,
    t: Tree,
    lo: Option<Seq<u8>>,
    hi: Option<Seq<u8>>,
    i: int,
)
    requires
        meta_in_order(s),
        t is Node,
        ordered(t, 1, lo, hi),
        apart(t),
        0 <= i < t.kids().len(),
        stored(s, t, t.kids()[i].id()),
        flat(t.kids()[i]).len() > 0,
    ensures
        ({
            let (after, result) = s.redistribute_leaf_window(
                t.id(),
                t.kids()[i].id(),
                i as u16,
            );
            match result {
                Err(e) => e == ShuError::TooManyPages && after.page_count == u32::MAX,
                Ok(_) => rearranged(s, after, t, leaves_spread(s, t, i), 1, lo, hi),
            }
        }),
{
    let kids = t.kids();
    let separators = t.separators();
    let last = separators.len() as int;
    let x = kids[i].id();
    let a = window_start(i);
    let b = window_end(i, last);
    let old = kids.subrange(a, b + 1);
    assert forall|j: int| 0 <= j < kids.len() implies #[trigger] kids[j] is Leaf by {
        assert(ordered(kids[j], 0, lower(separators, lo, j), upper(separators, hi, j)));
    }
    leaf_window_unfolds(s, t, i);
    // The records of the window.
    let cells = flat_all(old);
    let from = lower(separators, lo, a);
    kids_between(t, 1, lo, hi, a, b + 1);
    assert(old[i - a] == kids[i]);
    flat_all_around(old, i - a);
    assert(cells.len() > 0);
    // The groups and their pages.
    let groups = leaf_groups(cells);
    let m = groups.len();
    let reuse = window_ids(window_of(s, kids, a, b));
    let ids = ids_for_groups(s, reuse, m);
    let new = leaf_kids(ids, groups);
    let inner = greatest_keys(groups, (m - 1) as nat);
    let end = cells.last().key;
    leaf_kids_in_order(cells, ids, from, upper(separators, hi, b));
    leaf_window_reusable(s, t, a, b, x);
    place_leaves(s, groups, reuse, m);
    let (placed, result) = s.place_leaf_groups(groups, reuse, m);
    if result is Ok {
        group_ids(s, t, a, b, m, x);
        assert(leaf_slots(ids, groups, b == last) =~= new_slots(
            new,
            inner,
            end_bound(separators, b, end, None),
        )) by {
            assert(groups.last() == groups[m - 1]);
        }
        leaf_splice_fits(t, lo, hi, a, b, ids);
        assert(any_owns(old, x)) by {
            assert(owns(kids[i], x));
        }
        leaves_placed(placed, ids, groups, t.id());
        assert forall|j: int, y: PageId| 0 <= j < new.len() && #[trigger] owns(
            new[j],
            y,
        ) implies any_owns(old, y) || y.0 >= s.page_count by {
            assert(y == ids[j]);
        }
        splice_rearranges(s, placed, t, 1, lo, hi, a, b, new, inner, end, ids, x);
    }
}

/// The leaves that the records of a window make are in order where they go.
proof fn leaf_splice_fits(
    t: Tree,
    lo: Option<Seq<u8>>,
    hi: Option<Seq<u8>>,
    a: int,
    b: int,
    ids: Seq<PageId>,
)
    requires
        t is Node,
        ordered(t, 1, lo, hi),
        0 <= a <= b < t.kids().len(),
        flat_all(t.kids().subrange(a, b + 1)).len() > 0,
    ensures
        ({
            let cells = flat_all(t.kids().subrange(a, b + 1));
            let groups = leaf_groups(cells);
            splice_fits(
                t,
                1,
                lo,
                hi,
                a,
                b,
                leaf_kids(ids, groups),
                greatest_keys(groups, (groups.len() - 1) as nat),
                cells.last().key,
            )
        }),
{
    let kids = t.kids();
    let separators = t.separators();
    let cells = flat_all(kids.subrange(a, b + 1));
    let from = lower(separators, lo, a);
    let end = cells.last().key;
    kids_between(t, 1, lo, hi, a, b + 1);
    leaf_kids_in_order(cells, ids, from, upper(separators, hi, b));
    assert(cells[cells.len() - 1].key == end);
    if b < separators.len() {
        let bound = separators[b];
        assert(within(end, Some(bound)));
        assert(ordered(kids[b + 1], 0, Some(bound), upper(separators, hi, b + 1)));
        leaf_bound_lowered(kids[b + 1], bound, end, upper(separators, hi, b + 1));
    }
}

/// Leaves on pages of their own hold no page twice and are in memory.
pub proof fn leaves_placed(
    placed: PagerModel,
    ids: Seq<PageId>,
    groups: Seq<Seq<LeafCell>>,
    loose: PageId,
)
    requires
        ids.len() == groups.len(),
        ids.no_duplicates(),
        forall|i: int|
            0 <= i < groups.len() ==> #[trigger] leaf_at(placed, ids[i], groups[i], false),
    ensures
        all_apart(leaf_kids(ids, groups)),
        forall|j: int|
            0 <= j < groups.len() ==> stored(placed, #[trigger] leaf_kids(ids, groups)[j], loose),
{
    let new = leaf_kids(ids, groups);
    assert forall|j: int, k: int, y: PageId| 0 <= j < k < new.len() implies !(#[trigger] owns(
        new[j],
        y,
    ) && #[trigger] owns(new[k], y)) by {
        assert(ids[j] != ids[k]);
    }
    assert forall|j: int| 0 <= j < new.len() implies stored(placed, #[trigger] new[j], loose) by {
        assert(leaf_at(placed, ids[j], groups[j], false));
    }
}

} // verus!
