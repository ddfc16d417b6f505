//! A record that fits no page is refused.
use crate::error::ShuError;
use crate::storage::header::INITIAL_ROOT_PAGE_ID;
use crate::storage::model::LeafCell;
use crate::storage::order::lex_lt;
use crate::storage::page::{Overflow, PageId, PageModel, PageType};
use crate::storage::pager::{PagerModel, META_PAGE_ID};
use crate::storage::search_laws::{keys_strictly_ascend, records, strictly_ascending_keys_ascend};
use crate::storage::search_laws::upsert_is_right;
use crate::storage::slotted::{keys_ascend, leaf_cell_space, leaf_space, upsert, LEAF_CAPACITY};
use crate::storage::tree::{apart, cells_between, flat, flat_all, forms, lower, meta_in_order};
use crate::storage::tree::{ordered, owns, page_at, says, separators_between, stored, upper, Tree};
use crate::storage::tree_groups::{first_offset, leaf_group_cut, leaf_groups_cut, leaf_offset};
use crate::storage::tree_laws::{leaf_takes_record, put_gives_value, root_only_at_top};
use crate::storage::tree_laws::{says_unless_over, upsert_between};
use crate::storage::tree_leaves::{leaf_window_reusable, leaf_window_unfolds};
use crate::storage::tree_model::{leaf_groups, window_ids, PathFrame};
use crate::storage::tree_path::{flat_all_around, hi_at, lo_at, part, part_apart, part_ordered};
use crate::storage::tree_path::{part_stored, path_to, with, with_apart, with_at_place, with_kid};
use crate::storage::tree_path::with_stored;
use crate::storage::tree_search::{neighbours_between, search_ends_at_leaf};
use crate::storage::tree_step::owned_pages_present;
use crate::storage::tree_store::{allocate_adds_page, place_leaves, reusable};
use crate::storage::tree_window::{window_end, window_of, window_start};
use vstd::prelude::*;

verus! {

/// The answer to a record that fits no page: it is refused for that, unless it is refused
/// because no further page can be counted.
pub open spec fn refused(after: PagerModel, result: Result<(), ShuError>) -> bool {
    result matches Err(e) && (e is PageFull || (e == ShuError::TooManyPages && after.page_count
        == u32::MAX))
}

/// Records take at least the space of one of them.
proof fn space_of_member(cells: Seq<LeafCell>, i: int)
    requires
        0 <= i < cells.len(),
    ensures
        leaf_cell_space(cells[i]) <= leaf_space(cells),
    decreases cells.len(),
{
    if i < cells.len() - 1 {
        space_of_member(cells.drop_last(), i);
    }
}

/// The group that a record is in.
proof fn group_of_record(cells: Seq<LeafCell>, at: int, n: int) -> (g: int)
    requires
        0 <= n <= leaf_groups(cells).len(),
        0 <= at < leaf_offset(leaf_groups(cells), n),
        forall|i: int|
            0 <= i < leaf_groups(cells).len() ==> #[trigger] leaf_group_cut(
                cells,
                leaf_groups(cells),
                i,
            ),
    ensures
        0 <= g < n,
        leaf_offset(leaf_groups(cells), g) <= at < leaf_offset(leaf_groups(cells), g + 1),
    decreases n,
{
    let groups = leaf_groups(cells);
    first_offset(groups, Seq::empty());
    assert(n > 0);
    assert(leaf_group_cut(cells, groups, n - 1));
    if at >= leaf_offset(groups, n - 1) {
        n - 1
    } else {
        group_of_record(cells, at, n - 1)
    }
}

/// The first group, from `from` on, that does not fit a page.
proof fn first_large(groups: Seq<Seq<LeafCell>>, from: int, large: int) -> (k: int)
    requires
        0 <= from <= large < groups.len(),
        leaf_space(groups[large]) > LEAF_CAPACITY,
    ensures
        from <= k < groups.len(),
        leaf_space(groups[k]) > LEAF_CAPACITY,
        forall|i: int| from <= i < k ==> leaf_space(#[trigger] groups[i]) <= LEAF_CAPACITY,
    decreases large - from,
{
    if leaf_space(groups[from]) > LEAF_CAPACITY {
        from
    } else {
        first_large(groups, from + 1, large)
    }
}

/// Among the groups of records of which one fits no page, one fits no page.
proof fn large_group(cells: Seq<LeafCell>, at: int) -> (k: int)
    requires
        keys_strictly_ascend(cells),
        0 <= at < cells.len(),
        leaf_cell_space(cells[at]) > LEAF_CAPACITY,
    ensures
        ({
            let groups = leaf_groups(cells);
            &&& 0 <= k < groups.len()
            &&& leaf_space(groups[k]) > LEAF_CAPACITY
            &&& forall|i: int|
                0 <= i <= k ==> keys_ascend(#[trigger] groups[i]) && (i < k ==> leaf_space(
                    groups[i],
                ) <= LEAF_CAPACITY)
        }),
{
    let groups = leaf_groups(cells);
    leaf_groups_cut(cells);
    let g = group_of_record(cells, at, groups.len() as int);
    assert(leaf_group_cut(cells, groups, g));
    assert(groups[g][at - leaf_offset(groups, g)] == cells[at]);
    space_of_member(groups[g], at - leaf_offset(groups, g));
    let k = first_large(groups, 0, g);
    assert forall|i: int| 0 <= i <= k implies keys_ascend(#[trigger] groups[i]) && (i < k
        ==> leaf_space(groups[i]) <= LEAF_CAPACITY) by {
        assert(leaf_group_cut(cells, groups, i));
        let start = leaf_offset(groups, i);
        let group = groups[i];
        assert forall|a: int, b: int|
            0 <= a < b < group.len() implies lex_lt(
            #[trigger] group[a].key,
            #[trigger] group[b].key,
        ) by {
            assert(lex_lt(cells[start + a].key, cells[start + b].key));
        }
        strictly_ascending_keys_ascend(group);
    }
    k
}

/// Groups of which one fits no page do not all go to pages.
proof fn large_group_refused(
    s: PagerModel,
    groups: Seq<Seq<LeafCell>>,
    reuse: Seq<PageId>,
    k: int,
    n: nat,
)
    requires
        meta_in_order(s),
        reusable(s, reuse, PageType::Leaf),
        0 <= k < n <= groups.len(),
        leaf_space(groups[k]) > LEAF_CAPACITY,
        forall|i: int|
            0 <= i <= k ==> keys_ascend(#[trigger] groups[i]) && (i < k ==> leaf_space(groups[i])
                <= LEAF_CAPACITY),
    ensures
        s.place_leaf_groups(groups, reuse, n).1 matches Err(e) && (e is PageFull || (e
            == ShuError::TooManyPages && s.place_leaf_groups(groups, reuse, n).0.page_count
            == u32::MAX)),
    decreases n,
{
    if k < n - 1 {
        large_group_refused(s, groups, reuse, k, (n - 1) as nat);
    } else {
        place_leaves(s, groups, reuse, k as nat);
        let (placed, result) = s.place_leaf_groups(groups, reuse, k as nat);
        if result is Ok {
            let ids = result->Ok_0;
            let (ready, result) = placed.page_for_group(reuse, k, PageType::Leaf);
            if k < reuse.len() {
                assert(!ids.contains(reuse[k]));
                assert(s.pages.contains_key(reuse[k].0));
            } else if placed.page_count < u32::MAX {
                allocate_adds_page(placed, PageType::Leaf);
            }
            if result is Ok {
                let id = result->Ok_0;
                assert(page_at(ready, id));
                assert(keys_ascend(groups[k]));
                assert(ready.rewrite_leaf(id, groups[k]).1 is Err);
            }
        }
    }
}

/// A window of leaves with a record that fits no page cannot be spread anew.
proof fn large_window_refused(
    s: PagerModel,
    t: Tree,
    lo: Option<Seq<u8>>,
    hi: Option<Seq<u8>>,
    i: int,
    at: int,
)
    requires
        meta_in_order(s),
        t is Node,
        apart(t),
        0 <= i < t.kids().len(),
        stored(s, t, t.kids()[i].id()),
        forall|j: int| 0 <= j < t.kids().len() ==> #[trigger] t.kids()[j] is Leaf,
        separators_between(t.separators(), lo, hi),
        forall|j: int|
            0 <= j < t.kids().len() ==> cells_between(
                flat(#[trigger] t.kids()[j]),
                lower(t.separators(), lo, j),
                upper(t.separators(), hi, j),
            ),
        0 <= at < flat(t.kids()[i]).len(),
        leaf_cell_space(flat(t.kids()[i])[at]) > LEAF_CAPACITY,
    ensures
        ({
            let (after, result) = s.redistribute_leaf_window(
                t.id(),
                t.kids()[i].id(),
                i as u16,
            );
            refused(after, result)
        }),
{
    let kids = t.kids();
    let last = t.separators().len() as int;
    let a = window_start(i);
    let b = window_end(i, last);
    let old = kids.subrange(a, b + 1);
    let cells = flat_all(old);
    leaf_window_unfolds(s, t, i);
    leaf_window_reusable(s, t, a, b, kids[i].id());
    neighbours_between(kids, t.separators(), lo, hi, a, b + 1);
    assert(old[i - a] == kids[i]);
    flat_all_around(old, i - a);
    let before = flat_all(old.take(i - a)).len();
    assert(cells[before + at] == flat(kids[i])[at]);
    let k = large_group(cells, before + at);
    let groups = leaf_groups(cells);
    large_group_refused(s, groups, window_ids(window_of(s, kids, a, b)), k, groups.len());
}

/// A record that fits no page is not put into a database that is whole.
pub proof fn large_record_refused(
    s: PagerModel,
    values: Map<Seq<u8>, Seq<u8>>,
    key: Seq<u8>,
    value: Seq<u8>,
)
    requires
        says(s, values),
        leaf_cell_space(LeafCell { key, value }) > LEAF_CAPACITY,
    ensures
        refused(s.put(key, value).0, s.put(key, value).1),
{
    let meta = PageId(META_PAGE_ID);
    let root = PageId(INITIAL_ROOT_PAGE_ID);
    let (t, height) = choose|t: Tree, height: nat| #[trigger]
        forms(s, t, height, meta) && records(flat(t)) == values;
    let place = search_ends_at_leaf(s, t, height, key);
    let leaf = part(t, place);
    let x = leaf.id();
    let cells = flat(leaf);
    part_ordered(t, place, height);
    part_stored(s, t, place, meta);
    owned_pages_present(s, t, meta);
    leaf_takes_record(s, x, cells, key, value);
    let page = s.pages[x.0].insert_leaf_entry(key, value).0;
    let after = s.store(x, page);
    let changed = upsert(cells, key, value);
    let new = Tree::Leaf { id: x, cells: changed };
    let big = LeafCell { key, value };
    upsert_is_right(cells, key, value);
    upsert_between(cells, key, value, lo_at(t, place), hi_at(t, place));
    assert(changed.contains(big));
    let at = choose|at: int| 0 <= at < changed.len() && changed[at] == big;
    space_of_member(changed, at);
    assert(page.overflow == Overflow::Leaf(changed));
    let path = path_to(t, place);
    assert(s.put(key, value) == after.balance(x, path));
    assert(after.read_page(x) == Ok::<PageModel, ShuError>(page));
    assert(page.is_overflow() == Ok::<bool, ShuError>(true));
    assert(meta_in_order(after));
    if place.len() == 0 {
        let k = large_group(changed, at);
        let groups = leaf_groups(changed);
        large_group_refused(after, groups, Seq::empty(), k, groups.len());
        assert(after.balance(x, path) == after.split_root_leaf(x, page));
    } else {
        root_only_at_top(t, place);
        assert(owns(leaf, x));
        let parent = place.drop_last();
        let node = part(t, parent);
        let i = place.last();
        let lo = lo_at(t, parent);
        let hi = hi_at(t, parent);
        part_ordered(t, parent, height);
        let whole = with(t, place, new);
        let window = with_kid(node, i, new);
        with_apart(t, place, new);
        assert(!owns(t, meta)) by {
            if owns(t, meta) {
                assert(page_at(s, meta));
            }
        }
        assert forall|y: PageId| #[trigger] owns(t, y) && !owns(
            leaf,
            y,
        ) implies after.pages.contains_key(y.0) && after.pages[y.0] == s.pages[y.0] by {
            assert(page_at(s, y));
        }
        with_stored(s, after, t, place, new, meta, x);
        with_at_place(t, parent, window);
        assert(part(whole, parent) == window);
        part_apart(whole, parent);
        part_stored(after, whole, parent, x);
        assert forall|j: int| 0 <= j < window.kids().len() implies #[trigger] window.kids()[j]
            is Leaf && cells_between(
            flat(window.kids()[j]),
            lower(window.separators(), lo, j),
            upper(window.separators(), hi, j),
        ) by {
            if j != i {
                assert(ordered(
                    node.kids()[j],
                    0,
                    lower(node.separators(), lo, j),
                    upper(node.separators(), hi, j),
                ));
            }
        }
        large_window_refused(after, window, lo, hi, i, at);
        assert(path.last() == (PathFrame { page_id: node.id(), child_index: i as u16 }));
        let (shared, result) = after.redistribute_leaf_window(node.id(), x, i as u16);
        assert(after.balance(x, path) == (shared, result));
    }
}

/// The answer to a put. A record that fits no page is refused. Any other is put, unless no
/// further page can be counted. The database is whole afterwards, with the value for the key,
/// and the same for every other; that is, unless the page at the top was split and has more
/// separators than fit it, although its children are as few as can be.
pub open spec fn answers_put(
    s: PagerModel,
    after: PagerModel,
    result: Result<(), ShuError>,
    values: Map<Seq<u8>, Seq<u8>>,
    key: Seq<u8>,
    value: Seq<u8>,
) -> bool {
    if leaf_cell_space(LeafCell { key, value }) > LEAF_CAPACITY {
        refused(after, result)
    } else {
        match result {
            Err(e) => e == ShuError::TooManyPages && after.page_count == u32::MAX,
            Ok(_) => {
                &&& says_unless_over(s, after, values.insert(key, value))
                &&& after.pages[INITIAL_ROOT_PAGE_ID].overflow is Empty ==> says(
                    after,
                    values.insert(key, value),
                )
            },
        }
    }
}

/// A put into a database that is whole is answered so.
pub proof fn put_is_answered(
    s: PagerModel,
    values: Map<Seq<u8>, Seq<u8>>,
    key: Seq<u8>,
    value: Seq<u8>,
)
    requires
        says(s, values),
    ensures
        answers_put(s, s.put(key, value).0, s.put(key, value).1, values, key, value),
{
    if leaf_cell_space(LeafCell { key, value }) > LEAF_CAPACITY {
        large_record_refused(s, values, key, value);
    } else {
        put_gives_value(s, values, key, value);
    }
}

} // verus!
