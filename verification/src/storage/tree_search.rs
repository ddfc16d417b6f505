//! What a search of a tree in order finds.
use crate::error::ShuError;
use crate::storage::model::{InternalCell, InternalNode, LeafCell};
use crate::storage::order::{lex_le, lex_lt, lex_lt_irreflexive, lex_lt_transitive};
use crate::storage::page::{Overflow, PageId, PageModel, PageType};
use crate::storage::pager::{PagerModel, META_PAGE_ID};
use crate::storage::search_laws::{belongs_to_child, child_search_is_right};
use crate::storage::search_laws::{leaf_search_searches_records, records, records_at};
use crate::storage::search_laws::{keys_strictly_ascend, search_is_right, separators_ascend};
use crate::storage::slotted::{internal_space, leaf_cell_space, leaf_space, search_cells};
use crate::storage::slotted::{KeyPosition, LeafSearchResult, INTERNAL_CAPACITY, LEAF_CAPACITY};
use crate::storage::slotted_laws::{internal_space_monotonic, leaf_space_monotonic};
use crate::storage::tree::{above, apart, below, cells_between, cells_fit, flat, flat_all, forms};
use crate::storage::tree::{leaf_settled, lower, node_of_kids, node_settled, ordered, owns, says};
use crate::storage::tree::{separators_between, stored, upper, within, Tree};
use crate::storage::tree_model::{child_of, PathFrame, SearchModel};
use crate::storage::tree_path::{flat_all_one, flat_around, has_place, hi_at, left_of, lo_at};
use crate::storage::tree_path::{owns_kid, part, part_ordered, part_stored, path_to, right_of};
use vstd::prelude::*;

verus! {

/// Records on two sides of a bound, put together.
pub proof fn concat_between(
    a: Seq<LeafCell>,
    b: Seq<LeafCell>,
    lo: Option<Seq<u8>>,
    mid: Seq<u8>,
    hi: Option<Seq<u8>>,
)
    requires
        cells_between(a, lo, Some(mid)),
        cells_between(b, Some(mid), hi),
        above(lo, mid),
        within(mid, hi),
    ensures
        cells_between(a + b, lo, hi),
{
    let c = a + b;
    assert forall|i: int| 0 <= i < c.len() implies above(lo, (#[trigger] c[i]).key) && within(
        c[i].key,
        hi,
    ) by {
        if i < a.len() {
            assert(lex_le(a[i].key, mid));
            if hi is Some {
                let bound = hi->Some_0;
                if a[i].key != mid && mid != bound {
                    lex_lt_transitive(a[i].key, mid, bound);
                }
            }
        } else {
            let key = b[i - a.len()].key;
            assert(lex_lt(mid, key));
            if lo is Some {
                let bound = lo->Some_0;
                lex_lt_transitive(bound, mid, key);
            }
        }
    }
    assert forall|i: int, j: int| 0 <= i < j < c.len() implies lex_lt(
        #[trigger] c[i].key,
        #[trigger] c[j].key,
    ) by {
        if j < a.len() {
            assert(lex_lt(a[i].key, a[j].key));
        } else if i >= a.len() {
            assert(lex_lt(b[i - a.len()].key, b[j - a.len()].key));
        } else {
            let x = a[i].key;
            let y = b[j - a.len()].key;
            assert(lex_le(x, mid) && lex_lt(mid, y));
            if x != mid {
                lex_lt_transitive(x, mid, y);
            }
        }
    }
}

/// The records of neighbouring trees ascend between the separators around them.
pub proof fn neighbours_between(
    kids: Seq<Tree>,
    separators: Seq<Seq<u8>>,
    lo: Option<Seq<u8>>,
    hi: Option<Seq<u8>>,
    m: int,
    n: int,
)
    requires
        kids.len() == separators.len() + 1,
        separators_between(separators, lo, hi),
        0 <= m < n <= kids.len(),
        forall|i: int|
            m <= i < n ==> cells_between(
                flat(#[trigger] kids[i]),
                lower(separators, lo, i),
                upper(separators, hi, i),
            ),
    ensures
        cells_between(
            flat_all(kids.subrange(m, n)),
            lower(separators, lo, m),
            upper(separators, hi, n - 1),
        ),
    decreases n - m,
{
    let last = kids[n - 1];
    if m == n - 1 {
        assert(kids.subrange(m, n) =~= seq![last]);
        flat_all_one(last);
    } else {
        neighbours_between(kids, separators, lo, hi, m, n - 1);
        assert(kids.subrange(m, n).drop_last() =~= kids.subrange(m, n - 1));
        assert(kids.subrange(m, n).last() == last);
        let mid = separators[n - 2];
        assert(above(lower(separators, lo, m), mid));
        assert(within(mid, upper(separators, hi, n - 1)));
        concat_between(
            flat_all(kids.subrange(m, n - 1)),
            flat(last),
            lower(separators, lo, m),
            mid,
            upper(separators, hi, n - 1),
        );
    }
}

/// The records of neighbouring trees fit a page each if those of each tree do.
proof fn neighbours_fit(kids: Seq<Tree>)
    requires
        forall|i: int| 0 <= i < kids.len() ==> cells_fit(flat(#[trigger] kids[i])),
    ensures
        cells_fit(flat_all(kids)),
    decreases kids.len(),
{
    if kids.len() > 0 {
        let first = kids.drop_last();
        assert forall|i: int| 0 <= i < first.len() implies cells_fit(flat(#[trigger] first[i])) by {
            assert(first[i] == kids[i]);
        }
        neighbours_fit(first);
        assert(cells_fit(flat(kids[kids.len() - 1])));
        let all = flat_all(kids);
        let n = flat_all(first).len();
        assert forall|i: int| 0 <= i < all.len() implies leaf_cell_space(#[trigger] all[i])
            <= LEAF_CAPACITY by {
            if i < n {
                assert(all[i] == flat_all(first)[i]);
            } else {
                assert(all[i] == flat(kids.last())[i - n]);
            }
        }
    }
}

/// The records of neighbouring children ascend between the separators around them.
pub proof fn kids_between(
    t: Tree,
    height: nat,
    lo: Option<Seq<u8>>,
    hi: Option<Seq<u8>>,
    m: int,
    n: int,
)
    requires
        t is Node,
        ordered(t, height, lo, hi),
        0 <= m < n <= t.kids().len(),
    ensures
        cells_between(
            flat_all(t.kids().subrange(m, n)),
            lower(t.separators(), lo, m),
            upper(t.separators(), hi, n - 1),
        ),
        cells_fit(flat_all(t.kids().subrange(m, n))),
    decreases height, 0nat,
{
    let kids = t.kids();
    let separators = t.separators();
    assert forall|i: int| m <= i < n implies cells_between(
        flat(#[trigger] kids[i]),
        lower(separators, lo, i),
        upper(separators, hi, i),
    ) && cells_fit(flat(kids[i])) by {
        flat_between(
            kids[i],
            (height - 1) as nat,
            lower(separators, lo, i),
            upper(separators, hi, i),
        );
    }
    neighbours_between(kids, separators, lo, hi, m, n);
    let some = kids.subrange(m, n);
    assert forall|i: int| 0 <= i < some.len() implies cells_fit(flat(#[trigger] some[i])) by {
        assert(some[i] == kids[m + i]);
    }
    neighbours_fit(some);
}

/// The records of a tree in order ascend between its bounds.
pub proof fn flat_between(t: Tree, height: nat, lo: Option<Seq<u8>>, hi: Option<Seq<u8>>)
    requires
        ordered(t, height, lo, hi),
    ensures
        cells_between(flat(t), lo, hi),
        cells_fit(flat(t)),
    decreases height, 1nat,
{
    match t {
        Tree::Leaf { .. } => {},
        Tree::Node { kids, separators, .. } => {
            kids_between(t, height, lo, hi, 0, kids.len() as int);
            assert(kids.subrange(0, kids.len() as int) =~= kids);
        },
    }
}

/// No record has a key that is greater than the bound; without one there is no record.
pub open spec fn none_above(cells: Seq<LeafCell>, bound: Option<Seq<u8>>) -> bool {
    forall|i: int|
        0 <= i < cells.len() ==> bound is Some && lex_le((#[trigger] cells[i]).key, bound->Some_0)
}

/// Every record has a key that is greater than the bound; without one there is no record.
pub open spec fn all_above(cells: Seq<LeafCell>, bound: Option<Seq<u8>>) -> bool {
    forall|i: int|
        0 <= i < cells.len() ==> bound is Some && lex_lt(bound->Some_0, (#[trigger] cells[i]).key)
}

/// The records left of a place are not greater than its lower bound, and those right of it
/// are greater than its upper bound.
pub proof fn sides(t: Tree, place: Seq<int>, height: nat)
    requires
        has_place(t, place),
        ordered(t, height, None, None),
    ensures
        none_above(left_of(t, place), lo_at(t, place)),
        all_above(right_of(t, place), hi_at(t, place)),
    decreases place.len(),
{
    if place.len() > 0 {
        let parent = place.drop_last();
        let at = place.last();
        let node = part(t, parent);
        let kids = node.kids();
        let separators = node.separators();
        let lo = lo_at(t, parent);
        let hi = hi_at(t, parent);
        let h = (height - parent.len()) as nat;
        part_ordered(t, parent, height);
        sides(t, parent, height);
        let outer = left_of(t, parent);
        let inner = flat_all(kids.take(at));
        if at == 0 {
            assert(kids.take(0) =~= Seq::<Tree>::empty());
            assert(left_of(t, place) =~= outer);
            assert(lo_at(t, place) == lo);
        } else {
            kids_between(node, h, lo, hi, 0, at);
            assert(kids.subrange(0, at) =~= kids.take(at));
            let bound = separators[at - 1];
            assert(above(lo, bound));
            assert(lo_at(t, place) == Some(bound));
            let all = left_of(t, place);
            assert forall|i: int| 0 <= i < all.len() implies lex_le(
                (#[trigger] all[i]).key,
                bound,
            ) by {
                if i < outer.len() {
                    let key = outer[i].key;
                    assert(lex_le(key, lo->Some_0));
                    if key != lo->Some_0 {
                        lex_lt_transitive(key, lo->Some_0, bound);
                    }
                } else {
                    assert(all[i] == inner[i - outer.len()]);
                }
            }
        }
        let outer = right_of(t, parent);
        let inner = flat_all(kids.skip(at + 1));
        if at == separators.len() {
            assert(kids.skip(at + 1) =~= Seq::<Tree>::empty());
            assert(right_of(t, place) =~= outer);
            assert(hi_at(t, place) == hi);
        } else {
            kids_between(node, h, lo, hi, at + 1, kids.len() as int);
            assert(kids.subrange(at + 1, kids.len() as int) =~= kids.skip(at + 1));
            let bound = separators[at];
            assert(below(bound, hi));
            assert(hi_at(t, place) == Some(bound));
            let all = right_of(t, place);
            assert forall|i: int| 0 <= i < all.len() implies lex_lt(
                bound,
                (#[trigger] all[i]).key,
            ) by {
                if i < inner.len() {
                    assert(all[i] == inner[i]);
                } else {
                    let key = outer[i - inner.len()].key;
                    assert(all[i] == outer[i - inner.len()]);
                    lex_lt_transitive(bound, hi->Some_0, key);
                }
            }
        }
    }
}

/// The records in a leaf page's body are few.
pub proof fn settled_leaf_len(cells: Seq<LeafCell>)
    requires
        leaf_space(cells) <= LEAF_CAPACITY,
    ensures
        cells.len() <= 678,
{
    leaf_space_monotonic(cells, 0, cells.len() as int);
    assert(cells.take(0) =~= Seq::<LeafCell>::empty());
    assert(cells.take(cells.len() as int) =~= cells);
}

/// The records in an internal page's body are few.
pub proof fn settled_node_len(cells: Seq<InternalCell>)
    requires
        internal_space(cells) <= INTERNAL_CAPACITY,
    ensures
        cells.len() <= 509,
{
    internal_space_monotonic(cells, 0, cells.len() as int);
    assert(cells.take(0) =~= Seq::<InternalCell>::empty());
    assert(cells.take(cells.len() as int) =~= cells);
}

/// The position of a key among records, as a search of a leaf page reports it.
pub open spec fn position(cells: Seq<LeafCell>, key: Seq<u8>) -> LeafSearchResult {
    match search_cells(cells, key, 0, cells.len()) {
        KeyPosition::Found(i) => LeafSearchResult::Found(i as u16),
        KeyPosition::Missing(i) => LeafSearchResult::Missing(i as u16),
    }
}

/// A search of a leaf page whose body holds the records is a search of the records.
pub proof fn leaf_search_finds(page: PageModel, cells: Seq<LeafCell>, key: Seq<u8>)
    requires
        page.page_type() == Ok::<PageType, ShuError>(PageType::Leaf),
        leaf_settled(page, cells),
    ensures
        page.leaf_search(key) == Ok::<LeafSearchResult, ShuError>(position(cells, key)),
{
    settled_leaf_len(cells);
    leaf_search_searches_records(page, cells, key, 0, cells.len() as u16);
}

/// A search of an internal page whose body holds the contents ends at the child that the key
/// belongs to.
pub proof fn node_search_finds(page: PageModel, node: InternalNode, key: Seq<u8>)
    requires
        node_settled(page, node),
        separators_ascend(node.cells),
    ensures
        page.child_index_for_key(key) matches Ok(index) && belongs_to_child(
            node.cells,
            key,
            index as int,
        ) && page.child_at(index) == Ok::<PageId, ShuError>(child_of(node, index as int)),
{
    settled_node_len(node.cells);
    let count = node.cells.len() as u16;
    child_search_is_right(page, node.cells, key, 0, count);
    let index = page.child_index_for_key(key)->Ok_0;
    if index < count {
        assert(page.internal_entry(index as int as u16) == Ok::<InternalCell, ShuError>(
            node.cells[index as int],
        ));
    }
}

/// A descent from a place to whose bounds the key belongs ends at a leaf to whose bounds it
/// belongs.
pub proof fn descends(
    s: PagerModel,
    t: Tree,
    height: nat,
    place: Seq<int>,
    key: Seq<u8>,
    budget: nat,
) -> (leaf: Seq<int>)
    requires
        forms(s, t, height, PageId(META_PAGE_ID)),
        has_place(t, place),
        above(lo_at(t, place), key),
        within(key, hi_at(t, place)),
        budget + place.len() >= height,
    ensures
        has_place(t, leaf),
        part(t, leaf) is Leaf,
        leaf.len() == height,
        above(lo_at(t, leaf), key),
        within(key, hi_at(t, leaf)),
        s.descend(key, s.pages[part(t, place).id().0], path_to(t, place), budget) == Ok::<
            SearchModel,
            ShuError,
        >(
            SearchModel {
                leaf_id: part(t, leaf).id(),
                leaf_result: position(flat(part(t, leaf)), key),
                path: path_to(t, leaf),
            },
        ),
    decreases height - place.len(),
{
    part_ordered(t, place, height);
    part_stored(s, t, place, PageId(META_PAGE_ID));
    let here = part(t, place);
    let page = s.pages[here.id().0];
    match here {
        Tree::Leaf { id, cells } => {
            leaf_search_finds(page, cells, key);
            place
        },
        Tree::Node { id, kids, separators } => {
            let node = node_of_kids(kids, separators);
            assert(separators_ascend(node.cells)) by {
                assert forall|i: int, j: int| 0 <= i < j < node.cells.len() implies lex_lt(
                    #[trigger] node.cells[i].separator,
                    #[trigger] node.cells[j].separator,
                ) by {
                    assert(lex_lt(separators[i], separators[j]));
                }
            }
            node_search_finds(page, node, key);
            settled_node_len(node.cells);
            let index = page.child_index_for_key(key)->Ok_0;
            let next = place.push(index as int);
            assert(next.drop_last() =~= place);
            assert(part(t, next) == kids[index as int]);
            assert(child_of(node, index as int) == kids[index as int].id());
            if index > 0 {
                assert(lex_lt(node.cells[index - 1].separator, key));
            }
            if index < separators.len() {
                assert(lex_le(key, node.cells[index as int].separator));
            }
            assert(stored(s, kids[index as int], PageId(META_PAGE_ID)));
            assert(s.read_page(kids[index as int].id()) == Ok::<PageModel, ShuError>(
                s.pages[kids[index as int].id().0],
            ));
            assert(path_to(t, next) =~= path_to(t, place).push(
                PathFrame { page_id: id, child_index: index },
            ));
            descends(s, t, height, next, key, (budget - 1) as nat)
        },
    }
}

/// The pages from the top of a tree to its first leaf are as many as the tree is high, and
/// one more.
proof fn pages_of_first_path(
    s: PagerModel,
    t: Tree,
    height: nat,
    lo: Option<Seq<u8>>,
    hi: Option<Seq<u8>>,
    loose: PageId,
) -> (ids: Set<int>)
    requires
        ordered(t, height, lo, hi),
        apart(t),
        stored(s, t, loose),
    ensures
        ids.finite(),
        ids.len() == height + 1,
        forall|i: int| #[trigger]
            ids.contains(i) ==> 0 <= i < s.page_count && owns(t, PageId(i as u32)),
    decreases height,
{
    assert(owns(t, t.id()));
    match t {
        Tree::Leaf { id, .. } => { Set::empty().insert(id.0 as int) },
        Tree::Node { id, kids, separators } => {
            let below = pages_of_first_path(
                s,
                kids[0],
                (height - 1) as nat,
                lower(separators, lo, 0),
                upper(separators, hi, 0),
                loose,
            );
            assert(!owns(kids[0], id));
            assert(!below.contains(id.0 as int));
            assert forall|i: int| #[trigger] below.insert(id.0 as int).contains(i) implies 0 <= i
                < s.page_count && owns(t, PageId(i as u32)) by {
                if i != id.0 {
                    assert(below.contains(i));
                    owns_kid(t, 0, PageId(i as u32));
                }
            }
            below.insert(id.0 as int)
        },
    }
}

/// A tree is not higher than there are pages.
pub proof fn height_below_page_count(s: PagerModel, t: Tree, height: nat, loose: PageId)
    requires
        forms(s, t, height, loose),
    ensures
        height < s.page_count,
{
    let ids = pages_of_first_path(s, t, height, None, None, loose);
    let all = vstd::set_lib::set_int_range(0, s.page_count as int);
    vstd::set_lib::lemma_int_range(0, s.page_count as int);
    assert forall|i: int| ids.contains(i) implies all.contains(i) by {}
    vstd::set_lib::lemma_len_subset(ids, all);
}

/// What a tree says of a key, the leaf to whose bounds the key belongs says.
pub proof fn leaf_knows(t: Tree, height: nat, place: Seq<int>, key: Seq<u8>)
    requires
        ordered(t, height, None, None),
        has_place(t, place),
        above(lo_at(t, place), key),
        within(key, hi_at(t, place)),
    ensures
        ({
            let cells = flat(part(t, place));
            match search_cells(cells, key, 0, cells.len()) {
                KeyPosition::Found(i) => i < cells.len() && records(flat(t)).contains_key(key)
                    && records(flat(t))[key] == cells[i as int].value,
                KeyPosition::Missing(_) => !records(flat(t)).contains_key(key),
            }
        }),
{
    let all = flat(t);
    let left = left_of(t, place);
    let cells = flat(part(t, place));
    part_ordered(t, place, height);
    flat_between(t, height, None, None);
    flat_between(
        part(t, place),
        (height - place.len()) as nat,
        lo_at(t, place),
        hi_at(t, place),
    );
    flat_around(t, place);
    search_is_right(cells, key, 0, cells.len());
    match search_cells(cells, key, 0, cells.len()) {
        KeyPosition::Found(i) => {
            assert(all[left.len() + i as int] == cells[i as int]);
            records_at(all, left.len() + i as int);
        },
        KeyPosition::Missing(at) => {
            sides(t, place, height);
            assert forall|i: int| 0 <= i < all.len() implies (#[trigger] all[i]).key != key by {
                lex_lt_irreflexive(key);
                if i < left.len() {
                    assert(all[i] == left[i]);
                    let bound = lo_at(t, place)->Some_0;
                    assert(lex_le(left[i].key, bound));
                    if all[i].key == key {
                        if key != bound {
                            lex_lt_transitive(key, bound, key);
                        }
                    }
                } else if i < left.len() + cells.len() {
                    assert(all[i] == cells[i - left.len()]);
                    if i - left.len() < at {
                        assert(lex_lt(cells[i - left.len()].key, key));
                    } else {
                        assert(lex_lt(key, cells[i - left.len()].key));
                    }
                } else {
                    let right = right_of(t, place);
                    let k = i - left.len() - cells.len();
                    assert(all[i] == right[k]);
                    let bound = hi_at(t, place)->Some_0;
                    assert(lex_lt(bound, right[k].key));
                    if all[i].key == key {
                        if key != bound {
                            lex_lt_transitive(key, bound, key);
                        }
                    }
                }
            }
        },
    }
}

/// A search of a database that is whole ends at the leaf to whose bounds the key belongs.
pub proof fn search_ends_at_leaf(s: PagerModel, t: Tree, height: nat, key: Seq<u8>) -> (leaf: Seq<
    int,
>)
    requires
        forms(s, t, height, PageId(META_PAGE_ID)),
    ensures
        has_place(t, leaf),
        part(t, leaf) is Leaf,
        leaf.len() == height,
        above(lo_at(t, leaf), key),
        within(key, hi_at(t, leaf)),
        s.search(key) == Ok::<SearchModel, ShuError>(
            SearchModel {
                leaf_id: part(t, leaf).id(),
                leaf_result: position(flat(part(t, leaf)), key),
                path: path_to(t, leaf),
            },
        ),
{
    height_below_page_count(s, t, height, PageId(META_PAGE_ID));
    assert(path_to(t, Seq::empty()) =~= Seq::empty());
    descends(s, t, height, Seq::empty(), key, s.page_count as nat)
}

/// A key of a database that is whole is found with its value, and any other key is not found.
pub proof fn get_finds_value(s: PagerModel, values: Map<Seq<u8>, Seq<u8>>, key: Seq<u8>)
    requires
        says(s, values),
    ensures
        s.get(key) == Ok::<Option<Seq<u8>>, ShuError>(
            if values.contains_key(key) {
                Some(values[key])
            } else {
                None
            },
        ),
{
    let (t, height) = choose|t: Tree, height: nat| #[trigger]
        forms(s, t, height, PageId(META_PAGE_ID)) && records(flat(t)) == values;
    let leaf = search_ends_at_leaf(s, t, height, key);
    let cells = flat(part(t, leaf));
    leaf_knows(t, height, leaf, key);
    part_stored(s, t, leaf, PageId(META_PAGE_ID));
    settled_leaf_len(cells);
    match search_cells(cells, key, 0, cells.len()) {
        KeyPosition::Found(i) => {
            assert(s.pages[part(t, leaf).id().0].leaf_entry(i as int as u16) == Ok::<
                LeafCell,
                ShuError,
            >(cells[i as int]));
        },
        KeyPosition::Missing(_) => {},
    }
}

/// A search of a leaf page with its records in its overflow is a search of these.
pub proof fn overflow_search_finds(page: PageModel, cells: Seq<LeafCell>, key: Seq<u8>)
    requires
        page.page_type() == Ok::<PageType, ShuError>(PageType::Leaf),
        page.overflow == Overflow::Leaf(cells),
    ensures
        page.leaf_search(key) == Ok::<LeafSearchResult, ShuError>(position(cells, key)),
{
}

/// Where the search for a key fails, getting it and putting it fail with the same error, and the
/// put changes nothing.
pub proof fn failed_search_changes_nothing(s: PagerModel, key: Seq<u8>, value: Seq<u8>)
    requires
        s.search(key) is Err,
    ensures
        s.get(key) == Err::<Option<Seq<u8>>, ShuError>(s.search(key)->Err_0),
        s.put(key, value) == (s, Err::<(), ShuError>(s.search(key)->Err_0)),
{
}

/// A search within a page never fails for want of another page.
proof fn search_within_page(page: PageModel, key: Seq<u8>, low: u16, high: u16)
    ensures
        page.leaf_search_between(key, low, high) matches Err(e) ==> !(e is Io) && !(
        e is PageNotFound),
        page.child_index_between(key, low, high) matches Err(e) ==> !(e is Io) && !(
        e is PageNotFound),
    decreases high - low,
{
    if low < high {
        let mid = ((low + high) / 2) as u16;
        search_within_page(page, key, low, mid);
        search_within_page(page, key, (mid + 1) as u16, high);
        let mid = (low + (high - low) / 2) as u16;
        search_within_page(page, key, low, mid);
        search_within_page(page, key, (mid + 1) as u16, high);
    }
}

/// A search that fails for want of a page names one that is counted and not in memory, and one
/// that finds no page names one that is not counted.
pub proof fn failed_descent_names_page(
    s: PagerModel,
    key: Seq<u8>,
    page: PageModel,
    path: Seq<PathFrame>,
    budget: nat,
)
    ensures
        s.descend(key, page, path, budget) matches Err(ShuError::Io { page_id }) ==> page_id.0
            < s.page_count && !s.pages.contains_key(page_id.0),
        s.descend(key, page, path, budget) matches Err(ShuError::PageNotFound { page_id })
            ==> page_id.0 >= s.page_count,
    decreases budget,
{
    if page.read_leaf_header() is Ok {
        search_within_page(page, key, 0, page.read_leaf_header()->Ok_0.record_count);
    }
    if page.read_internal_header() is Ok {
        search_within_page(page, key, 0, page.read_internal_header()->Ok_0.record_count);
    }
    if page.page_type() == Ok::<PageType, ShuError>(PageType::Internal) && budget > 0 {
        let index = page.child_index_for_key(key);
        if index is Ok && page.child_at(index->Ok_0) is Ok {
            let next = s.read_page(page.child_at(index->Ok_0)->Ok_0);
            if next is Ok {
                failed_descent_names_page(
                    s,
                    key,
                    next->Ok_0,
                    path.push(PathFrame { page_id: page.id(), child_index: index->Ok_0 }),
                    (budget - 1) as nat,
                );
            }
        }
    }
}

/// The search of a leaf page tells the index of the record with the key, or that no record has it
/// and before which one it would be: those before that one have smaller keys, the others greater.
pub proof fn leaf_search_is_right(page: PageModel, cells: Seq<LeafCell>, key: Seq<u8>)
    requires
        page.page_type() == Ok::<PageType, ShuError>(PageType::Leaf),
        leaf_settled(page, cells) || page.overflow == Overflow::Leaf(cells),
        cells.len() <= u16::MAX,
        keys_strictly_ascend(cells),
    ensures
        match page.leaf_search(key) {
            Ok(LeafSearchResult::Found(i)) => i < cells.len() && cells[i as int].key == key,
            Ok(LeafSearchResult::Missing(i)) => {
                &&& i <= cells.len()
                &&& forall|j: int| 0 <= j < i ==> lex_lt((#[trigger] cells[j]).key, key)
                &&& forall|j: int| i <= j < cells.len() ==> lex_lt(key, (#[trigger] cells[j]).key)
            },
            Err(_) => false,
        },
{
    if leaf_settled(page, cells) {
        leaf_search_finds(page, cells, key);
    } else {
        overflow_search_finds(page, cells, key);
    }
    search_is_right(cells, key, 0, cells.len());
}

} // verus!
