//! What the tree promises: what is put is found, and nothing else changes.
use crate::error::ShuError;
use crate::storage::header::INITIAL_ROOT_PAGE_ID;
use crate::storage::model::LeafCell;
use crate::storage::order::{lex_le, lex_lt, lex_lt_irreflexive, lex_lt_transitive};
use crate::storage::page::{Overflow, PageId, PageModel, PageType};
use crate::storage::pager::{PagerModel, META_PAGE_ID};
use crate::storage::search_laws::{keys_strictly_ascend, records, records_at, records_of_inserted};
use crate::storage::search_laws::{search_is_right, strictly_ascending_keys_ascend, upsert_is_right};
use crate::storage::slotted::{internal_space, leaf_cell_space, leaf_space, search_cells, upsert};
use crate::storage::slotted::{KeyPosition, INTERNAL_CAPACITY, LEAF_CAPACITY};
use crate::storage::slotted_laws::rewritten_leaf_reads_back;
use crate::storage::tree::{above, apart, cells_between, cells_fit, flat, forms, leaf_at, lower};
use crate::storage::tree::{node_of_kids, ordered, owns, page_at, says, stored, upper, within, Tree};
use crate::storage::tree_groups::{leaf_group_cut, leaf_groups_cut, leaf_offset};
use crate::storage::tree_leaves::{leaf_window_is_rearranged, leaves_spread};
use crate::storage::tree_model::{leaf_groups, PathFrame};
use crate::storage::tree_nodes::{internal_window_is_rearranged, nodes_spread};
use crate::storage::tree_path::{flat_around, has_place, hi_at, left_of, lo_at, owns_kid, part};
use crate::storage::tree_path::{part_apart, part_ordered, part_stored, path_to, right_of, with};
use crate::storage::tree_path::{with_apart, with_at_place, with_ordered, with_stored};
use crate::storage::tree_root::{over_only_if_split, root_leaf_is_split, root_node_is_split};
use crate::storage::tree_root::{split_leaf, split_node};
use crate::storage::tree_search::{flat_between, get_finds_value, search_ends_at_leaf, sides};
use crate::storage::tree_short::{leaf_groups_are_few, leaf_space_concat, leaves_spread_short};
use crate::storage::tree_short::nodes_spread_short;
use crate::storage::tree_short::{separator_space, short, short_part, short_with};
use crate::storage::tree_short::{space_of_separators, split_leaf_short, split_node_short};
use crate::storage::tree_short::{SHORT_KEY, SHORT_NODE};
use crate::storage::tree_step::{owned_pages_present, rearranged};
use crate::storage::tree_window::kid_ids_differ;
use vstd::prelude::*;

verus! {

/// Which page may have an overflow does not matter where it has none.
proof fn settled_anyway(s: PagerModel, t: Tree, loose: PageId, other: PageId)
    requires
        stored(s, t, loose),
        s.pages[loose.0].overflow is Empty,
    ensures
        stored(s, t, other),
    decreases t,
{
    match t {
        Tree::Leaf { .. } => {},
        Tree::Node { id, kids, separators } => {
            assert forall|i: int| 0 <= i < kids.len() implies stored(
                s,
                #[trigger] kids[i],
                other,
            ) by {
                settled_anyway(s, kids[i], loose, other);
            }
        },
    }
}

/// The page at the top is not at another place.
pub proof fn root_only_at_top(t: Tree, place: Seq<int>)
    requires
        has_place(t, place),
        apart(t),
        place.len() > 0,
    ensures
        !owns(part(t, place), t.id()),
    decreases place.len(),
{
    let parent = place.drop_last();
    let node = part(t, parent);
    if parent.len() == 0 {
        assert(!owns(node.kids()[place.last()], t.id()));
    } else {
        root_only_at_top(t, parent);
        if owns(part(t, place), t.id()) {
            owns_kid(node, place.last(), t.id());
        }
    }
}

/// The tree after the part at a place was rearranged.
proof fn rearranged_whole(
    s: PagerModel,
    after: PagerModel,
    t: Tree,
    height: nat,
    place: Seq<int>,
    new: Tree,
    loose: PageId,
)
    requires
        forms(s, t, height, loose),
        has_place(t, place),
        owns(part(t, place), loose),
        place.len() <= height,
        rearranged(
            s,
            after,
            part(t, place),
            new,
            (height - place.len()) as nat,
            lo_at(t, place),
            hi_at(t, place),
        ),
    ensures
        forms(after, with(t, place, new), height, part(t, place).id()),
        flat(with(t, place, new)) == flat(t),
        has_place(with(t, place, new), place),
        part(with(t, place, new), place) == new,
        path_to(with(t, place, new), place) == path_to(t, place),
{
    let here = part(t, place);
    owned_pages_present(s, t, loose);
    with_ordered(t, place, new, height);
    assert forall|x: PageId| #[trigger] owns(new, x) implies owns(here, x) || !owns(t, x) by {
        if owns(t, x) {
            assert(page_at(s, x));
        }
    }
    with_apart(t, place, new);
    assert forall|x: PageId| #[trigger] owns(t, x) && !owns(
        here,
        x,
    ) implies after.pages.contains_key(x.0) && after.pages[x.0] == s.pages[x.0] by {
        assert(page_at(s, x));
        assert(s.pages.contains_key(x.0));
    }
    with_stored(s, after, t, place, new, loose, here.id());
    with_at_place(t, place, new);
    flat_around(t, place);
}

/// Whether a page of the tree is out of balance can be told, and is told right.
proof fn balance_is_known(s: PagerModel, t: Tree, loose: PageId)
    requires
        stored(s, t, loose),
        t.id() == loose,
    ensures
        s.read_page(loose) == Ok::<PageModel, ShuError>(s.pages[loose.0]),
        t is Leaf ==> s.pages[loose.0].page_type() == Ok::<PageType, ShuError>(PageType::Leaf),
        t is Node ==> s.pages[loose.0].page_type() == Ok::<PageType, ShuError>(PageType::Internal),
        s.pages[loose.0].is_underflow() is Ok,
        s.pages[loose.0].is_overflow() == Ok::<bool, ShuError>(
            !(s.pages[loose.0].overflow is Empty),
        ),
        t is Leaf && !(s.pages[loose.0].overflow is Empty) ==> s.pages[loose.0].overflow
            == Overflow::Leaf(flat(t)),
        t is Node && !(s.pages[loose.0].overflow is Empty) ==> s.pages[loose.0].overflow
            == Overflow::Internal(node_of_kids(t.kids(), t.separators())),
{
}

/// The page at the top of a part holds not much more than fits it.
pub open spec fn little_over(t: Tree) -> bool {
    match t {
        Tree::Leaf { cells, .. } => leaf_space(cells) <= 8136,
        Tree::Node { separators, .. } => separator_space(separators) <= SHORT_NODE,
    }
}

/// The space of the pages that the page out of balance shares with.
proof fn window_space(s: PagerModel, t: Tree, i: int)
    requires
        t is Node,
        apart(t),
        0 <= i < t.kids().len(),
        stored(s, t, t.kids()[i].id()),
        little_over(t.kids()[i]),
    ensures
        separator_space(t.separators()) <= INTERNAL_CAPACITY,
        forall|j: int|
            0 <= j < t.kids().len() && #[trigger] t.kids()[j] is Leaf ==> leaf_space(
                flat(t.kids()[j]),
            ) <= if j == i {
                8136
            } else {
                4068nat
            },
        forall|j: int|
            0 <= j < t.kids().len() && #[trigger] t.kids()[j] is Node ==> separator_space(
                t.kids()[j].separators(),
            ) <= if j == i {
                SHORT_NODE as nat
            } else {
                4072nat
            },
{
    let x = t.kids()[i].id();
    assert(owns(t.kids()[i], x));
    assert(!owns(t.kids()[i], t.id()));
    space_of_separators(node_of_kids(t.kids(), t.separators()).cells, t.separators());
    assert forall|j: int| 0 <= j < t.kids().len() && j != i implies {
        &&& #[trigger] t.kids()[j] is Leaf ==> leaf_space(flat(t.kids()[j])) <= 4068
        &&& t.kids()[j] is Node ==> separator_space(t.kids()[j].separators()) <= 4072
    } by {
        let kid = t.kids()[j];
        kid_ids_differ(t, i, j);
        assert(stored(s, kid, x));
        if kid is Node {
            space_of_separators(node_of_kids(kid.kids(), kid.separators()).cells, kid.separators());
        }
    }
}

/// Bringing a page into balance, and then those above it, keeps the records of the tree. Only
/// the page at its top may be left with an overflow, and only if it was split and has more
/// separators than fit it; not even then if all keys are short.
#[verifier::rlimit(30)]
pub proof fn balance_keeps_records(s: PagerModel, t: Tree, height: nat, place: Seq<int>) -> (r: (
    Tree,
    nat,
))
    requires
        has_place(t, place),
        forms(s, t, height, part(t, place).id()),
        part(t, place) is Leaf ==> flat(part(t, place)).len() > 0,
    ensures
        ({
            let (after, result) = s.balance(part(t, place).id(), path_to(t, place));
            match result {
                Err(e) => e == ShuError::TooManyPages && after.page_count == u32::MAX,
                Ok(_) => {
                    &&& forms(after, r.0, r.1, PageId(INITIAL_ROOT_PAGE_ID))
                    &&& flat(r.0) == flat(t)
                    &&& over_only_if_split(s, after, r.0)
                    &&& short(t) && little_over(part(t, place)) ==> short(r.0)
                        && after.pages[INITIAL_ROOT_PAGE_ID].overflow is Empty
                },
            }
        }),
    decreases place.len(),
{
    let here = part(t, place);
    let x = here.id();
    let root = PageId(INITIAL_ROOT_PAGE_ID);
    let page = s.pages[x.0];
    let path = path_to(t, place);
    part_stored(s, t, place, x);
    part_ordered(t, place, height);
    balance_is_known(s, here, x);
    if place.len() > 0 {
        root_only_at_top(t, place);
        assert(owns(here, x));
    }
    let is_overflow = page.is_overflow()->Ok_0;
    let is_underflow = x != root && page.is_underflow()->Ok_0;
    if !is_overflow && !is_underflow {
        settled_anyway(s, t, x, root);
        assert(s.balance(x, path) == (s, Ok::<(), ShuError>(())));
        (t, height)
    } else if place.len() == 0 {
        match here {
            Tree::Leaf { .. } => {
                root_leaf_is_split(s, t);
                if short(t) && little_over(t) {
                    let new = split_leaf(s, t);
                    split_leaf_short(s, t);
                    space_of_separators(
                        node_of_kids(new.kids(), new.separators()).cells,
                        new.separators(),
                    );
                }
                assert(s.balance(x, path) == s.split_root_leaf(x, page));
                (split_leaf(s, t), 1)
            },
            Tree::Node { .. } => {
                root_node_is_split(s, t, height);
                if short(t) && little_over(t) {
                    let new = split_node(s, t);
                    split_node_short(s, t, height);
                    space_of_separators(
                        node_of_kids(new.kids(), new.separators()).cells,
                        new.separators(),
                    );
                }
                assert(s.balance(x, path) == s.split_root_internal(x, page));
                (split_node(s, t), height + 1)
            },
        }
    } else {
        let parent = place.drop_last();
        let node = part(t, parent);
        let i = place.last();
        let lo = lo_at(t, parent);
        let hi = hi_at(t, parent);
        let h = (height - parent.len()) as nat;
        part_stored(s, t, parent, x);
        part_ordered(t, parent, height);
        part_apart(t, parent);
        assert(node.kids()[i] == here);
        assert(owns(here, x));
        owns_kid(node, i, x);
        let frame = path.last();
        assert(frame == (PathFrame { page_id: node.id(), child_index: i as u16 }));
        assert(path.drop_last() =~= path_to(t, parent));
        let (new, after, result) = if here is Leaf {
            leaf_window_is_rearranged(s, node, lo, hi, i);
            let (after, result) = s.redistribute_leaf_window(node.id(), x, i as u16);
            (leaves_spread(s, node, i), after, result)
        } else {
            internal_window_is_rearranged(s, node, h, lo, hi, i);
            let (after, result) = s.redistribute_internal_window(node.id(), x, i as u16);
            (nodes_spread(s, node, i), after, result)
        };
        if result is Ok {
            rearranged_whole(s, after, t, height, parent, new, x);
            let whole = with(t, parent, new);
            if short(t) && little_over(here) {
                short_part(t, parent);
                window_space(s, node, i);
                balanced_short(s, node, h, lo, hi, i);
                short_with(t, parent, new);
            }
            assert(s.balance(x, path) == after.balance(node.id(), path_to(t, parent)));
            let (last, last_height) = balance_keeps_records(after, whole, height, parent);
            let end = after.balance(node.id(), path_to(t, parent)).0;
            assert(over_only_if_split(after, end, last) ==> over_only_if_split(s, end, last));
            (last, last_height)
        } else {
            assert(s.balance(x, path) == (after, result));
            (t, height)
        }
    }
}

/// Sharing with the pages beside it leaves the parent of a page with short keys, and not much
/// more of them than fit it.
proof fn balanced_short(
    s: PagerModel,
    t: Tree,
    height: nat,
    lo: Option<Seq<u8>>,
    hi: Option<Seq<u8>>,
    i: int,
)
    requires
        t is Node,
        height > 0,
        ordered(t, height, lo, hi),
        0 <= i < t.kids().len(),
        short(t),
        t.kids()[i] is Leaf ==> flat(t.kids()[i]).len() > 0,
        separator_space(t.separators()) <= INTERNAL_CAPACITY,
        forall|j: int|
            0 <= j < t.kids().len() && #[trigger] t.kids()[j] is Leaf ==> leaf_space(
                flat(t.kids()[j]),
            ) <= if j == i {
                8136
            } else {
                4068nat
            },
        forall|j: int|
            0 <= j < t.kids().len() && #[trigger] t.kids()[j] is Node ==> separator_space(
                t.kids()[j].separators(),
            ) <= if j == i {
                SHORT_NODE as nat
            } else {
                4072nat
            },
    ensures
        ({
            let new = if t.kids()[i] is Leaf {
                leaves_spread(s, t, i)
            } else {
                nodes_spread(s, t, i)
            };
            short(new) && little_over(new)
        }),
{
    assert forall|j: int| 0 <= j < t.kids().len() implies (height == 1
        ==> #[trigger] t.kids()[j] is Leaf) && (height > 1 ==> t.kids()[j] is Node) by {
        assert(ordered(
            t.kids()[j],
            (height - 1) as nat,
            lower(t.separators(), lo, j),
            upper(t.separators(), hi, j),
        ));
    }
    if height == 1 {
        leaves_spread_short(s, t, lo, hi, i);
    } else {
        nodes_spread_short(s, t, height, lo, hi, i);
    }
}

/// Records between bounds stay so when a key between them is given a value.
pub proof fn upsert_between(
    cells: Seq<LeafCell>,
    key: Seq<u8>,
    value: Seq<u8>,
    lo: Option<Seq<u8>>,
    hi: Option<Seq<u8>>,
)
    requires
        cells_between(cells, lo, hi),
        cells_fit(cells),
        above(lo, key),
        within(key, hi),
    ensures
        cells_between(upsert(cells, key, value), lo, hi),
        leaf_cell_space(LeafCell { key, value }) <= LEAF_CAPACITY ==> cells_fit(
            upsert(cells, key, value),
        ),
{
    let after = upsert(cells, key, value);
    upsert_is_right(cells, key, value);
    assert forall|i: int| 0 <= i < after.len() implies above(lo, (#[trigger] after[i]).key)
        && within(after[i].key, hi) && (leaf_cell_space(after[i]) <= LEAF_CAPACITY || after[i]
        == (LeafCell { key, value })) by {
        assert(after.contains(after[i]));
        if after[i] != (LeafCell { key, value }) {
            let j = choose|j: int| 0 <= j < cells.len() && cells[j] == after[i];
        }
    }
}

/// Giving a key a value in the leaf to whose bounds it belongs gives it the value in the tree.
proof fn records_after_upsert(
    t: Tree,
    height: nat,
    place: Seq<int>,
    key: Seq<u8>,
    value: Seq<u8>,
    new: Tree,
)
    requires
        ordered(t, height, None, None),
        has_place(t, place),
        above(lo_at(t, place), key),
        within(key, hi_at(t, place)),
        flat(new) == upsert(flat(part(t, place)), key, value),
        ordered(with(t, place, new), height, None, None),
    ensures
        records(flat(with(t, place, new))) == records(flat(t)).insert(key, value),
{
    let whole = with(t, place, new);
    let left = left_of(t, place);
    let right = right_of(t, place);
    let cells = flat(part(t, place));
    let changed = flat(new);
    let before = flat(t);
    let after = flat(whole);
    part_ordered(t, place, height);
    flat_between(t, height, None, None);
    flat_between(whole, height, None, None);
    flat_between(
        part(t, place),
        (height - place.len()) as nat,
        lo_at(t, place),
        hi_at(t, place),
    );
    flat_around(t, place);
    with_at_place(t, place, new);
    upsert_is_right(cells, key, value);
    sides(t, place, height);
    lex_lt_irreflexive(key);
    assert forall|i: int| 0 <= i < left.len() implies (#[trigger] left[i]).key != key by {
        let bound = lo_at(t, place)->Some_0;
        assert(lex_le(left[i].key, bound));
        if left[i].key == key && key != bound {
            lex_lt_transitive(key, bound, key);
        }
    }
    assert forall|i: int| 0 <= i < right.len() implies (#[trigger] right[i]).key != key by {
        let bound = hi_at(t, place)->Some_0;
        assert(lex_lt(bound, right[i].key));
        if right[i].key == key && key != bound {
            lex_lt_transitive(key, bound, key);
        }
    }
    let n = left.len() as int;
    assert forall|c: LeafCell| #[trigger] after.contains(c) <==> (c == LeafCell { key, value }) || (
    c.key != key && before.contains(c)) by {
        if after.contains(c) {
            let i = choose|i: int| 0 <= i < after.len() && after[i] == c;
            if i < n {
                assert(left[i] == c);
                assert(before[i] == c);
            } else if i < n + changed.len() {
                assert(changed[i - n] == c);
                assert(changed.contains(c));
                if c != (LeafCell { key, value }) {
                    let j = choose|j: int| 0 <= j < cells.len() && cells[j] == c;
                    assert(before[n + j] == c);
                }
            } else {
                let j = i - n - changed.len();
                assert(right[j] == c);
                assert(before[n + cells.len() + j] == c);
            }
        }
        if c == (LeafCell { key, value }) {
            assert(changed.contains(c));
            let j = choose|j: int| 0 <= j < changed.len() && changed[j] == c;
            assert(after[n + j] == c);
        }
        if c.key != key && before.contains(c) {
            let i = choose|i: int| 0 <= i < before.len() && before[i] == c;
            if i < n {
                assert(after[i] == c);
            } else if i < n + cells.len() {
                assert(cells[i - n] == c);
                assert(cells.contains(c));
                assert(changed.contains(c));
                let j = choose|j: int| 0 <= j < changed.len() && changed[j] == c;
                assert(after[n + j] == c);
            } else {
                let j = i - n - cells.len();
                assert(right[j] == c);
                assert(after[n + changed.len() + j] == c);
            }
        }
    }
    records_of_inserted(before, after, key, value);
}

/// A leaf page takes a record that fits, in its body or in its overflow.
pub proof fn leaf_takes_record(
    s: PagerModel,
    id: PageId,
    cells: Seq<LeafCell>,
    key: Seq<u8>,
    value: Seq<u8>,
)
    requires
        leaf_at(s, id, cells, false),
        keys_strictly_ascend(cells),
    ensures
        ({
            let (page, result) = s.pages[id.0].insert_leaf_entry(key, value);
            &&& result == Ok::<(), ShuError>(())
            &&& leaf_at(s.store(id, page), id, upsert(cells, key, value), true)
        }),
{
    let after = upsert(cells, key, value);
    upsert_is_right(cells, key, value);
    strictly_ascending_keys_ascend(after);
    if leaf_space(after) <= LEAF_CAPACITY {
        rewritten_leaf_reads_back(s.pages[id.0], after);
    }
}

/// The database is whole and says this of keys, and all its keys are short.
pub open spec fn says_shortly(s: PagerModel, values: Map<Seq<u8>, Seq<u8>>) -> bool {
    exists|t: Tree, height: nat| #[trigger]
        forms(s, t, height, PageId(META_PAGE_ID)) && records(flat(t)) == values && short(t)
}

/// A database whose keys are all short says what it says.
pub proof fn says_shortly_says(s: PagerModel, values: Map<Seq<u8>, Seq<u8>>)
    requires
        says_shortly(s, values),
    ensures
        says(s, values),
{
    let (t, height) = choose|t: Tree, height: nat| #[trigger]
        forms(s, t, height, PageId(META_PAGE_ID)) && records(flat(t)) == values && short(t);
    assert(forms(s, t, height, PageId(META_PAGE_ID)) && records(flat(t)) == values);
}

/// A short key is given a value, if the record fits a leaf page and all keys of the database
/// are short. This fails only if no further page can be counted. The database is whole
/// afterwards, with short keys, and says the same of every other key.
pub proof fn put_short_key(
    s: PagerModel,
    values: Map<Seq<u8>, Seq<u8>>,
    key: Seq<u8>,
    value: Seq<u8>,
)
    requires
        says_shortly(s, values),
        key.len() <= SHORT_KEY,
        leaf_cell_space(LeafCell { key, value }) <= LEAF_CAPACITY,
    ensures
        ({
            let (after, result) = s.put(key, value);
            match result {
                Err(e) => e == ShuError::TooManyPages && after.page_count == u32::MAX,
                Ok(_) => says_shortly(after, values.insert(key, value)),
            }
        }),
{
    let meta = PageId(META_PAGE_ID);
    let root = PageId(INITIAL_ROOT_PAGE_ID);
    let (t, height) = choose|t: Tree, height: nat| #[trigger]
        forms(s, t, height, meta) && records(flat(t)) == values && short(t);
    let (whole, place, stored_after) = put_reaches_leaf(s, t, height, key, value);
    let (last, last_height) = balance_keeps_records(stored_after, whole, height, place);
    let (after, result) = s.put(key, value);
    if result is Ok {
        settled_anyway(after, last, root, meta);
        assert(forms(after, last, last_height, meta));
        assert(records(flat(last)) == values.insert(key, value));
    }
}

/// The space of records after a key is given a value.
proof fn upsert_space(cells: Seq<LeafCell>, key: Seq<u8>, value: Seq<u8>)
    requires
        keys_strictly_ascend(cells),
    ensures
        leaf_space(upsert(cells, key, value)) <= leaf_space(cells) + leaf_cell_space(
            LeafCell { key, value },
        ),
{
    search_is_right(cells, key, 0, cells.len());
    let new = LeafCell { key, value };
    let after = upsert(cells, key, value);
    assert(seq![new].drop_last() =~= Seq::<LeafCell>::empty());
    assert(leaf_space(Seq::<LeafCell>::empty()) == 0);
    assert(leaf_space(seq![new]) == leaf_cell_space(new));
    match search_cells(cells, key, 0, cells.len()) {
        KeyPosition::Found(i) => {
            let i = i as int;
            let left = cells.take(i);
            let right = cells.skip(i + 1);
            assert(after =~= left + (seq![new] + right));
            assert(cells =~= left + (seq![cells[i]] + right));
            leaf_space_concat(left, seq![new] + right);
            leaf_space_concat(seq![new], right);
            leaf_space_concat(left, seq![cells[i]] + right);
            leaf_space_concat(seq![cells[i]], right);
        },
        KeyPosition::Missing(i) => {
            let i = i as int;
            let left = cells.take(i);
            let right = cells.skip(i);
            assert(after =~= left + (seq![new] + right));
            assert(cells =~= left + right);
            leaf_space_concat(left, seq![new] + right);
            leaf_space_concat(seq![new], right);
            leaf_space_concat(left, right);
        },
    }
}

/// The pages form a tree whose keys have these values. If the page at its top has an overflow,
/// it was split since `s`, and has more separators than fit it although its children are as few
/// as can be.
pub open spec fn says_unless_over(
    s: PagerModel,
    after: PagerModel,
    values: Map<Seq<u8>, Seq<u8>>,
) -> bool {
    exists|t: Tree, height: nat| #[trigger]
        forms(after, t, height, PageId(INITIAL_ROOT_PAGE_ID)) && records(flat(t)) == values
            && over_only_if_split(s, after, t)
}

/// Unless the page at the top has an overflow, the database is whole. If it has one, it is an
/// internal page, and its separators do not fit one; its children are all pages that were added.
pub proof fn unless_over(s: PagerModel, after: PagerModel, values: Map<Seq<u8>, Seq<u8>>)
    requires
        says_unless_over(s, after, values),
    ensures
        says(after, values) || ({
            let page = after.pages[INITIAL_ROOT_PAGE_ID];
            &&& page.page_type() == Ok::<PageType, ShuError>(PageType::Internal)
            &&& page.overflow matches Overflow::Internal(node) && internal_space(node.cells)
                > INTERNAL_CAPACITY && node.right_child.0 >= s.page_count && forall|i: int|
                0 <= i < node.cells.len() ==> (#[trigger] node.cells[i]).child.0 >= s.page_count
        }),
{
    let meta = PageId(META_PAGE_ID);
    let root = PageId(INITIAL_ROOT_PAGE_ID);
    let (t, height) = choose|t: Tree, height: nat| #[trigger]
        forms(after, t, height, root) && records(flat(t)) == values && over_only_if_split(
            s,
            after,
            t,
        );
    if after.pages[INITIAL_ROOT_PAGE_ID].overflow is Empty {
        settled_anyway(after, t, root, meta);
        assert(forms(after, t, height, meta));
    } else {
        assert(t.kids().last() == t.kids()[t.kids().len() - 1]);
    }
}

/// A key of a database that is whole is given a value, if the record fits a leaf page. This
/// fails only if no further page can be counted. The database is whole afterwards, and says
/// the same of every other key; that is, unless the page at the top was split and has more
/// separators than fit it, although its children are as few as can be.
pub proof fn put_gives_value(
    s: PagerModel,
    values: Map<Seq<u8>, Seq<u8>>,
    key: Seq<u8>,
    value: Seq<u8>,
)
    requires
        says(s, values),
        leaf_cell_space(LeafCell { key, value }) <= LEAF_CAPACITY,
    ensures
        ({
            let (after, result) = s.put(key, value);
            match result {
                Err(e) => e == ShuError::TooManyPages && after.page_count == u32::MAX,
                Ok(_) => {
                    &&& says_unless_over(s, after, values.insert(key, value))
                    &&& after.pages[INITIAL_ROOT_PAGE_ID].overflow is Empty ==> says(
                        after,
                        values.insert(key, value),
                    )
                },
            }
        }),
{
    let meta = PageId(META_PAGE_ID);
    let root = PageId(INITIAL_ROOT_PAGE_ID);
    let (t, height) = choose|t: Tree, height: nat| #[trigger]
        forms(s, t, height, meta) && records(flat(t)) == values;
    let (whole, place, stored_after) = put_reaches_leaf(s, t, height, key, value);
    let (last, last_height) = balance_keeps_records(stored_after, whole, height, place);
    let (after, result) = s.put(key, value);
    if result is Ok {
        assert(records(flat(last)) == values.insert(key, value));
        assert(s.page_count <= stored_after.page_count);
        assert(over_only_if_split(stored_after, after, last));
        assert(over_only_if_split(s, after, last));
        assert(forms(after, last, last_height, root));
    }
    if result is Ok && after.pages[INITIAL_ROOT_PAGE_ID].overflow is Empty {
        settled_anyway(after, last, root, meta);
        assert(forms(after, last, last_height, meta));
    }
}

/// Before anything is balanced, the leaf to whose bounds the key belongs has the record.
proof fn put_reaches_leaf(
    s: PagerModel,
    t: Tree,
    height: nat,
    key: Seq<u8>,
    value: Seq<u8>,
) -> (r: (Tree, Seq<int>, PagerModel))
    requires
        forms(s, t, height, PageId(META_PAGE_ID)),
        leaf_cell_space(LeafCell { key, value }) <= LEAF_CAPACITY,
    ensures
        has_place(r.0, r.1),
        part(r.0, r.1) is Leaf,
        flat(part(r.0, r.1)).len() > 0,
        forms(r.2, r.0, height, part(r.0, r.1).id()),
        records(flat(r.0)) == records(flat(t)).insert(key, value),
        s.put(key, value) == r.2.balance(part(r.0, r.1).id(), path_to(r.0, r.1)),
        r.2.page_count == s.page_count,
        little_over(part(r.0, r.1)),
        short(t) && key.len() <= SHORT_KEY ==> short(r.0),
{
    let meta = PageId(META_PAGE_ID);
    let place = search_ends_at_leaf(s, t, height, key);
    let leaf = part(t, place);
    let x = leaf.id();
    let cells = flat(leaf);
    part_ordered(t, place, height);
    part_stored(s, t, place, meta);
    owned_pages_present(s, t, meta);
    leaf_takes_record(s, x, cells, key, value);
    let page = s.pages[x.0].insert_leaf_entry(key, value).0;
    let after = s.store(x, page);
    let new = Tree::Leaf { id: x, cells: upsert(cells, key, value) };
    upsert_is_right(cells, key, value);
    upsert_between(cells, key, value, lo_at(t, place), hi_at(t, place));
    with_ordered(t, place, new, height);
    assert forall|y: PageId| #[trigger] owns(new, y) implies owns(leaf, y) || !owns(t, y) by {}
    with_apart(t, place, new);
    assert(owns(leaf, x));
    assert forall|y: PageId| #[trigger] owns(t, y) && !owns(
        leaf,
        y,
    ) implies after.pages.contains_key(y.0) && after.pages[y.0] == s.pages[y.0] by {
        assert(page_at(s, y));
    }
    assert(!owns(t, meta)) by {
        if owns(t, meta) {
            assert(page_at(s, meta));
        }
    }
    with_stored(s, after, t, place, new, meta, x);
    with_at_place(t, place, new);
    records_after_upsert(t, height, place, key, value, new);
    upsert_space(cells, key, value);
    if short(t) && key.len() <= SHORT_KEY {
        short_part(t, place);
        let changed = flat(new);
        assert forall|i: int| 0 <= i < changed.len() implies (#[trigger] changed[i]).key.len()
            <= SHORT_KEY by {
            assert(changed.contains(changed[i]));
            if changed[i] != (LeafCell { key, value }) {
                let j = choose|j: int| 0 <= j < cells.len() && cells[j] == changed[i];
            }
        }
        short_with(t, place, new);
    }
    (with(t, place, new), place, after)
}

/// A root leaf that is split leaves no overflow if no key has more than 2028 bytes: the database
/// is whole after a put, whatever else the keys are.
pub proof fn put_into_root_leaf(
    s: PagerModel,
    values: Map<Seq<u8>, Seq<u8>>,
    key: Seq<u8>,
    value: Seq<u8>,
)
    requires
        says(s, values),
        s.pages[INITIAL_ROOT_PAGE_ID].page_type() == Ok::<PageType, ShuError>(PageType::Leaf),
        leaf_cell_space(LeafCell { key, value }) <= LEAF_CAPACITY,
        key.len() <= 2028,
        forall|k: Seq<u8>| #[trigger] values.contains_key(k) ==> k.len() <= 2028,
    ensures
        ({
            let (after, result) = s.put(key, value);
            result is Ok ==> says(after, values.insert(key, value))
        }),
{
    let meta = PageId(META_PAGE_ID);
    let root = PageId(INITIAL_ROOT_PAGE_ID);
    let (t, height) = choose|t: Tree, height: nat| #[trigger]
        forms(s, t, height, meta) && records(flat(t)) == values;
    let (whole, place, stored_after) = put_reaches_leaf(s, t, height, key, value);
    put_gives_value(s, values, key, value);
    let (after, result) = s.put(key, value);
    assert(t is Leaf);
    assert(whole is Leaf);
    assert(part(whole, place) == whole && place.len() == 0) by {
        if place.len() > 0 {
            short_place_of_leaf(whole, place);
        }
    }
    balance_is_known(stored_after, whole, root);
    let page = stored_after.pages[root.0];
    let path = path_to(whole, place);
    if page.overflow is Empty {
        assert(stored_after.balance(root, path) == (stored_after, Ok::<(), ShuError>(())));
    } else {
        root_leaf_is_split(stored_after, whole);
        assert(stored_after.balance(root, path) == stored_after.split_root_leaf(root, page));
        let cells = flat(whole);
        assert forall|i: int| 0 <= i < cells.len() implies (#[trigger] cells[i]).key.len()
            <= 2028 by {
            records_at(cells, i);
            assert(values.insert(key, value).contains_key(cells[i].key));
        }
        separators_of_split_leaf_fit(stored_after, whole);
    }
}

/// The separators of a root leaf that is split are at most two.
proof fn separators_of_split_leaf_fit(s: PagerModel, t: Tree)
    requires
        t is Leaf,
        flat(t).len() > 0,
        leaf_space(flat(t)) <= 8136,
        forall|i: int| 0 <= i < flat(t).len() ==> (#[trigger] flat(t)[i]).key.len() <= 2028,
    ensures
        ({
            let new = split_leaf(s, t);
            internal_space(node_of_kids(new.kids(), new.separators()).cells) <= INTERNAL_CAPACITY
        }),
{
    let new = split_leaf(s, t);
    let cells = flat(t);
    let groups = leaf_groups(cells);
    let separators = new.separators();
    leaf_groups_are_few(cells);
    leaf_groups_cut(cells);
    assert(groups.len() <= 3);
    assert forall|i: int| 0 <= i < separators.len() implies (#[trigger] separators[i]).len()
        <= 2028 by {
        assert(leaf_group_cut(cells, groups, i));
        let end = leaf_offset(groups, i + 1);
        assert(groups[i].last() == cells[end - 1]);
    }
    reveal_with_fuel(separator_space, 3);
    space_of_separators(node_of_kids(new.kids(), separators).cells, separators);
}

/// A leaf has no part but itself.
proof fn short_place_of_leaf(t: Tree, place: Seq<int>)
    requires
        t is Leaf,
        has_place(t, place),
    ensures
        place.len() == 0,
    decreases place.len(),
{
    if place.len() > 0 {
        short_place_of_leaf(t, place.drop_last());
    }
}

/// What was put is found: after a key is given a value, it is found with that value, and every
/// other key is found as before.
pub proof fn put_is_found(
    s: PagerModel,
    values: Map<Seq<u8>, Seq<u8>>,
    key: Seq<u8>,
    value: Seq<u8>,
    other: Seq<u8>,
)
    requires
        says(s, values),
        leaf_cell_space(LeafCell { key, value }) <= LEAF_CAPACITY,
        s.put(key, value).1 is Ok,
        s.put(key, value).0.pages[INITIAL_ROOT_PAGE_ID].overflow is Empty,
    ensures
        s.put(key, value).0.get(key) == Ok::<Option<Seq<u8>>, ShuError>(Some(value)),
        other != key ==> s.put(key, value).0.get(other) == s.get(other),
{
    put_gives_value(s, values, key, value);
    let after = s.put(key, value).0;
    get_finds_value(after, values.insert(key, value), key);
    get_finds_value(after, values.insert(key, value), other);
    get_finds_value(s, values, other);
}

} // verus!
