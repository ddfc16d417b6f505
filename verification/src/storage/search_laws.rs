//! What binary search finds in records that are in order, and what insertion makes of them.
use crate::error::ShuError;
use crate::storage::model::{InternalCell, LeafCell};
use crate::storage::order::{lex_le, lex_lt, lex_lt_irreflexive, lex_lt_total, lex_lt_transitive};
use crate::storage::page::PageModel;
use crate::storage::slotted::{keys_ascend, search_cells, upsert, KeyPosition, LeafSearchResult};
use vstd::prelude::*;

verus! {

/// Every record has a greater key than those before it.
pub open spec fn keys_strictly_ascend(cells: Seq<LeafCell>) -> bool {
    forall|i: int, j: int|
        0 <= i < j < cells.len() ==> lex_lt(#[trigger] cells[i].key, #[trigger] cells[j].key)
}

/// What records say of keys.
pub open spec fn records(cells: Seq<LeafCell>) -> Map<Seq<u8>, Seq<u8>> {
    Map::new(
        |key: Seq<u8>| exists|i: int| 0 <= i < cells.len() && (#[trigger] cells[i]).key == key,
        |key: Seq<u8>|
            cells[choose|i: int| 0 <= i < cells.len() && (#[trigger] cells[i]).key == key].value,
    )
}

/// With strictly ascending keys, a key has the value of the one record that holds it.
pub proof fn records_at(cells: Seq<LeafCell>, i: int)
    requires
        keys_strictly_ascend(cells),
        0 <= i < cells.len(),
    ensures
        records(cells).contains_key(cells[i].key),
        records(cells)[cells[i].key] == cells[i].value,
{
    let key = cells[i].key;
    let j = choose|j: int| 0 <= j < cells.len() && (#[trigger] cells[j]).key == key;
    lex_lt_irreflexive(key);
    assert(i == j);
}

/// A binary search finds the key if it is there; if not, it ends between the smaller and
/// the greater keys.
pub proof fn search_is_right(cells: Seq<LeafCell>, key: Seq<u8>, low: nat, high: nat)
    requires
        keys_strictly_ascend(cells),
        low <= high <= cells.len(),
        forall|i: int| 0 <= i < low ==> lex_lt(#[trigger] cells[i].key, key),
        forall|i: int| high <= i < cells.len() ==> lex_lt(key, #[trigger] cells[i].key),
    ensures
        match search_cells(cells, key, low, high) {
            KeyPosition::Found(i) => low <= i < high && cells[i as int].key == key,
            KeyPosition::Missing(i) => {
                &&& low <= i <= high
                &&& forall|j: int| 0 <= j < i ==> lex_lt(#[trigger] cells[j].key, key)
                &&& forall|j: int| i <= j < cells.len() ==> lex_lt(key, #[trigger] cells[j].key)
            },
        },
    decreases high - low,
{
    if low < high {
        let mid = (low + high) / 2;
        lex_lt_total(cells[mid as int].key, key);
        if cells[mid as int].key == key {
        } else if lex_lt(key, cells[mid as int].key) {
            assert forall|i: int| mid <= i < cells.len() implies lex_lt(
                key,
                #[trigger] cells[i].key,
            ) by {
                if i > mid {
                    lex_lt_transitive(key, cells[mid as int].key, cells[i].key);
                }
            }
            search_is_right(cells, key, low, mid);
        } else {
            assert forall|i: int| 0 <= i < mid + 1 implies lex_lt(
                #[trigger] cells[i].key,
                key,
            ) by {
                if i < mid {
                    lex_lt_transitive(cells[i].key, cells[mid as int].key, key);
                }
            }
            search_is_right(cells, key, mid + 1, high);
        }
    }
}

/// Strictly ascending keys do not descend.
pub proof fn strictly_ascending_keys_ascend(cells: Seq<LeafCell>)
    requires
        keys_strictly_ascend(cells),
    ensures
        keys_ascend(cells),
{
}

/// Giving a key a value keeps the keys strictly ascending and does to what the records say
/// just that.
pub proof fn upsert_is_right(cells: Seq<LeafCell>, key: Seq<u8>, value: Seq<u8>)
    requires
        keys_strictly_ascend(cells),
    ensures
        keys_strictly_ascend(upsert(cells, key, value)),
        upsert(cells, key, value).len() > 0,
        records(upsert(cells, key, value)) == records(cells).insert(key, value),
        forall|c: LeafCell| #[trigger]
            upsert(cells, key, value).contains(c) <==> (c == LeafCell { key, value }) || (c.key
                != key && cells.contains(c)),
{
    search_is_right(cells, key, 0, cells.len());
    let after = upsert(cells, key, value);
    let new = LeafCell { key, value };
    match search_cells(cells, key, 0, cells.len()) {
        KeyPosition::Found(i) => {
            assert forall|a: int, b: int| 0 <= a < b < after.len() implies lex_lt(
                #[trigger] after[a].key,
                #[trigger] after[b].key,
            ) by {
                assert(lex_lt(cells[a].key, cells[b].key));
            }
            assert(after[i as int] == new);
            assert forall|c: LeafCell| #[trigger] after.contains(c) <==> (c == new) || (c.key != key
                && cells.contains(c)) by {
                lex_lt_irreflexive(key);
                if after.contains(c) {
                    let j = choose|j: int| 0 <= j < after.len() && after[j] == c;
                    if j != i {
                        assert(cells[j] == c);
                        assert(cells[j].key != cells[i as int].key);
                    }
                }
                if c.key != key && cells.contains(c) {
                    let j = choose|j: int| 0 <= j < cells.len() && cells[j] == c;
                    assert(after[j] == c);
                }
            }
        },
        KeyPosition::Missing(i) => {
            assert forall|a: int, b: int| 0 <= a < b < after.len() implies lex_lt(
                #[trigger] after[a].key,
                #[trigger] after[b].key,
            ) by {
                if a < i && b > i {
                    assert(lex_lt(cells[a].key, cells[b - 1].key));
                } else if a > i {
                    assert(lex_lt(cells[a - 1].key, cells[b - 1].key));
                } else if a == i {
                    assert(lex_lt(key, cells[b - 1].key));
                } else if b < i {
                    assert(lex_lt(cells[a].key, cells[b].key));
                }
            }
            assert(after[i as int] == new);
            assert forall|c: LeafCell| #[trigger] after.contains(c) <==> (c == new) || (c.key != key
                && cells.contains(c)) by {
                lex_lt_irreflexive(key);
                if after.contains(c) {
                    let j = choose|j: int| 0 <= j < after.len() && after[j] == c;
                    if j < i {
                        assert(cells[j] == c);
                    } else if j > i {
                        assert(cells[j - 1] == c);
                    }
                }
                if c.key != key && cells.contains(c) {
                    let j = choose|j: int| 0 <= j < cells.len() && cells[j] == c;
                    if j < i {
                        assert(after[j] == c);
                    } else {
                        assert(after[j + 1] == c);
                    }
                }
            }
        },
    }
    records_of_inserted(cells, after, key, value);
}

/// Records that differ by one key say the same of the others.
pub proof fn records_of_inserted(
    before: Seq<LeafCell>,
    after: Seq<LeafCell>,
    key: Seq<u8>,
    value: Seq<u8>,
)
    requires
        keys_strictly_ascend(before),
        keys_strictly_ascend(after),
        forall|c: LeafCell| #[trigger]
            after.contains(c) <==> (c == LeafCell { key, value }) || (c.key != key
                && before.contains(c)),
    ensures
        records(after) == records(before).insert(key, value),
{
    let goal = records(before).insert(key, value);
    let new = LeafCell { key, value };
    assert(after.contains(new));
    assert forall|k: Seq<u8>| #[trigger] records(after).contains_key(k) <==> goal.contains_key(
        k,
    ) by {
        if records(after).contains_key(k) {
            let i = choose|i: int| 0 <= i < after.len() && (#[trigger] after[i]).key == k;
            assert(after.contains(after[i]));
            if k != key {
                let j = choose|j: int| 0 <= j < before.len() && before[j] == after[i];
                records_at(before, j);
            }
        }
        if goal.contains_key(k) {
            if k == key {
                let i = choose|i: int| 0 <= i < after.len() && after[i] == new;
                records_at(after, i);
            } else {
                let i = choose|i: int| 0 <= i < before.len() && (#[trigger] before[i]).key == k;
                assert(before.contains(before[i]));
                assert(after.contains(before[i]));
                let j = choose|j: int| 0 <= j < after.len() && after[j] == before[i];
                records_at(after, j);
            }
        }
    }
    assert forall|k: Seq<u8>| #[trigger] goal.contains_key(k) implies records(after)[k] == goal[k] by {
        if k == key {
            let i = choose|i: int| 0 <= i < after.len() && after[i] == new;
            records_at(after, i);
        } else {
            let i = choose|i: int| 0 <= i < before.len() && (#[trigger] before[i]).key == k;
            assert(before.contains(before[i]));
            assert(after.contains(before[i]));
            let j = choose|j: int| 0 <= j < after.len() && after[j] == before[i];
            records_at(after, j);
            records_at(before, i);
        }
    }
    assert(records(after) =~= goal);
}

/// A search of a leaf page is a search of the records that it holds.
pub proof fn leaf_search_searches_records(
    page: PageModel,
    cells: Seq<LeafCell>,
    key: Seq<u8>,
    low: u16,
    high: u16,
)
    requires
        low <= high <= cells.len() <= u16::MAX,
        forall|i: int|
            0 <= i < cells.len() ==> #[trigger] page.leaf_entry(i as u16) == Ok::<
                LeafCell,
                ShuError,
            >(cells[i]),
    ensures
        page.leaf_search_between(key, low, high) == Ok::<LeafSearchResult, ShuError>(
            match search_cells(cells, key, low as nat, high as nat) {
                KeyPosition::Found(i) => LeafSearchResult::Found(i as u16),
                KeyPosition::Missing(i) => LeafSearchResult::Missing(i as u16),
            },
        ),
    decreases high - low,
{
    if low < high {
        let mid = ((low + high) / 2) as u16;
        assert(page.leaf_entry(mid as int as u16) == Ok::<LeafCell, ShuError>(cells[mid as int]));
        if cells[mid as int].key == key {
        } else if lex_lt(key, cells[mid as int].key) {
            leaf_search_searches_records(page, cells, key, low, mid);
        } else {
            leaf_search_searches_records(page, cells, key, (mid + 1) as u16, high);
        }
    }
}

/// Every separator is greater than those before it.
pub open spec fn separators_ascend(cells: Seq<InternalCell>) -> bool {
    forall|i: int, j: int|
        0 <= i < j < cells.len() ==> lex_lt(
            #[trigger] cells[i].separator,
            #[trigger] cells[j].separator,
        )
}

/// The key belongs to the child at `index`: it is greater than the separators before it
/// and not greater than those from it on.
pub open spec fn belongs_to_child(cells: Seq<InternalCell>, key: Seq<u8>, index: int) -> bool {
    &&& 0 <= index <= cells.len()
    &&& forall|i: int| 0 <= i < index ==> lex_lt(#[trigger] cells[i].separator, key)
    &&& forall|i: int| index <= i < cells.len() ==> lex_le(key, #[trigger] cells[i].separator)
}

/// With separators in order, a search of an internal page ends at the child that the key
/// belongs to.
pub proof fn child_search_is_right(
    page: PageModel,
    cells: Seq<InternalCell>,
    key: Seq<u8>,
    low: u16,
    high: u16,
)
    requires
        low <= high <= cells.len() <= u16::MAX,
        separators_ascend(cells),
        forall|i: int|
            0 <= i < cells.len() ==> #[trigger] page.internal_entry(i as u16) == Ok::<
                InternalCell,
                ShuError,
            >(cells[i]),
        forall|i: int| 0 <= i < low ==> lex_lt(#[trigger] cells[i].separator, key),
        forall|i: int| high <= i < cells.len() ==> lex_le(key, #[trigger] cells[i].separator),
    ensures
        page.child_index_between(key, low, high) matches Ok(index) && belongs_to_child(
            cells,
            key,
            index as int,
        ),
    decreases high - low,
{
    if low < high {
        let mid = (low + (high - low) / 2) as u16;
        let at = cells[mid as int].separator;
        assert(page.internal_entry(mid as int as u16) == Ok::<InternalCell, ShuError>(
            cells[mid as int],
        ));
        lex_lt_total(key, at);
        if lex_le(key, at) {
            assert forall|i: int| mid <= i < cells.len() implies lex_le(
                key,
                #[trigger] cells[i].separator,
            ) by {
                if i > mid && lex_lt(key, at) {
                    lex_lt_transitive(key, at, cells[i].separator);
                }
            }
            child_search_is_right(page, cells, key, low, mid);
        } else {
            assert forall|i: int| 0 <= i < mid + 1 implies lex_lt(
                #[trigger] cells[i].separator,
                key,
            ) by {
                if i < mid {
                    lex_lt_transitive(cells[i].separator, at, key);
                }
            }
            child_search_is_right(page, cells, key, (mid + 1) as u16, high);
        }
    }
}

} // verus!
