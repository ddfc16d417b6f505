//! What becomes of a tree when neighbouring children of one page are replaced.
use crate::storage::order::{lex_le, lex_lt, lex_lt_transitive};
use crate::storage::page::PageId;
use crate::storage::pager::PagerModel;
use crate::storage::slotted::INTERNAL_CAPACITY;
use crate::storage::tree::{above, apart, below, flat, flat_all, lower, node_at, node_of_kids};
use crate::storage::tree::{ordered, owns, separators_between, stored, upper, Tree};
use crate::storage::tree_model::{node_of, replace_slots, slots_of, Slot};
use crate::storage::tree_path::{flat_all_concat, owned_by_kid, owns_kid, stored_frame};
use vstd::prelude::*;

verus! {

/// Children with those from `a` to `b` replaced by others.
pub open spec fn spliced(kids: Seq<Tree>, a: int, b: int, new: Seq<Tree>) -> Seq<Tree> {
    kids.take(a) + new + kids.skip(b + 1)
}

/// Separators after children from `a` to `b` are replaced by others, with the separators
/// `inner` between them and `end` behind them; if they are the last, there is none behind them.
pub open spec fn spliced_separators(
    separators: Seq<Seq<u8>>,
    a: int,
    b: int,
    inner: Seq<Seq<u8>>,
    end: Seq<u8>,
) -> Seq<Seq<u8>> {
    separators.take(a) + inner + if b < separators.len() {
        seq![end] + separators.skip(b + 1)
    } else {
        Seq::empty()
    }
}

/// The bound behind the new children.
pub open spec fn end_bound(
    separators: Seq<Seq<u8>>,
    b: int,
    end: Seq<u8>,
    hi: Option<Seq<u8>>,
) -> Option<Seq<u8>> {
    if b < separators.len() {
        Some(end)
    } else {
        hi
    }
}

/// The new children are in order where they go.
pub open spec fn splice_fits(
    t: Tree,
    height: nat,
    lo: Option<Seq<u8>>,
    hi: Option<Seq<u8>>,
    a: int,
    b: int,
    new: Seq<Tree>,
    inner: Seq<Seq<u8>>,
    end: Seq<u8>,
) -> bool {
    let separators = t.separators();
    let from = lower(separators, lo, a);
    let to = end_bound(separators, b, end, hi);
    &&& t is Node
    &&& 0 <= a <= b < t.kids().len()
    &&& new.len() == inner.len() + 1
    &&& separators_between(inner, from, to)
    &&& forall|i: int|
        0 <= i < new.len() ==> ordered(
            #[trigger] new[i],
            (height - 1) as nat,
            lower(inner, from, i),
            upper(inner, to, i),
        )
    &&& b < separators.len() ==> {
        &&& above(from, end)
        &&& lex_le(end, separators[b])
        &&& end.len() + 8 <= INTERNAL_CAPACITY
        &&& ordered(
            t.kids()[b + 1],
            (height - 1) as nat,
            Some(end),
            upper(separators, hi, b + 1),
        )
    }
}

proof fn le_lt(a: Seq<u8>, b: Seq<u8>, c: Seq<u8>)
    requires
        lex_le(a, b),
        lex_lt(b, c),
    ensures
        lex_lt(a, c),
{
    if a != b {
        lex_lt_transitive(a, b, c);
    }
}

/// The separators ascend after the replacement.
proof fn spliced_separators_between(
    separators: Seq<Seq<u8>>,
    lo: Option<Seq<u8>>,
    hi: Option<Seq<u8>>,
    a: int,
    b: int,
    inner: Seq<Seq<u8>>,
    end: Seq<u8>,
)
    requires
        0 <= a <= b <= separators.len(),
        separators_between(separators, lo, hi),
        separators_between(
            inner,
            lower(separators, lo, a),
            end_bound(separators, b, end, hi),
        ),
        b < separators.len() ==> above(lower(separators, lo, a), end) && lex_le(end, separators[b])
            && end.len() + 8 <= INTERNAL_CAPACITY,
    ensures
        separators_between(spliced_separators(separators, a, b, inner, end), lo, hi),
{
    let all = spliced_separators(separators, a, b, inner, end);
    let m = inner.len();
    let from = lower(separators, lo, a);
    // What each element is.
    assert forall|i: int| 0 <= i < all.len() implies {
        &&& i < a ==> #[trigger] all[i] == separators[i]
        &&& a <= i < a + m ==> all[i] == inner[i - a]
        &&& i == a + m ==> b < separators.len() && all[i] == end
        &&& i > a + m ==> b < separators.len() && all[i] == separators[i - a - m + b]
    } by {}
    // The new ones are greater than those before them.
    assert forall|i: int, k: Seq<u8>| 0 <= i < a && #[trigger] above(from, k) implies lex_lt(
        #[trigger] separators[i],
        k,
    ) by {
        if i < a - 1 {
            assert(lex_lt(separators[i], separators[a - 1]));
            lex_lt_transitive(separators[i], separators[a - 1], k);
        }
    }
    assert forall|k: Seq<u8>| #[trigger] above(from, k) implies above(lo, k) by {
        if a > 0 && lo is Some {
            assert(above(lo, separators[a - 1]));
            lex_lt_transitive(lo->Some_0, separators[a - 1], k);
        }
    }
    // They are smaller than those behind them.
    if b < separators.len() {
        assert forall|i: int| b < i < separators.len() implies lex_lt(
            end,
            #[trigger] separators[i],
        ) by {
            le_lt(end, separators[b], separators[i]);
        }
        assert(below(end, hi)) by {
            if hi is Some {
                le_lt(end, separators[b], hi->Some_0);
            }
        }
        assert forall|i: int| 0 <= i < m implies lex_lt(#[trigger] inner[i], end) by {
            assert(below(inner[i], Some(end)));
        }
    }
    assert forall|i: int| 0 <= i < all.len() implies above(lo, #[trigger] all[i]) && below(
        all[i],
        hi,
    ) && all[i].len() + 8 <= INTERNAL_CAPACITY by {
        if a <= i < a + m {
            let k = inner[i - a];
            assert(above(from, k));
            if b < separators.len() && hi is Some {
                lex_lt_transitive(k, end, hi->Some_0);
            }
        } else if i == a + m {
            assert(above(from, end));
        }
    }
    assert forall|i: int, j: int| 0 <= i < j < all.len() implies lex_lt(
        #[trigger] all[i],
        #[trigger] all[j],
    ) by {
        if i < a {
            if j < a {
                assert(lex_lt(separators[i], separators[j]));
            } else if j < a + m {
                assert(above(from, inner[j - a]));
            } else if j == a + m {
                assert(above(from, end));
            } else {
                assert(lex_lt(separators[i], separators[j - a - m + b]));
            }
        } else if i < a + m {
            if j < a + m {
                assert(lex_lt(inner[i - a], inner[j - a]));
            } else if j > a + m {
                lex_lt_transitive(inner[i - a], end, separators[j - a - m + b]);
            }
        } else if i > a + m {
            assert(lex_lt(separators[i - a - m + b], separators[j - a - m + b]));
        }
    }
}

/// A tree in order stays so when children are replaced by others that are in order where
/// they go.
pub proof fn splice_ordered(
    t: Tree,
    height: nat,
    lo: Option<Seq<u8>>,
    hi: Option<Seq<u8>>,
    a: int,
    b: int,
    new: Seq<Tree>,
    inner: Seq<Seq<u8>>,
    end: Seq<u8>,
)
    requires
        ordered(t, height, lo, hi),
        splice_fits(t, height, lo, hi, a, b, new, inner, end),
    ensures
        ordered(
            Tree::Node {
                id: t.id(),
                kids: spliced(t.kids(), a, b, new),
                separators: spliced_separators(t.separators(), a, b, inner, end),
            },
            height,
            lo,
            hi,
        ),
{
    let separators = t.separators();
    let kids = t.kids();
    let all = spliced(kids, a, b, new);
    let cuts = spliced_separators(separators, a, b, inner, end);
    let h = (height - 1) as nat;
    let m = new.len();
    let from = lower(separators, lo, a);
    let to = end_bound(separators, b, end, hi);
    spliced_separators_between(separators, lo, hi, a, b, inner, end);
    assert forall|i: int| 0 <= i < all.len() implies ordered(
        #[trigger] all[i],
        h,
        lower(cuts, lo, i),
        upper(cuts, hi, i),
    ) by {
        if i < a {
            assert(all[i] == kids[i]);
            assert(cuts[i] == separators[i]);
            if i > 0 {
                assert(cuts[i - 1] == separators[i - 1]);
            }
        } else if i < a + m {
            assert(all[i] == new[i - a]);
            if i == a {
                if a > 0 {
                    assert(cuts[a - 1] == separators[a - 1]);
                }
            } else {
                assert(cuts[i - 1] == inner[i - 1 - a]);
            }
            if i < a + m - 1 {
                assert(cuts[i] == inner[i - a]);
            } else if b < separators.len() {
                assert(cuts[i] == end);
            }
            assert(lower(cuts, lo, i) == lower(inner, from, i - a));
            assert(upper(cuts, hi, i) == upper(inner, to, i - a));
        } else {
            let j = i - a - m + b + 1;
            assert(all[i] == kids[j]);
            if j == b + 1 {
                assert(cuts[i - 1] == end);
            } else {
                assert(cuts[i - 1] == separators[j - 1]);
            }
            if j < separators.len() {
                assert(cuts[i] == separators[j]);
            }
        }
    }
}

/// One of the trees holds the page.
pub open spec fn any_owns(kids: Seq<Tree>, x: PageId) -> bool {
    exists|i: int| 0 <= i < kids.len() && owns(#[trigger] kids[i], x)
}

/// No page is in the trees twice.
pub open spec fn all_apart(kids: Seq<Tree>) -> bool {
    &&& forall|i: int| 0 <= i < kids.len() ==> apart(#[trigger] kids[i])
    &&& forall|i: int, j: int, x: PageId|
        0 <= i < j < kids.len() ==> !(#[trigger] owns(kids[i], x) && #[trigger] owns(kids[j], x))
}

/// A tree holds no page twice when children are replaced by others with no page twice and
/// none that is elsewhere in the tree.
pub proof fn splice_apart(
    t: Tree,
    a: int,
    b: int,
    new: Seq<Tree>,
    separators: Seq<Seq<u8>>,
)
    requires
        t is Node,
        apart(t),
        0 <= a <= b < t.kids().len(),
        all_apart(new),
        forall|i: int, x: PageId|
            0 <= i < new.len() && #[trigger] owns(new[i], x) ==> any_owns(
                t.kids().subrange(a, b + 1),
                x,
            ) || !owns(t, x),
    ensures
        ({
            let after = Tree::Node { id: t.id(), kids: spliced(t.kids(), a, b, new), separators };
            &&& apart(after)
            &&& forall|x: PageId| #[trigger] owns(after, x) ==> owns(t, x) || any_owns(new, x)
        }),
{
    let kids = t.kids();
    let id = t.id();
    let window = kids.subrange(a, b + 1);
    let all = spliced(kids, a, b, new);
    let m = new.len();
    let after = Tree::Node { id, kids: all, separators };
    // Where a page of the window is not.
    assert forall|j: int, x: PageId|
        0 <= j < kids.len() && !(a <= j <= b) && #[trigger] owns(kids[j], x) implies !any_owns(
        window,
        x,
    ) && owns(t, x) by {
        owns_kid(t, j, x);
        if any_owns(window, x) {
            let k = choose|k: int| 0 <= k < window.len() && owns(#[trigger] window[k], x);
            assert(window[k] == kids[a + k]);
            if j < a {
                assert(!(owns(kids[j], x) && owns(kids[a + k], x)));
            } else {
                assert(!(owns(kids[a + k], x) && owns(kids[j], x)));
            }
        }
    }
    assert forall|x: PageId| #[trigger] any_owns(window, x) implies x != id by {
        let k = choose|k: int| 0 <= k < window.len() && owns(#[trigger] window[k], x);
        assert(window[k] == kids[a + k]);
        assert(!owns(kids[a + k], id));
    }
    assert(owns(t, id));
    assert forall|i: int| 0 <= i < all.len() implies !(#[trigger] owns(all[i], id)) by {
        if i < a {
            assert(all[i] == kids[i]);
        } else if i < a + m {
            assert(all[i] == new[i - a]);
            assert(!any_owns(window, id));
        } else {
            assert(all[i] == kids[i - a - m + b + 1]);
        }
    }
    assert forall|i: int, j: int, x: PageId| 0 <= i < j < all.len() implies !(#[trigger] owns(
        all[i],
        x,
    ) && #[trigger] owns(all[j], x)) by {
        let old_i = if i < a { i } else { i - a - m + b + 1 };
        let old_j = if j < a { j } else { j - a - m + b + 1 };
        if a <= i < a + m {
            assert(all[i] == new[i - a]);
            if j < a + m {
                assert(all[j] == new[j - a]);
            } else {
                assert(all[j] == kids[old_j]);
            }
        } else {
            assert(all[i] == kids[old_i]);
            if a <= j < a + m {
                assert(all[j] == new[j - a]);
            } else {
                assert(all[j] == kids[old_j]);
                assert(!(owns(kids[old_i], x) && owns(kids[old_j], x)));
            }
        }
    }
    assert forall|i: int| 0 <= i < all.len() implies apart(#[trigger] all[i]) by {
        if i < a {
            assert(all[i] == kids[i]);
        } else if i < a + m {
            assert(all[i] == new[i - a]);
        } else {
            assert(all[i] == kids[i - a - m + b + 1]);
        }
    }
    assert forall|x: PageId| #[trigger] owns(after, x) implies owns(t, x) || any_owns(new, x) by {
        if x != id {
            let i = owned_by_kid(after, x);
            if i < a {
                owns_kid(t, i, x);
            } else if i < a + m {
                assert(all[i] == new[i - a]);
            } else {
                owns_kid(t, i - a - m + b + 1, x);
            }
        }
    }
}

/// The pages of a tree are in memory after children are replaced, if only the page at its top
/// and pages of the replaced children changed.
pub proof fn splice_stored(
    s: PagerModel,
    after: PagerModel,
    t: Tree,
    a: int,
    b: int,
    new: Seq<Tree>,
    separators: Seq<Seq<u8>>,
    loose: PageId,
)
    requires
        t is Node,
        apart(t),
        stored(s, t, loose),
        0 <= a <= b < t.kids().len(),
        spliced(t.kids(), a, b, new).len() == separators.len() + 1,
        any_owns(t.kids().subrange(a, b + 1), loose),
        s.page_count <= after.page_count,
        node_at(
            after,
            t.id(),
            node_of_kids(spliced(t.kids(), a, b, new), separators),
            true,
        ),
        forall|i: int| 0 <= i < new.len() ==> stored(after, #[trigger] new[i], t.id()),
        forall|x: PageId| #[trigger]
            owns(t, x) && x != t.id() && !any_owns(t.kids().subrange(a, b + 1), x)
                ==> after.pages.contains_key(x.0) && after.pages[x.0] == s.pages[x.0],
    ensures
        stored(
            after,
            Tree::Node { id: t.id(), kids: spliced(t.kids(), a, b, new), separators },
            t.id(),
        ),
{
    let kids = t.kids();
    let window = kids.subrange(a, b + 1);
    let all = spliced(kids, a, b, new);
    let m = new.len();
    assert forall|j: int, x: PageId|
        0 <= j < kids.len() && !(a <= j <= b) && #[trigger] owns(kids[j], x) implies !any_owns(
        window,
        x,
    ) && owns(t, x) && x != t.id() by {
        owns_kid(t, j, x);
        assert(!owns(kids[j], t.id()));
        if any_owns(window, x) {
            let k = choose|k: int| 0 <= k < window.len() && owns(#[trigger] window[k], x);
            assert(window[k] == kids[a + k]);
            if j < a {
                assert(!(owns(kids[j], x) && owns(kids[a + k], x)));
            } else {
                assert(!(owns(kids[a + k], x) && owns(kids[j], x)));
            }
        }
    }
    assert forall|i: int| 0 <= i < all.len() implies stored(after, #[trigger] all[i], t.id()) by {
        if a <= i < a + m {
            assert(all[i] == new[i - a]);
        } else {
            let j = if i < a { i } else { i - a - m + b + 1 };
            assert(all[i] == kids[j]);
            assert(stored(s, kids[j], loose));
            stored_frame(s, after, kids[j], loose, t.id());
        }
    }
}

/// The records of a tree stay the same when children are replaced by others with the same
/// records.
pub proof fn splice_flat(t: Tree, a: int, b: int, new: Seq<Tree>, separators: Seq<Seq<u8>>)
    requires
        t is Node,
        0 <= a <= b < t.kids().len(),
        flat_all(new) == flat_all(t.kids().subrange(a, b + 1)),
    ensures
        flat(Tree::Node { id: t.id(), kids: spliced(t.kids(), a, b, new), separators }) == flat(t),
{
    let kids = t.kids();
    let window = kids.subrange(a, b + 1);
    flat_all_concat(kids.take(a) + new, kids.skip(b + 1));
    flat_all_concat(kids.take(a), new);
    flat_all_concat(kids.take(a) + window, kids.skip(b + 1));
    flat_all_concat(kids.take(a), window);
    assert(kids =~= kids.take(a) + window + kids.skip(b + 1));
}

/// The new children as an internal page lists them.
pub open spec fn new_slots(
    new: Seq<Tree>,
    inner: Seq<Seq<u8>>,
    end: Option<Seq<u8>>,
) -> Seq<Slot> {
    Seq::new(
        new.len(),
        |i: int|
            Slot {
                page_id: new[i].id(),
                separator: if i + 1 == new.len() {
                    end
                } else {
                    Some(inner[i])
                },
            },
    )
}

/// Replacing children in the list that an internal page holds gives the list of the children
/// afterwards.
pub proof fn splice_slots(
    kids: Seq<Tree>,
    separators: Seq<Seq<u8>>,
    a: int,
    b: int,
    new: Seq<Tree>,
    inner: Seq<Seq<u8>>,
    end: Seq<u8>,
)
    requires
        kids.len() == separators.len() + 1,
        0 <= a <= b < kids.len(),
        new.len() == inner.len() + 1,
    ensures
        slots_of(node_of_kids(kids, separators)).len() == kids.len(),
        node_of(
            replace_slots(
                slots_of(node_of_kids(kids, separators)),
                a,
                b,
                new_slots(new, inner, end_bound(separators, b, end, None)),
            ),
        ) == Some(
            node_of_kids(
                spliced(kids, a, b, new),
                spliced_separators(separators, a, b, inner, end),
            ),
        ),
{
    let node = node_of_kids(kids, separators);
    let slots = slots_of(node);
    let put = new_slots(new, inner, end_bound(separators, b, end, None));
    let after = replace_slots(slots, a, b, put);
    let all = spliced(kids, a, b, new);
    let cuts = spliced_separators(separators, a, b, inner, end);
    let m = new.len();
    assert forall|i: int| 0 <= i < kids.len() implies (#[trigger] slots[i]) == (Slot {
        page_id: kids[i].id(),
        separator: if i < separators.len() {
            Some(separators[i])
        } else {
            None
        },
    }) by {}
    assert(after.len() == all.len());
    assert(cuts.len() + 1 == all.len());
    assert forall|i: int| 0 <= i < after.len() implies (#[trigger] after[i]) == (Slot {
        page_id: all[i].id(),
        separator: if i < cuts.len() {
            Some(cuts[i])
        } else {
            None
        },
    }) by {
        if i < a {
            assert(after[i] == slots[i]);
        } else if i < a + m {
            assert(after[i] == put[i - a]);
        } else {
            assert(after[i] == slots[i - a - m + b + 1]);
        }
    }
    assert(node_of(after)->Some_0.cells =~= node_of_kids(all, cuts).cells);
}

} // verus!
