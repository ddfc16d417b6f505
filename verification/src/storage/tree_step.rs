//! What becomes of a tree when neighbouring children of one page go to other pages.
use crate::error::ShuError;
use crate::storage::page::{PageId, PageModel};
use crate::storage::pager::{PagerModel, META_PAGE_ID};
use crate::storage::tree::{apart, flat, flat_all, meta_in_order, node_at, node_of_kids, ordered};
use crate::storage::tree::{owns, page_at, stored, Tree};
use crate::storage::tree_model::{node_of, replace_slots, slots_of, window_ids};
use crate::storage::tree_path::{owned_by_kid, owns_kid, stored_frame};
use crate::storage::tree_splice::{all_apart, any_owns, end_bound, new_slots, splice_apart};
use crate::storage::tree_splice::{splice_fits, splice_flat, splice_ordered, splice_slots};
use crate::storage::tree_splice::{splice_stored, spliced, spliced_separators};
use crate::storage::tree_store::{ids_for_groups, rewrite_internal_keeps, unchanged_but};
use crate::storage::tree_window::{kid_ids_differ, window_of};
use vstd::prelude::*;

verus! {

/// Every page of a tree in memory is there under its own id.
pub proof fn owned_pages_present(s: PagerModel, t: Tree, loose: PageId)
    requires
        stored(s, t, loose),
    ensures
        forall|x: PageId| #[trigger] owns(t, x) ==> page_at(s, x),
    decreases t,
{
    assert forall|x: PageId| #[trigger] owns(t, x) implies page_at(s, x) by {
        if x != t.id() {
            let i = owned_by_kid(t, x);
            owned_pages_present(s, t.kids()[i], loose);
        }
    }
}

/// The pages that are no part of the tree are as they were, but for the meta page.
pub open spec fn unchanged_outside(s: PagerModel, after: PagerModel, t: Tree) -> bool {
    &&& s.page_count <= after.page_count
    &&& forall|x: PageId|
        x.0 != META_PAGE_ID && x.0 < s.page_count && !owns(t, x) && #[trigger] s.pages.contains_key(
            x.0,
        ) ==> after.pages.contains_key(x.0) && after.pages[x.0] == s.pages[x.0]
}

/// The tree was rearranged: it has the same page at its top, which alone may have an
/// overflow, and the same records; it is in order; its pages are pages that it had, or new.
pub open spec fn rearranged(
    s: PagerModel,
    after: PagerModel,
    t: Tree,
    new: Tree,
    height: nat,
    lo: Option<Seq<u8>>,
    hi: Option<Seq<u8>>,
) -> bool {
    &&& meta_in_order(after)
    &&& unchanged_outside(s, after, t)
    &&& new.id() == t.id()
    &&& flat(new) == flat(t)
    &&& ordered(new, height, lo, hi)
    &&& apart(new)
    &&& stored(after, new, t.id())
    &&& forall|x: PageId| #[trigger] owns(new, x) ==> owns(t, x) || x.0 >= s.page_count
}

/// The ids of the pages that groups go to: those of the window, or new ones.
pub proof fn group_ids(s: PagerModel, t: Tree, a: int, b: int, m: nat, loose: PageId)
    requires
        t is Node,
        apart(t),
        stored(s, t, loose),
        0 <= a <= b < t.kids().len(),
        s.page_count + m <= u32::MAX + (b - a + 1),
    ensures
        ({
            let reuse = window_ids(window_of(s, t.kids(), a, b));
            let ids = ids_for_groups(s, reuse, m);
            &&& reuse.len() == b - a + 1
            &&& forall|j: int| 0 <= j < reuse.len() ==> #[trigger] reuse[j] == t.kids()[a + j].id()
            &&& reuse.no_duplicates()
            &&& ids.no_duplicates()
            &&& forall|i: int|
                0 <= i < ids.len() ==> (#[trigger] ids[i]).0 >= s.page_count || any_owns(
                    t.kids().subrange(a, b + 1),
                    ids[i],
                )
            &&& forall|i: int| 0 <= i < ids.len() ==> (#[trigger] ids[i]) != t.id()
        }),
{
    let kids = t.kids();
    let window = kids.subrange(a, b + 1);
    let reuse = window_ids(window_of(s, kids, a, b));
    let ids = ids_for_groups(s, reuse, m);
    owned_pages_present(s, t, loose);
    assert forall|j: int| 0 <= j < reuse.len() implies #[trigger] reuse[j] == kids[a + j].id()
        && page_at(s, reuse[j]) && any_owns(window, reuse[j]) && reuse[j] != t.id() by {
        let kid = kids[a + j];
        assert(owns(kid, kid.id()));
        owns_kid(t, a + j, kid.id());
        assert(window[j] == kid);
        assert(!owns(kids[a + j], t.id()));
    }
    assert forall|i: int, j: int| 0 <= i < reuse.len() && 0 <= j < reuse.len() && i != j implies
        reuse[i] != reuse[j] by {
        kid_ids_differ(t, a + i, a + j);
    }
    assert(owns(t, t.id()));
    assert forall|i: int| 0 <= i < ids.len() implies ((#[trigger] ids[i]).0 >= s.page_count
        || any_owns(window, ids[i])) && ids[i] != t.id() by {
        if i < reuse.len() {
            assert(ids[i] == reuse[i]);
        }
    }
    assert forall|i: int, j: int| 0 <= i < ids.len() && 0 <= j < ids.len() && i != j implies ids[i]
        != ids[j] by {
        if i < reuse.len() && j < reuse.len() {
            assert(reuse[i] != reuse[j]);
        } else if i < reuse.len() {
            assert(page_at(s, reuse[i]));
        } else if j < reuse.len() {
            assert(page_at(s, reuse[j]));
        }
    }
}

/// The tree after children from `a` to `b` are replaced.
pub open spec fn respliced(
    t: Tree,
    a: int,
    b: int,
    new: Seq<Tree>,
    inner: Seq<Seq<u8>>,
    end: Seq<u8>,
) -> Tree {
    Tree::Node {
        id: t.id(),
        kids: spliced(t.kids(), a, b, new),
        separators: spliced_separators(t.separators(), a, b, inner, end),
    }
}

/// The parent's list of children is replaced as the tree says.
proof fn parent_is_rewritten(
    s: PagerModel,
    placed: PagerModel,
    t: Tree,
    a: int,
    b: int,
    new: Seq<Tree>,
    inner: Seq<Seq<u8>>,
    end: Seq<u8>,
    ids: Seq<PageId>,
    x: PageId,
)
    requires
        t is Node,
        stored(s, t, x),
        t.id() != x,
        t.kids().len() <= 510,
        0 <= a <= b < t.kids().len(),
        new.len() == inner.len() + 1,
        meta_in_order(placed),
        unchanged_but(s, placed, ids),
        !ids.contains(t.id()),
    ensures
        ({
            let (after, result) = placed.replace_children(
                t.id(),
                a as u16,
                b as u16,
                new_slots(new, inner, end_bound(t.separators(), b, end, None)),
            );
            let changed = respliced(t, a, b, new, inner, end);
            &&& result == Ok::<(), ShuError>(())
            &&& after == placed.store(t.id(), after.pages[t.id().0])
            &&& meta_in_order(after)
            &&& node_at(
                after,
                t.id(),
                node_of_kids(changed.kids(), changed.separators()),
                true,
            )
        }),
{
    let parent = s.pages[t.id().0];
    let kids = t.kids();
    let separators = t.separators();
    assert(s.pages.contains_key(t.id().0));
    assert(placed.read_page(t.id()) == Ok::<PageModel, ShuError>(parent));
    splice_slots(kids, separators, a, b, new, inner, end);
    let changed = respliced(t, a, b, new, inner, end);
    let node = node_of_kids(changed.kids(), changed.separators());
    let slots = slots_of(node_of_kids(kids, separators));
    let put = new_slots(new, inner, end_bound(separators, b, end, None));
    assert(node_of(replace_slots(slots, a, b, put)) == Some(node));
    rewrite_internal_keeps(parent, node);
    assert(parent.replace_children(a as u16, b as u16, put)
        == parent.rewrite_internal_entries(node));
}

/// Writing the children to pages of their own, and then the parent's list of them,
/// rearranges the tree.
pub proof fn splice_rearranges(
    s: PagerModel,
    placed: PagerModel,
    t: Tree,
    height: nat,
    lo: Option<Seq<u8>>,
    hi: Option<Seq<u8>>,
    a: int,
    b: int,
    new: Seq<Tree>,
    inner: Seq<Seq<u8>>,
    end: Seq<u8>,
    ids: Seq<PageId>,
    x: PageId,
)
    requires
        t is Node,
        ordered(t, height, lo, hi),
        apart(t),
        stored(s, t, x),
        t.id() != x,
        t.kids().len() <= 510,
        splice_fits(t, height, lo, hi, a, b, new, inner, end),
        any_owns(t.kids().subrange(a, b + 1), x),
        flat_all(new) == flat_all(t.kids().subrange(a, b + 1)),
        all_apart(new),
        forall|j: int, y: PageId|
            0 <= j < new.len() && #[trigger] owns(new[j], y) ==> any_owns(
                t.kids().subrange(a, b + 1),
                y,
            ) || y.0 >= s.page_count,
        forall|j: int| 0 <= j < new.len() ==> stored(placed, #[trigger] new[j], t.id()),
        meta_in_order(placed),
        unchanged_but(s, placed, ids),
        forall|j: int|
            0 <= j < ids.len() ==> (#[trigger] ids[j]).0 >= s.page_count || any_owns(
                t.kids().subrange(a, b + 1),
                ids[j],
            ),
    ensures
        ({
            let (after, result) = placed.replace_children(
                t.id(),
                a as u16,
                b as u16,
                new_slots(new, inner, end_bound(t.separators(), b, end, None)),
            );
            &&& result == Ok::<(), ShuError>(())
            &&& rearranged(s, after, t, respliced(t, a, b, new, inner, end), height, lo, hi)
        }),
{
    let kids = t.kids();
    let old = kids.subrange(a, b + 1);
    let changed = respliced(t, a, b, new, inner, end);
    let cuts = changed.separators();
    owned_pages_present(s, t, x);
    assert(owns(t, t.id()));
    assert forall|y: PageId| #[trigger] any_owns(old, y) implies owns(t, y) && y != t.id() by {
        let k = choose|k: int| 0 <= k < old.len() && owns(#[trigger] old[k], y);
        assert(old[k] == kids[a + k]);
        owns_kid(t, a + k, y);
        assert(!owns(kids[a + k], t.id()));
    }
    assert(!ids.contains(t.id()));
    parent_is_rewritten(s, placed, t, a, b, new, inner, end, ids, x);
    let after = placed.replace_children(
        t.id(),
        a as u16,
        b as u16,
        new_slots(new, inner, end_bound(t.separators(), b, end, None)),
    ).0;
    splice_ordered(t, height, lo, hi, a, b, new, inner, end);
    assert forall|j: int, y: PageId| 0 <= j < new.len() && #[trigger] owns(
        new[j],
        y,
    ) implies any_owns(old, y) || !owns(t, y) by {
        if owns(t, y) {
            assert(page_at(s, y));
        }
    }
    splice_apart(t, a, b, new, cuts);
    assert forall|j: int| 0 <= j < new.len() implies stored(after, #[trigger] new[j], t.id()) by {
        assert(stored(placed, new[j], t.id()));
        owned_pages_present(placed, new[j], t.id());
        assert forall|y: PageId| #[trigger] owns(new[j], y) implies after.pages.contains_key(y.0)
            && after.pages[y.0] == placed.pages[y.0] by {
            assert(page_at(placed, y));
            assert(y != t.id());
        }
        stored_frame(placed, after, new[j], t.id(), t.id());
    }
    assert forall|y: PageId| #[trigger] owns(t, y) && y != t.id() && !any_owns(
        old,
        y,
    ) implies after.pages.contains_key(y.0) && after.pages[y.0] == s.pages[y.0] by {
        assert(page_at(s, y));
        assert(!ids.contains(y));
        assert(s.pages.contains_key(y.0));
    }
    splice_stored(s, after, t, a, b, new, cuts, x);
    splice_flat(t, a, b, new, cuts);
    assert forall|y: PageId|
        y.0 != META_PAGE_ID && y.0 < s.page_count && !owns(t, y) && #[trigger] s.pages.contains_key(
            y.0,
        ) implies after.pages.contains_key(y.0) && after.pages[y.0] == s.pages[y.0] by {
        assert(!ids.contains(y));
    }
    assert forall|y: PageId| #[trigger] owns(changed, y) implies owns(t, y) || y.0
        >= s.page_count by {
        if !owns(t, y) {
            assert(any_owns(new, y));
        }
    }
}

} // verus!
