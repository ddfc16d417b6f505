//! Places in a tree: what is there, and what becomes of the tree when it is replaced.
use crate::storage::model::LeafCell;
use crate::storage::page::PageId;
use crate::storage::pager::PagerModel;
use crate::storage::tree::{apart, flat, flat_all, lower, node_of_kids, ordered, owns, stored};
use crate::storage::tree::{upper, Tree};
use crate::storage::tree_model::PathFrame;
use vstd::prelude::*;

verus! {

/// The records of trees in two parts.
pub proof fn flat_all_concat(a: Seq<Tree>, b: Seq<Tree>)
    ensures
        flat_all(a + b) == flat_all(a) + flat_all(b),
    decreases b.len(),
{
    if b.len() == 0 {
        assert(a + b =~= a);
    } else {
        flat_all_concat(a, b.drop_last());
        assert((a + b).drop_last() =~= a + b.drop_last());
        assert((a + b).last() == b.last());
        assert(flat_all(a + b) =~= flat_all(a) + flat_all(b));
    }
}

/// The records of one tree.
pub proof fn flat_all_one(t: Tree)
    ensures
        flat_all(seq![t]) == flat(t),
{
    assert(seq![t].drop_last() =~= Seq::<Tree>::empty());
    assert(flat_all(Seq::<Tree>::empty()) =~= Seq::<LeafCell>::empty());
    assert(flat_all(seq![t]) =~= flat(t));
}

/// The records of trees, around one of them.
pub proof fn flat_all_around(kids: Seq<Tree>, i: int)
    requires
        0 <= i < kids.len(),
    ensures
        flat_all(kids) == flat_all(kids.take(i)) + flat(kids[i]) + flat_all(kids.skip(i + 1)),
{
    assert(kids =~= kids.take(i) + seq![kids[i]] + kids.skip(i + 1));
    flat_all_concat(kids.take(i) + seq![kids[i]], kids.skip(i + 1));
    flat_all_concat(kids.take(i), seq![kids[i]]);
    flat_all_one(kids[i]);
}

/// The tree at a place, given by the indices of children from the top down.
pub open spec fn part(t: Tree, place: Seq<int>) -> Tree
    decreases place.len(),
{
    if place.len() == 0 {
        t
    } else {
        part(t, place.drop_last()).kids()[place.last()]
    }
}

/// The tree has the place.
pub open spec fn has_place(t: Tree, place: Seq<int>) -> bool
    decreases place.len(),
{
    place.len() > 0 ==> {
        &&& has_place(t, place.drop_last())
        &&& part(t, place.drop_last()) is Node
        &&& 0 <= place.last() < part(t, place.drop_last()).kids().len()
    }
}

/// The bound that the keys at a place are greater than.
pub open spec fn lo_at(t: Tree, place: Seq<int>) -> Option<Seq<u8>>
    decreases place.len(),
{
    if place.len() == 0 {
        None
    } else {
        let parent = place.drop_last();
        lower(part(t, parent).separators(), lo_at(t, parent), place.last())
    }
}

/// The bound that the keys at a place are not greater than.
pub open spec fn hi_at(t: Tree, place: Seq<int>) -> Option<Seq<u8>>
    decreases place.len(),
{
    if place.len() == 0 {
        None
    } else {
        let parent = place.drop_last();
        upper(part(t, parent).separators(), hi_at(t, parent), place.last())
    }
}

/// The records left of a place.
pub open spec fn left_of(t: Tree, place: Seq<int>) -> Seq<LeafCell>
    decreases place.len(),
{
    if place.len() == 0 {
        Seq::empty()
    } else {
        let parent = place.drop_last();
        left_of(t, parent) + flat_all(part(t, parent).kids().take(place.last()))
    }
}

/// The records right of a place.
pub open spec fn right_of(t: Tree, place: Seq<int>) -> Seq<LeafCell>
    decreases place.len(),
{
    if place.len() == 0 {
        Seq::empty()
    } else {
        let parent = place.drop_last();
        flat_all(part(t, parent).kids().skip(place.last() + 1)) + right_of(t, parent)
    }
}

/// The path that a descent to a place takes.
pub open spec fn path_to(t: Tree, place: Seq<int>) -> Seq<PathFrame>
    decreases place.len(),
{
    if place.len() == 0 {
        Seq::empty()
    } else {
        let parent = place.drop_last();
        path_to(t, parent).push(
            PathFrame { page_id: part(t, parent).id(), child_index: place.last() as u16 },
        )
    }
}

/// A tree with one child replaced.
pub open spec fn with_kid(t: Tree, i: int, new: Tree) -> Tree {
    Tree::Node { id: t.id(), kids: t.kids().update(i, new), separators: t.separators() }
}

/// The tree with another at a place.
pub open spec fn with(t: Tree, place: Seq<int>, new: Tree) -> Tree
    decreases place.len(),
{
    if place.len() == 0 {
        new
    } else {
        let parent = place.drop_last();
        with(t, parent, with_kid(part(t, parent), place.last(), new))
    }
}

/// The tree at a place is in order.
pub proof fn part_ordered(t: Tree, place: Seq<int>, height: nat)
    requires
        has_place(t, place),
        ordered(t, height, None, None),
    ensures
        place.len() <= height,
        ordered(part(t, place), (height - place.len()) as nat, lo_at(t, place), hi_at(t, place)),
    decreases place.len(),
{
    if place.len() > 0 {
        part_ordered(t, place.drop_last(), height);
    }
}

/// The tree with another in order at a place is in order.
pub proof fn with_ordered(t: Tree, place: Seq<int>, new: Tree, height: nat)
    requires
        has_place(t, place),
        ordered(t, height, None, None),
        place.len() <= height,
        ordered(new, (height - place.len()) as nat, lo_at(t, place), hi_at(t, place)),
    ensures
        ordered(with(t, place, new), height, None, None),
    decreases place.len(),
{
    if place.len() > 0 {
        let parent = place.drop_last();
        let i = place.last();
        part_ordered(t, parent, height);
        let node = part(t, parent);
        let after = with_kid(node, i, new);
        let h = (height - parent.len()) as nat;
        assert(ordered(after, h, lo_at(t, parent), hi_at(t, parent))) by {
            assert forall|j: int| 0 <= j < after.kids().len() implies ordered(
                #[trigger] after.kids()[j],
                (h - 1) as nat,
                lower(after.separators(), lo_at(t, parent), j),
                upper(after.separators(), hi_at(t, parent), j),
            ) by {
                if j != i {
                    assert(after.kids()[j] == node.kids()[j]);
                }
            }
        }
        with_ordered(t, parent, after, height);
    }
}

/// What the tree with another at a place has there, and on the way there.
pub proof fn with_at_place(t: Tree, place: Seq<int>, new: Tree)
    requires
        has_place(t, place),
    ensures
        has_place(with(t, place, new), place),
        part(with(t, place, new), place) == new,
        path_to(with(t, place, new), place) == path_to(t, place),
        place.len() > 0 ==> with(t, place, new).id() == t.id(),
        flat(with(t, place, new)) == left_of(t, place) + flat(new) + right_of(t, place),
    decreases place.len(),
{
    if place.len() > 0 {
        let parent = place.drop_last();
        let i = place.last();
        let node = part(t, parent);
        let after = with_kid(node, i, new);
        with_at_place(t, parent, after);
        if parent.len() == 0 {
            assert(after.id() == t.id());
        }
        flat_all_around(after.kids(), i);
        assert(after.kids().take(i) =~= node.kids().take(i));
        assert(after.kids().skip(i + 1) =~= node.kids().skip(i + 1));
        assert(flat(with(t, place, new)) =~= left_of(t, place) + flat(new) + right_of(t, place));
    } else {
        assert(flat(with(t, place, new)) =~= left_of(t, place) + flat(new) + right_of(t, place));
    }
}

/// The records of a tree, around a place.
pub proof fn flat_around(t: Tree, place: Seq<int>)
    requires
        has_place(t, place),
    ensures
        flat(t) == left_of(t, place) + flat(part(t, place)) + right_of(t, place),
    decreases place.len(),
{
    if place.len() > 0 {
        let parent = place.drop_last();
        flat_around(t, parent);
        flat_all_around(part(t, parent).kids(), place.last());
    }
    assert(flat(t) =~= left_of(t, place) + flat(part(t, place)) + right_of(t, place));
}

/// The pages of a child are pages of the tree.
pub proof fn owns_kid(t: Tree, i: int, x: PageId)
    requires
        t is Node,
        0 <= i < t.kids().len(),
        owns(t.kids()[i], x),
    ensures
        owns(t, x),
{
}

/// A page below the top is a page of a child.
pub proof fn owned_by_kid(t: Tree, x: PageId) -> (i: int)
    requires
        owns(t, x),
        t.id() != x,
    ensures
        t is Node,
        0 <= i < t.kids().len(),
        owns(t.kids()[i], x),
{
    choose|i: int| 0 <= i < t.kids().len() && owns(#[trigger] t.kids()[i], x)
}

/// The pages at a place are pages of the tree.
pub proof fn part_owned(t: Tree, place: Seq<int>)
    requires
        has_place(t, place),
    ensures
        forall|x: PageId| #[trigger] owns(part(t, place), x) ==> owns(t, x),
    decreases place.len(),
{
    if place.len() > 0 {
        part_owned(t, place.drop_last());
        assert forall|x: PageId| #[trigger] owns(part(t, place), x) implies owns(t, x) by {
            let node = part(t, place.drop_last());
            owns_kid(node, place.last(), x);
        }
    }
}

/// No page is at a place twice.
pub proof fn part_apart(t: Tree, place: Seq<int>)
    requires
        has_place(t, place),
        apart(t),
    ensures
        apart(part(t, place)),
    decreases place.len(),
{
    if place.len() > 0 {
        part_apart(t, place.drop_last());
    }
}

/// The pages at a place are in memory if all are.
pub proof fn part_stored(s: PagerModel, t: Tree, place: Seq<int>, loose: PageId)
    requires
        has_place(t, place),
        stored(s, t, loose),
    ensures
        stored(s, part(t, place), loose),
    decreases place.len(),
{
    if place.len() > 0 {
        part_stored(s, t, place.drop_last(), loose);
    }
}

/// The tree with another at a place holds no page twice, if what is new are pages that the
/// tree did not have elsewhere.
pub proof fn with_apart(t: Tree, place: Seq<int>, new: Tree)
    requires
        has_place(t, place),
        apart(t),
        apart(new),
        forall|x: PageId| #[trigger] owns(new, x) ==> owns(part(t, place), x) || !owns(t, x),
    ensures
        apart(with(t, place, new)),
        forall|x: PageId| #[trigger]
            owns(with(t, place, new), x) ==> owns(t, x) || owns(new, x),
    decreases place.len(),
{
    part_owned(t, place);
    if place.len() > 0 {
        let parent = place.drop_last();
        let i = place.last();
        let node = part(t, parent);
        let after = with_kid(node, i, new);
        part_apart(t, parent);
        part_owned(t, parent);
        assert forall|x: PageId| #[trigger] owns(after, x) implies owns(node, x) || (owns(new, x)
            && !owns(t, x)) by {
            if after.id() != x {
                let j = owned_by_kid(after, x);
                if j != i {
                    owns_kid(node, j, x);
                } else if owns(part(t, place), x) {
                    owns_kid(node, i, x);
                }
            }
        }
        let kids = after.kids();
        let id = node.id();
        assert(apart(after)) by {
            assert forall|j: int| 0 <= j < kids.len() implies !(#[trigger] owns(kids[j], id)) by {
                assert(owns(node, id));
                assert(!owns(node.kids()[j], id));
                if j != i {
                    assert(kids[j] == node.kids()[j]);
                }
            }
            assert forall|j: int, k: int, x: PageId| 0 <= j < k < kids.len() implies !(
            #[trigger] owns(kids[j], x) && #[trigger] owns(kids[k], x)) by {
                if j != i && k != i {
                    assert(!(owns(node.kids()[j], x) && owns(node.kids()[k], x)));
                } else if j == i {
                    if owns(new, x) && owns(node.kids()[k], x) {
                        owns_kid(node, k, x);
                        assert(owns(node.kids()[i], x));
                    }
                } else {
                    if owns(new, x) && owns(node.kids()[j], x) {
                        owns_kid(node, j, x);
                        assert(owns(node.kids()[i], x));
                    }
                }
            }
            assert forall|j: int| 0 <= j < kids.len() implies apart(
                #[trigger] kids[j],
            ) by {
                if j != i {
                    assert(apart(node.kids()[j]));
                }
            }
        }
        with_apart(t, parent, after);
    }
}

/// Pages that did not change hold what they held.
pub proof fn stored_frame(s: PagerModel, after: PagerModel, t: Tree, loose: PageId, new: PageId)
    requires
        stored(s, t, loose),
        loose == new || !owns(t, loose),
        s.page_count <= after.page_count,
        forall|x: PageId| #[trigger]
            owns(t, x) ==> after.pages.contains_key(x.0) && after.pages[x.0] == s.pages[x.0],
    ensures
        stored(after, t, new),
    decreases t,
{
    assert(owns(t, t.id()));
    match t {
        Tree::Leaf { .. } => {},
        Tree::Node { id, kids, separators } => {
            assert forall|i: int| 0 <= i < kids.len() implies stored(
                after,
                #[trigger] kids[i],
                new,
            ) by {
                assert forall|x: PageId| #[trigger] owns(kids[i], x) implies owns(t, x) by {
                    owns_kid(t, i, x);
                }
                stored_frame(s, after, kids[i], loose, new);
            }
        },
    }
}

/// The pages of the tree with another at a place are in memory, if only pages at the place
/// changed and the loose page was there.
pub proof fn with_stored(
    s: PagerModel,
    after: PagerModel,
    t: Tree,
    place: Seq<int>,
    new: Tree,
    loose: PageId,
    new_loose: PageId,
)
    requires
        has_place(t, place),
        apart(t),
        stored(s, t, loose),
        owns(part(t, place), loose) || loose == new_loose || !owns(t, loose),
        stored(after, new, new_loose),
        new.id() == part(t, place).id(),
        s.page_count <= after.page_count,
        forall|x: PageId| #[trigger]
            owns(t, x) && !owns(part(t, place), x) ==> after.pages.contains_key(x.0)
                && after.pages[x.0] == s.pages[x.0],
    ensures
        stored(after, with(t, place, new), new_loose),
    decreases place.len(),
{
    if place.len() > 0 {
        let parent = place.drop_last();
        let i = place.last();
        let node = part(t, parent);
        let changed = with_kid(node, i, new);
        part_apart(t, parent);
        part_owned(t, parent);
        part_stored(s, t, parent, loose);
        assert(owns(node, node.id()));
        assert(!owns(node.kids()[i], node.id()));
        assert(forall|x: PageId| #[trigger] owns(part(t, place), x) ==> owns(node.kids()[i], x));
        assert(stored(after, changed, new_loose)) by {
            let count = node.kids().len() as int;
            assert(changed.kids()[count - 1].id() == node.kids()[count - 1].id());
            assert(node_of_kids(changed.kids(), changed.separators()) =~= node_of_kids(
                node.kids(),
                node.separators(),
            ));
            assert forall|j: int| 0 <= j < changed.kids().len() implies stored(
                after,
                #[trigger] changed.kids()[j],
                new_loose,
            ) by {
                if j != i {
                    let kid = node.kids()[j];
                    assert forall|x: PageId| #[trigger] owns(kid, x) implies owns(t, x) && !owns(
                        part(t, place),
                        x,
                    ) by {
                        owns_kid(node, j, x);
                        assert(!(owns(node.kids()[i], x) && owns(node.kids()[j], x)));
                    }
                    stored_frame(s, after, kid, loose, new_loose);
                }
            }
        }
        assert forall|x: PageId| #[trigger] owns(part(t, place), x) implies owns(node, x) by {
            owns_kid(node, i, x);
        }
        with_stored(s, after, t, parent, changed, loose, new_loose);
    }
}

} // verus!
