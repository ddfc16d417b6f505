//! The window of pages that a page out of balance shares records with.
use crate::error::ShuError;
use crate::storage::model::InternalNode;
use crate::storage::page::{PageId, PageModel};
use crate::storage::pager::PagerModel;
use crate::storage::tree::{apart, node_of_kids, owns, stored, Tree};
use crate::storage::tree_model::{child_of, find_child, insert_by_index, siblings, Sibling};
use crate::storage::tree_model::WindowPage;
use crate::storage::tree_search::settled_node_len;
use vstd::prelude::*;

verus! {

/// The first child of the window around a child.
pub open spec fn window_start(i: int) -> int {
    if i > 0 {
        i - 1
    } else {
        0
    }
}

/// The last child of the window around a child.
pub open spec fn window_end(i: int, last: int) -> int {
    if i < last {
        i + 1
    } else {
        i
    }
}

/// The children from `a` to `b` as pages in memory.
pub open spec fn window_of(s: PagerModel, kids: Seq<Tree>, a: int, b: int) -> Seq<WindowPage> {
    Seq::new(
        (b - a + 1) as nat,
        |j: int| WindowPage { page: s.pages[kids[a + j].id().0], index: (a + j) as u16 },
    )
}

/// Children of a tree that holds no page twice have ids of their own.
pub proof fn kid_ids_differ(t: Tree, i: int, j: int)
    requires
        t is Node,
        apart(t),
        0 <= i < t.kids().len(),
        0 <= j < t.kids().len(),
        i != j,
    ensures
        t.kids()[i].id() != t.kids()[j].id(),
{
    let x = t.kids()[i].id();
    assert(owns(t.kids()[i], x));
    if t.kids()[j].id() == x {
        assert(owns(t.kids()[j], x));
        if i < j {
            assert(!(owns(t.kids()[i], x) && owns(t.kids()[j], x)));
        } else {
            assert(!(owns(t.kids()[j], x) && owns(t.kids()[i], x)));
        }
    }
}

/// A child is found at its index.
proof fn child_is_found(t: Tree, i: int, from: nat)
    requires
        t is Node,
        apart(t),
        t.kids().len() == t.separators().len() + 1,
        from <= i < t.kids().len(),
    ensures
        find_child(node_of_kids(t.kids(), t.separators()), t.kids()[i].id(), from) == Some(i as nat),
    decreases i - from,
{
    let node = node_of_kids(t.kids(), t.separators());
    assert(child_of(node, from as int) == t.kids()[from as int].id());
    if from < i {
        kid_ids_differ(t, i, from as int);
        child_is_found(t, i, from + 1);
    }
}

/// The window around a child is made of the child and its neighbours.
pub proof fn window_is_loaded(s: PagerModel, t: Tree, i: int, loose: PageId)
    requires
        t is Node,
        apart(t),
        stored(s, t, loose),
        t.id() != loose,
        0 <= i < t.kids().len(),
    ensures
        t.kids().len() <= 510,
        s.read_page(t.id()) == Ok::<PageModel, ShuError>(s.pages[t.id().0]),
        s.pages[t.id().0].internal_entries() == Ok::<InternalNode, ShuError>(
            node_of_kids(t.kids(), t.separators()),
        ),
        s.load_window(t.kids()[i].id(), s.pages[t.id().0], i as u16) == Ok::<
            Seq<WindowPage>,
            ShuError,
        >(window_of(s, t.kids(), window_start(i), window_end(i, t.separators().len() as int))),
{
    let kids = t.kids();
    let node = node_of_kids(kids, t.separators());
    let parent = s.pages[t.id().0];
    let last = t.separators().len() as int;
    let a = window_start(i);
    let b = window_end(i, last);
    settled_node_len(node.cells);
    child_is_found(t, i, 0);
    assert forall|j: int| 0 <= j < kids.len() implies s.read_page((#[trigger] kids[j]).id())
        == Ok::<PageModel, ShuError>(s.pages[kids[j].id().0]) by {
        assert(stored(s, kids[j], loose));
    }
    let x = kids[i].id();
    let here = WindowPage { page: s.pages[x.0], index: i as u16 };
    let beside = siblings(x, parent)->Ok_0;
    reveal_with_fuel(insert_by_index, 3);
    reveal_with_fuel(PagerModel::load_pages, 3);
    assert(s.read_page(x) == Ok::<PageModel, ShuError>(s.pages[x.0]));
    let goal = window_of(s, kids, a, b);
    if i > 0 {
        let left = WindowPage { page: s.pages[kids[i - 1].id().0], index: (i - 1) as u16 };
        assert(child_of(node, i - 1) == kids[i - 1].id());
        if i < last {
            let right = WindowPage { page: s.pages[kids[i + 1].id().0], index: (i + 1) as u16 };
            assert(child_of(node, i + 1) == kids[i + 1].id());
            assert(beside.len() == 2);
            assert(beside[0] == (Sibling { page: kids[i - 1].id(), index: (i - 1) as u16 }));
            assert(beside[1] == (Sibling { page: kids[i + 1].id(), index: (i + 1) as u16 }));
            assert(s.load_pages(beside, 1)->Ok_0 =~= seq![left]);
            assert(s.load_pages(beside, 2)->Ok_0 =~= seq![left, right]);
            assert(seq![left, right].drop_last() =~= seq![left]);
            assert(insert_by_index(seq![left, right], here) =~= seq![left, here, right]);
            assert(goal =~= seq![left, here, right]);
        } else {
            assert(beside.len() == 1);
            assert(beside[0] == (Sibling { page: kids[i - 1].id(), index: (i - 1) as u16 }));
            assert(s.load_pages(beside, 1)->Ok_0 =~= seq![left]);
            assert(insert_by_index(seq![left], here) =~= seq![left, here]);
            assert(goal =~= seq![left, here]);
        }
    } else {
        if i < last {
            let right = WindowPage { page: s.pages[kids[i + 1].id().0], index: (i + 1) as u16 };
            assert(child_of(node, i + 1) == kids[i + 1].id());
            assert(beside.len() == 1);
            assert(beside[0] == (Sibling { page: kids[i + 1].id(), index: (i + 1) as u16 }));
            assert(s.load_pages(beside, 1)->Ok_0 =~= seq![right]);
            assert(seq![right].drop_last() =~= Seq::<WindowPage>::empty());
            assert(insert_by_index(seq![right], here) =~= seq![here, right]);
            assert(goal =~= seq![here, right]);
        } else {
            assert(beside.len() == 0);
            assert(insert_by_index(Seq::empty(), here) =~= seq![here]);
            assert(goal =~= seq![here]);
        }
    }
}

} // verus!
