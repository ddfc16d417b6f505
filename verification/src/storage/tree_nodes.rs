//! What becomes of a tree when the children of neighbouring internal pages are spread anew.
use crate::error::ShuError;
use crate::storage::model::{InternalCell, InternalNode};
use crate::storage::order::{lex_lt, lex_lt_transitive};
use crate::storage::page::{PageId, PageType};
use crate::storage::pager::PagerModel;
use crate::storage::slotted::{internal_cell_space, internal_space, INTERNAL_CAPACITY};
use crate::storage::tree::{above, apart, below, flat, flat_all, lower, meta_in_order, node_at};
use crate::storage::tree::{node_of_kids, ordered, owns, page_at, separators_between, stored, upper};
use crate::storage::tree::Tree;
use crate::storage::tree_groups::{first_offset, internal_groups_cut, node_group_cut, node_offset};
use crate::storage::tree_groups::part_in_range;
use crate::storage::tree_model::{gather_nodes, internal_groups, node_slots, slots_of, window_ids};
use crate::storage::tree_model::NodeGroup;
use crate::storage::tree_path::{flat_all_concat, flat_all_one, owned_by_kid, owns_kid};
use crate::storage::tree_path::stored_frame;
use crate::storage::tree_splice::{all_apart, any_owns, end_bound, new_slots, splice_fits};
use crate::storage::tree_step::{group_ids, owned_pages_present, rearranged, respliced};
use crate::storage::tree_step::splice_rearranges;
use crate::storage::tree_store::{ids_for_groups, place_nodes, reusable, unchanged_but};
use crate::storage::tree_window::{window_end, window_is_loaded, window_of, window_start};
use vstd::prelude::*;

verus! {

/// The children of neighbouring internal pages, together.
pub open spec fn merged_kids(nodes: Seq<Tree>) -> Seq<Tree>
    decreases nodes.len(),
{
    if nodes.len() == 0 {
        Seq::empty()
    } else {
        merged_kids(nodes.drop_last()) + nodes.last().kids()
    }
}

/// The separators of neighbouring internal pages, together with those between the pages.
pub open spec fn merged_separators(nodes: Seq<Tree>, dividers: Seq<Seq<u8>>) -> Seq<Seq<u8>>
    decreases nodes.len(),
{
    if nodes.len() == 0 {
        Seq::empty()
    } else if nodes.len() == 1 {
        nodes[0].separators()
    } else {
        merged_separators(nodes.drop_last(), dividers.drop_last()).push(dividers.last())
            + nodes.last().separators()
    }
}

/// Two internal pages in order, on two sides of a separator, as one.
proof fn two_merged_in_order(
    left: Tree,
    right: Tree,
    height: nat,
    lo: Option<Seq<u8>>,
    mid: Seq<u8>,
    hi: Option<Seq<u8>>,
    id: PageId,
)
    requires
        left is Node,
        right is Node,
        ordered(left, height, lo, Some(mid)),
        ordered(right, height, Some(mid), hi),
        above(lo, mid),
        below(mid, hi),
        mid.len() + 8 <= INTERNAL_CAPACITY,
    ensures
        ordered(
            Tree::Node {
                id,
                kids: left.kids() + right.kids(),
                separators: left.separators().push(mid) + right.separators(),
            },
            height,
            lo,
            hi,
        ),
{
    let kids = left.kids() + right.kids();
    let a = left.separators();
    let b = right.separators();
    let all = a.push(mid) + b;
    let n = a.len();
    assert forall|i: int| 0 <= i < all.len() implies above(lo, #[trigger] all[i]) && below(
        all[i],
        hi,
    ) && all[i].len() + 8 <= INTERNAL_CAPACITY by {
        if i < n {
            assert(all[i] == a[i]);
            assert(below(a[i], Some(mid)));
            if hi is Some {
                lex_lt_transitive(a[i], mid, hi->Some_0);
            }
        } else if i > n {
            assert(all[i] == b[i - n - 1]);
            assert(above(Some(mid), b[i - n - 1]));
            if lo is Some {
                lex_lt_transitive(lo->Some_0, mid, b[i - n - 1]);
            }
        }
    }
    assert forall|i: int, j: int| 0 <= i < j < all.len() implies lex_lt(
        #[trigger] all[i],
        #[trigger] all[j],
    ) by {
        if i < n {
            assert(below(a[i], Some(mid)));
            if j < n {
                assert(lex_lt(a[i], a[j]));
            } else if j > n {
                assert(above(Some(mid), b[j - n - 1]));
                lex_lt_transitive(a[i], mid, b[j - n - 1]);
            }
        } else if i == n {
            assert(above(Some(mid), b[j - n - 1]));
        } else {
            assert(lex_lt(b[i - n - 1], b[j - n - 1]));
        }
    }
    assert forall|i: int| 0 <= i < kids.len() implies ordered(
        #[trigger] kids[i],
        (height - 1) as nat,
        lower(all, lo, i),
        upper(all, hi, i),
    ) by {
        if i <= n {
            assert(kids[i] == left.kids()[i]);
            assert(upper(all, hi, i) == upper(a, Some(mid), i));
            assert(lower(all, lo, i) == lower(a, lo, i));
        } else {
            let j = i - n - 1;
            assert(kids[i] == right.kids()[j]);
            assert(upper(all, hi, i) == upper(b, hi, j));
            assert(lower(all, lo, i) == lower(b, Some(mid), j));
        }
    }
}

/// Neighbouring internal pages in order are so as one, with the same records.
pub proof fn merged_in_order(
    t: Tree,
    height: nat,
    lo: Option<Seq<u8>>,
    hi: Option<Seq<u8>>,
    a: int,
    n: int,
    id: PageId,
)
    requires
        t is Node,
        height > 1,
        ordered(t, height, lo, hi),
        0 <= a < n <= t.kids().len(),
    ensures
        ({
            let nodes = t.kids().subrange(a, n);
            let dividers = t.separators().subrange(a, n - 1);
            let kids = merged_kids(nodes);
            let separators = merged_separators(nodes, dividers);
            &&& kids.len() == separators.len() + 1
            &&& ordered(
                Tree::Node { id, kids, separators },
                (height - 1) as nat,
                lower(t.separators(), lo, a),
                upper(t.separators(), hi, n - 1),
            )
            &&& flat_all(kids) == flat_all(nodes)
            &&& kids.last() == t.kids()[n - 1].kids().last()
        }),
    decreases n - a,
{
    let nodes = t.kids().subrange(a, n);
    let dividers = t.separators().subrange(a, n - 1);
    let last = t.kids()[n - 1];
    let h = (height - 1) as nat;
    let from = lower(t.separators(), lo, a);
    assert(nodes.last() == last);
    assert(ordered(
        last,
        h,
        lower(t.separators(), lo, n - 1),
        upper(t.separators(), hi, n - 1),
    ));
    if n == a + 1 {
        assert(nodes =~= seq![last]);
        assert(nodes.drop_last() =~= Seq::<Tree>::empty());
        assert(merged_kids(nodes.drop_last()) =~= Seq::<Tree>::empty());
        assert(merged_kids(nodes) =~= last.kids());
        flat_all_one(last);
        assert(flat(last) == flat_all(last.kids()));
    } else {
        merged_in_order(t, height, lo, hi, a, n - 1, id);
        let before = t.kids().subrange(a, n - 1);
        assert(nodes.drop_last() =~= before);
        assert(dividers.drop_last() =~= t.separators().subrange(a, n - 2));
        let mid = t.separators()[n - 2];
        assert(dividers.last() == mid);
        let left = Tree::Node {
            id,
            kids: merged_kids(before),
            separators: merged_separators(before, dividers.drop_last()),
        };
        assert(above(from, mid)) by {
            if a > 0 {
                assert(lex_lt(t.separators()[a - 1], mid));
            }
        }
        assert(below(mid, upper(t.separators(), hi, n - 1))) by {
            if n - 1 < t.separators().len() {
                assert(lex_lt(mid, t.separators()[n - 1]));
            }
        }
        two_merged_in_order(left, last, h, from, mid, upper(t.separators(), hi, n - 1), id);
        flat_all_concat(merged_kids(before), last.kids());
        assert(flat(last) == flat_all(last.kids()));
        assert(flat_all(nodes) =~= flat_all(before) + flat(last));
        assert(merged_kids(nodes).last() == last.kids().last());
    }
}

/// The children of neighbouring internal pages that hold no page twice hold none twice, and
/// none of the pages that they are children of.
proof fn merged_apart(t: Tree, a: int, n: int)
    requires
        t is Node,
        apart(t),
        0 <= a <= n <= t.kids().len(),
        forall|i: int| 0 <= i < t.kids().len() ==> #[trigger] t.kids()[i] is Node,
    ensures
        ({
            let nodes = t.kids().subrange(a, n);
            let kids = merged_kids(nodes);
            &&& all_apart(kids)
            &&& forall|x: PageId| #[trigger] any_owns(kids, x) ==> any_owns(nodes, x)
            &&& forall|j: int| a <= j < n ==> !any_owns(kids, (#[trigger] t.kids()[j]).id())
        }),
    decreases n - a,
{
    let nodes = t.kids().subrange(a, n);
    let kids = merged_kids(nodes);
    if n == a {
    } else {
        merged_apart(t, a, n - 1);
        let before = t.kids().subrange(a, n - 1);
        let last = t.kids()[n - 1];
        let first = merged_kids(before);
        assert(nodes.drop_last() =~= before);
        assert(nodes.last() == last);
        let m = first.len();
        assert(apart(last));
        // Where the pages of the first ones are.
        assert forall|x: PageId| #[trigger] any_owns(before, x) implies any_owns(nodes, x)
            && !owns(last, x) by {
            let k = choose|k: int| 0 <= k < before.len() && owns(#[trigger] before[k], x);
            assert(nodes[k] == before[k]);
            assert(before[k] == t.kids()[a + k]);
            assert(!(owns(t.kids()[a + k], x) && owns(t.kids()[n - 1], x)));
        }
        assert forall|k: int, x: PageId|
            0 <= k < last.kids().len() && #[trigger] owns(last.kids()[k], x) implies owns(
            last,
            x,
        ) by {
            owns_kid(last, k, x);
        }
        assert forall|k: int, x: PageId| 0 <= k < m && #[trigger] owns(
            first[k],
            x,
        ) implies any_owns(before, x) by {
            assert(any_owns(first, x));
        }
        assert forall|i: int, j: int, x: PageId| 0 <= i < j < kids.len() implies !(#[trigger] owns(
            kids[i],
            x,
        ) && #[trigger] owns(kids[j], x)) by {
            if j < m {
                assert(kids[i] == first[i] && kids[j] == first[j]);
            } else if i < m {
                assert(kids[i] == first[i] && kids[j] == last.kids()[j - m]);
            } else {
                assert(kids[i] == last.kids()[i - m] && kids[j] == last.kids()[j - m]);
            }
        }
        assert forall|i: int| 0 <= i < kids.len() implies apart(#[trigger] kids[i]) by {
            if i < m {
                assert(kids[i] == first[i]);
            } else {
                assert(kids[i] == last.kids()[i - m]);
            }
        }
        assert forall|x: PageId| #[trigger] any_owns(kids, x) implies any_owns(nodes, x)
            && (any_owns(first, x) || (owns(last, x) && x != last.id())) by {
            let k = choose|k: int| 0 <= k < kids.len() && owns(#[trigger] kids[k], x);
            if k < m {
                assert(kids[k] == first[k]);
            } else {
                assert(kids[k] == last.kids()[k - m]);
                assert(nodes[n - 1 - a] == last);
                assert(!owns(last.kids()[k - m], last.id()));
            }
        }
        assert forall|j: int| a <= j < n implies !any_owns(
            kids,
            (#[trigger] t.kids()[j]).id(),
        ) by {
            let x = t.kids()[j].id();
            assert(owns(t.kids()[j], x));
            if j < n - 1 {
                assert(before[j - a] == t.kids()[j]);
                assert(any_owns(before, x));
            } else {
                if any_owns(first, x) {
                    assert(any_owns(before, x));
                }
            }
        }
    }
}

/// The children of neighbouring internal pages in memory are in memory.
proof fn merged_stored(s: PagerModel, t: Tree, a: int, n: int, loose: PageId)
    requires
        t is Node,
        stored(s, t, loose),
        0 <= a <= n <= t.kids().len(),
        forall|i: int| 0 <= i < t.kids().len() ==> #[trigger] t.kids()[i] is Node,
    ensures
        forall|k: int|
            0 <= k < merged_kids(t.kids().subrange(a, n)).len() ==> stored(
                s,
                #[trigger] merged_kids(t.kids().subrange(a, n))[k],
                loose,
            ),
    decreases n - a,
{
    if n > a {
        merged_stored(s, t, a, n - 1, loose);
        let nodes = t.kids().subrange(a, n);
        let kids = merged_kids(nodes);
        let before = t.kids().subrange(a, n - 1);
        let first = merged_kids(before);
        let last = t.kids()[n - 1];
        assert(nodes.drop_last() =~= before);
        assert(stored(s, last, loose));
        assert forall|k: int| 0 <= k < kids.len() implies stored(s, #[trigger] kids[k], loose) by {
            if k < first.len() {
                assert(kids[k] == first[k]);
            } else {
                assert(kids[k] == last.kids()[k - first.len()]);
            }
        }
    }
}

/// Contents of internal pages in memory are gathered.
proof fn nodes_are_gathered(
    s: PagerModel,
    t: Tree,
    height: nat,
    lo: Option<Seq<u8>>,
    hi: Option<Seq<u8>>,
    loose: PageId,
    a: int,
    b: int,
    n: int,
)
    requires
        t is Node,
        height > 1,
        ordered(t, height, lo, hi),
        t.kids().len() <= 510,
        0 <= a <= b < t.kids().len(),
        0 < n <= b - a + 1,
        stored(s, t, loose),
        forall|i: int| 0 <= i < t.kids().len() ==> #[trigger] t.kids()[i] is Node,
    ensures
        ({
            let slots = slots_of(node_of_kids(t.kids(), t.separators()));
            let nodes = t.kids().subrange(a, a + n);
            let kids = merged_kids(nodes);
            let separators = merged_separators(nodes, t.separators().subrange(a, a + n - 1));
            let node = node_of_kids(kids, separators);
            gather_nodes(s.pages[t.id().0], slots, window_of(s, t.kids(), a, b), n as nat) == Ok::<
                Seq<InternalCell>,
                ShuError,
            >(
                if n < b - a + 1 {
                    node.cells.push(
                        InternalCell {
                            child: kids.last().id(),
                            separator: t.separators()[a + n - 1],
                        },
                    )
                } else {
                    node.cells
                },
            )
        }),
    decreases n,
{
    let parent = s.pages[t.id().0];
    let slots = slots_of(node_of_kids(t.kids(), t.separators()));
    let window = window_of(s, t.kids(), a, b);
    let nodes = t.kids().subrange(a, a + n);
    let dividers = t.separators().subrange(a, a + n - 1);
    let last = t.kids()[a + n - 1];
    let kids = merged_kids(nodes);
    let separators = merged_separators(nodes, dividers);
    let node = node_of_kids(kids, separators);
    assert(nodes.last() == last);
    assert(stored(s, last, loose));
    assert(ordered(
        last,
        (height - 1) as nat,
        lower(t.separators(), lo, a + n - 1),
        upper(t.separators(), hi, a + n - 1),
    ));
    let page = window[n - 1].page;
    let own = node_of_kids(last.kids(), last.separators());
    assert(page.internal_entries() == Ok::<InternalNode, ShuError>(own));
    merged_in_order(t, height, lo, hi, a, a + n, t.id());
    if n < b - a + 1 {
        assert(slots[a + n - 1].separator == Some(t.separators()[a + n - 1]));
        assert(window[n - 1].index == a + n - 1);
        assert(own.right_child == kids.last().id());
    }
    if n == 1 {
        assert(nodes =~= seq![last]);
        assert(nodes.drop_last() =~= Seq::<Tree>::empty());
        assert(merged_kids(nodes.drop_last()) =~= Seq::<Tree>::empty());
        assert(kids =~= last.kids());
        assert(separators =~= last.separators());
        assert(gather_nodes(parent, slots, window, 0) == Ok::<Seq<InternalCell>, ShuError>(
            Seq::empty(),
        ));
        assert(Seq::<InternalCell>::empty() + own.cells =~= node.cells);
    } else {
        nodes_are_gathered(s, t, height, lo, hi, loose, a, b, n - 1);
        merged_in_order(t, height, lo, hi, a, a + n - 1, t.id());
        let before = t.kids().subrange(a, a + n - 1);
        assert(nodes.drop_last() =~= before);
        assert(dividers.drop_last() =~= t.separators().subrange(a, a + n - 2));
        let first = merged_kids(before);
        let first_separators = merged_separators(before, dividers.drop_last());
        let gathered = node_of_kids(first, first_separators).cells.push(
            InternalCell { child: first.last().id(), separator: t.separators()[a + n - 2] },
        );
        assert(gathered + own.cells =~= node.cells);
    }
}

/// Parts of an internal page's children as internal pages of their own.
pub open spec fn node_kids(
    ids: Seq<PageId>,
    kids: Seq<Tree>,
    separators: Seq<Seq<u8>>,
    groups: Seq<NodeGroup>,
) -> Seq<Tree> {
    Seq::new(
        groups.len(),
        |i: int|
            Tree::Node {
                id: ids[i],
                kids: kids.subrange(node_offset(groups, i), node_offset(groups, i + 1)),
                separators: separators.subrange(
                    node_offset(groups, i),
                    node_offset(groups, i + 1) - 1,
                ),
            },
    )
}

/// The separators between the parts.
pub open spec fn cut_separators(separators: Seq<Seq<u8>>, groups: Seq<NodeGroup>) -> Seq<Seq<u8>> {
    Seq::new((groups.len() - 1) as nat, |i: int| separators[node_offset(groups, i + 1) - 1])
}

/// A later part begins later.
proof fn node_offsets_ascend(node: InternalNode, groups: Seq<NodeGroup>, i: int, j: int)
    requires
        forall|i: int| 0 <= i < groups.len() ==> #[trigger] node_group_cut(node, groups, i),
        0 <= i < j <= groups.len(),
    ensures
        0 <= node_offset(groups, i) < node_offset(groups, j),
    decreases j - i,
{
    assert(node_group_cut(node, groups, j - 1));
    if i < j - 1 {
        node_offsets_ascend(node, groups, i, j - 1);
    } else {
        assert(node_group_cut(node, groups, i));
    }
}

/// The first parts hold the first children.
proof fn first_parts_flat(
    ids: Seq<PageId>,
    kids: Seq<Tree>,
    separators: Seq<Seq<u8>>,
    groups: Seq<NodeGroup>,
    n: int,
)
    requires
        kids.len() == separators.len() + 1,
        forall|i: int|
            0 <= i < groups.len() ==> #[trigger] node_group_cut(
                node_of_kids(kids, separators),
                groups,
                i,
            ),
        0 <= n <= groups.len(),
    ensures
        0 <= node_offset(groups, n) <= kids.len(),
        flat_all(node_kids(ids, kids, separators, groups).take(n)) == flat_all(
            kids.take(node_offset(groups, n)),
        ),
    decreases n,
{
    let parts = node_kids(ids, kids, separators, groups);
    first_offset(Seq::empty(), groups);
    if n == 0 {
        assert(parts.take(0) =~= Seq::<Tree>::empty());
        assert(kids.take(0) =~= Seq::<Tree>::empty());
    } else {
        first_parts_flat(ids, kids, separators, groups, n - 1);
        assert(node_group_cut(node_of_kids(kids, separators), groups, n - 1));
        let start = node_offset(groups, n - 1);
        let end = node_offset(groups, n);
        assert(parts.take(n).drop_last() =~= parts.take(n - 1));
        assert(parts.take(n).last() == parts[n - 1]);
        assert(flat(parts[n - 1]) == flat_all(kids.subrange(start, end)));
        flat_all_concat(kids.take(start), kids.subrange(start, end));
        assert(kids.take(start) + kids.subrange(start, end) =~= kids.take(end));
    }
}

/// The parts of an internal page in order are in order, with the same records.
pub proof fn parts_in_order(
    t: Tree,
    height: nat,
    lo: Option<Seq<u8>>,
    hi: Option<Seq<u8>>,
    ids: Seq<PageId>,
)
    requires
        t is Node,
        ordered(t, height, lo, hi),
    ensures
        ({
            let node = node_of_kids(t.kids(), t.separators());
            let groups = internal_groups(node);
            let parts = node_kids(ids, t.kids(), t.separators(), groups);
            let inner = cut_separators(t.separators(), groups);
            &&& groups.len() > 0
            &&& separators_between(inner, lo, hi)
            &&& flat_all(parts) == flat_all(t.kids())
            &&& forall|i: int|
                0 <= i < parts.len() ==> ordered(
                    #[trigger] parts[i],
                    height,
                    lower(inner, lo, i),
                    upper(inner, hi, i),
                )
            &&& forall|i: int|
                0 <= i < parts.len() ==> (#[trigger] groups[i]).node == node_of_kids(
                    parts[i].kids(),
                    parts[i].separators(),
                ) && internal_space(groups[i].node.cells) <= INTERNAL_CAPACITY && (i + 1
                    < groups.len() ==> groups[i].promoted == Some(inner[i]))
            &&& forall|i: int|
                0 <= i < parts.len() ==> #[trigger] part_in_range(groups, i, t.kids().len())
        }),
{
    let kids = t.kids();
    let separators = t.separators();
    let node = node_of_kids(kids, separators);
    let groups = internal_groups(node);
    let m = groups.len() as int;
    let parts = node_kids(ids, kids, separators, groups);
    let inner = cut_separators(separators, groups);
    assert forall|i: int| 0 <= i < node.cells.len() implies internal_cell_space(
        #[trigger] node.cells[i],
    ) <= INTERNAL_CAPACITY by {
        assert(separators[i].len() + 8 <= INTERNAL_CAPACITY);
    }
    internal_groups_cut(node);
    first_parts_flat(ids, kids, separators, groups, m);
    assert(parts.take(m) =~= parts);
    assert(kids.take(kids.len() as int) =~= kids);
    assert forall|i: int| 0 <= i < parts.len() implies #[trigger] part_in_range(
        groups,
        i,
        kids.len(),
    ) by {
        assert(node_group_cut(node, groups, i));
    }
    // The separators between the parts.
    assert forall|i: int| 0 <= i < inner.len() implies above(lo, #[trigger] inner[i]) && below(
        inner[i],
        hi,
    ) && inner[i].len() + 8 <= INTERNAL_CAPACITY by {
        assert(node_group_cut(node, groups, i));
        assert(inner[i] == separators[node_offset(groups, i + 1) - 1]);
    }
    assert forall|i: int, j: int| 0 <= i < j < inner.len() implies lex_lt(
        #[trigger] inner[i],
        #[trigger] inner[j],
    ) by {
        assert(node_group_cut(node, groups, i));
        assert(node_group_cut(node, groups, j));
        node_offsets_ascend(node, groups, i + 1, j + 1);
        assert(lex_lt(
            separators[node_offset(groups, i + 1) - 1],
            separators[node_offset(groups, j + 1) - 1],
        ));
    }
    // What the groups are.
    assert forall|i: int| 0 <= i < parts.len() implies (#[trigger] groups[i]).node == node_of_kids(
        parts[i].kids(),
        parts[i].separators(),
    ) && internal_space(groups[i].node.cells) <= INTERNAL_CAPACITY && (i + 1 < groups.len()
        ==> groups[i].promoted == Some(inner[i])) by {
        assert(node_group_cut(node, groups, i));
        let start = node_offset(groups, i);
        let end = node_offset(groups, i + 1);
        let part = node_of_kids(parts[i].kids(), parts[i].separators());
        assert(part.cells =~= node.cells.subrange(start, end - 1));
        assert(part.right_child == kids[end - 1].id());
    }
    // The parts are in order.
    assert forall|i: int| 0 <= i < parts.len() implies ordered(
        #[trigger] parts[i],
        height,
        lower(inner, lo, i),
        upper(inner, hi, i),
    ) by {
        let start = node_offset(groups, i);
        let end = node_offset(groups, i + 1);
        assert(node_group_cut(node, groups, i));
        part_in_order(t, height, lo, hi, start, end, ids[i]);
        first_offset(Seq::empty(), groups);
        if i > 0 {
            assert(node_group_cut(node, groups, i - 1));
            assert(inner[i - 1] == separators[start - 1]);
        }
        if i < m - 1 {
            assert(inner[i] == separators[end - 1]);
        }
    }
}

/// Neighbouring children of an internal page in order, on a page of their own.
proof fn part_in_order(
    t: Tree,
    height: nat,
    lo: Option<Seq<u8>>,
    hi: Option<Seq<u8>>,
    start: int,
    end: int,
    id: PageId,
)
    requires
        t is Node,
        ordered(t, height, lo, hi),
        0 <= start < end <= t.kids().len(),
    ensures
        ordered(
            Tree::Node {
                id,
                kids: t.kids().subrange(start, end),
                separators: t.separators().subrange(start, end - 1),
            },
            height,
            lower(t.separators(), lo, start),
            upper(t.separators(), hi, end - 1),
        ),
{
    let separators = t.separators();
    let from = lower(separators, lo, start);
    let to = upper(separators, hi, end - 1);
    let own = separators.subrange(start, end - 1);
    let kids = t.kids().subrange(start, end);
    assert forall|k: int| 0 <= k < own.len() implies above(from, #[trigger] own[k]) && below(
        own[k],
        to,
    ) && own[k].len() + 8 <= INTERNAL_CAPACITY by {
        assert(own[k] == separators[start + k]);
        if start > 0 {
            assert(lex_lt(separators[start - 1], separators[start + k]));
        }
        if end - 1 < separators.len() {
            assert(lex_lt(separators[start + k], separators[end - 1]));
        }
    }
    assert forall|k: int, l: int| 0 <= k < l < own.len() implies lex_lt(
        #[trigger] own[k],
        #[trigger] own[l],
    ) by {
        assert(lex_lt(separators[start + k], separators[start + l]));
    }
    assert forall|k: int| 0 <= k < kids.len() implies ordered(
        #[trigger] kids[k],
        (height - 1) as nat,
        lower(own, from, k),
        upper(own, to, k),
    ) by {
        assert(kids[k] == t.kids()[start + k]);
        assert(lower(own, from, k) == lower(separators, lo, start + k));
        assert(upper(own, to, k) == upper(separators, hi, start + k));
    }
}

/// The parts of children that hold no page twice hold none twice, on pages of their own.
pub proof fn parts_apart(
    ids: Seq<PageId>,
    kids: Seq<Tree>,
    separators: Seq<Seq<u8>>,
    groups: Seq<NodeGroup>,
)
    requires
        all_apart(kids),
        ids.len() == groups.len(),
        ids.no_duplicates(),
        forall|i: int| 0 <= i < ids.len() ==> !any_owns(kids, #[trigger] ids[i]),
        forall|i: int, j: int|
            0 <= i < j <= groups.len() ==> 0 <= #[trigger] node_offset(groups, i)
                < #[trigger] node_offset(groups, j) <= kids.len(),
    ensures
        ({
            let parts = node_kids(ids, kids, separators, groups);
            &&& all_apart(parts)
            &&& forall|j: int, y: PageId|
                0 <= j < parts.len() && #[trigger] owns(parts[j], y) ==> y == ids[j] || any_owns(
                    kids,
                    y,
                )
        }),
{
    let parts = node_kids(ids, kids, separators, groups);
    assert forall|j: int, k: int|
        0 <= j < parts.len() && 0 <= k < parts[j].kids().len() implies #[trigger] parts[j].kids()[k]
        == kids[node_offset(groups, j) + k] && node_offset(groups, j) + k < node_offset(
        groups,
        j + 1,
    ) <= kids.len() && 0 <= node_offset(groups, j) by {
        assert(node_offset(groups, j) < node_offset(groups, j + 1));
    }
    assert forall|j: int, y: PageId| 0 <= j < parts.len() && #[trigger] owns(
        parts[j],
        y,
    ) implies y == ids[j] || any_owns(kids, y) by {
        if y != ids[j] {
            let k = owned_by_kid(parts[j], y);
            assert(parts[j].kids()[k] == kids[node_offset(groups, j) + k]);
        }
    }
    assert forall|j: int| 0 <= j < parts.len() implies apart(#[trigger] parts[j]) by {
        let own = parts[j].kids();
        let start = node_offset(groups, j);
        assert forall|k: int| 0 <= k < own.len() implies !(#[trigger] owns(own[k], ids[j])) by {
            assert(own[k] == kids[start + k]);
            assert(!any_owns(kids, ids[j]));
        }
        assert forall|k: int, l: int, y: PageId| 0 <= k < l < own.len() implies !(#[trigger] owns(
            own[k],
            y,
        ) && #[trigger] owns(own[l], y)) by {
            assert(own[k] == kids[start + k]);
            assert(own[l] == kids[start + l]);
            assert(!(owns(kids[start + k], y) && owns(kids[start + l], y)));
        }
        assert forall|k: int| 0 <= k < own.len() implies apart(#[trigger] own[k]) by {
            assert(own[k] == kids[start + k]);
        }
    }
    assert forall|i: int, j: int, y: PageId| 0 <= i < j < parts.len() implies !(#[trigger] owns(
        parts[i],
        y,
    ) && #[trigger] owns(parts[j], y)) by {
        if owns(parts[i], y) && owns(parts[j], y) {
            assert(ids[i] != ids[j]);
            assert(!any_owns(kids, ids[i]));
            assert(!any_owns(kids, ids[j]));
            let k = owned_by_kid(parts[i], y);
            let l = owned_by_kid(parts[j], y);
            assert(parts[i].kids()[k] == kids[node_offset(groups, i) + k]);
            assert(parts[j].kids()[l] == kids[node_offset(groups, j) + l]);
            if i + 1 < j {
                assert(node_offset(groups, i + 1) < node_offset(groups, j));
            }
            assert(!(owns(kids[node_offset(groups, i) + k], y) && owns(
                kids[node_offset(groups, j) + l],
                y,
            )));
        }
    }
}

/// The parts are in memory if their pages hold their contents and the children are in
/// memory.
pub proof fn parts_stored(
    placed: PagerModel,
    ids: Seq<PageId>,
    kids: Seq<Tree>,
    separators: Seq<Seq<u8>>,
    groups: Seq<NodeGroup>,
    loose: PageId,
)
    requires
        kids.len() == separators.len() + 1,
        ids.len() == groups.len(),
        forall|k: int| 0 <= k < kids.len() ==> stored(placed, #[trigger] kids[k], loose),
        forall|i: int|
            0 <= i < groups.len() ==> #[trigger] node_at(placed, ids[i], groups[i].node, false),
        forall|i: int|
            0 <= i < groups.len() ==> #[trigger] part_in_range(groups, i, kids.len())
                && groups[i].node == node_of_kids(
                node_kids(ids, kids, separators, groups)[i].kids(),
                node_kids(ids, kids, separators, groups)[i].separators(),
            ),
    ensures
        forall|i: int|
            0 <= i < groups.len() ==> stored(
                placed,
                #[trigger] node_kids(ids, kids, separators, groups)[i],
                loose,
            ),
{
    let parts = node_kids(ids, kids, separators, groups);
    assert forall|i: int| 0 <= i < groups.len() implies stored(
        placed,
        #[trigger] parts[i],
        loose,
    ) by {
        let start = node_offset(groups, i);
        let end = node_offset(groups, i + 1);
        assert(part_in_range(groups, i, kids.len()));
        assert(node_at(placed, ids[i], groups[i].node, false));
        let own = parts[i].kids();
        assert forall|k: int| 0 <= k < own.len() implies stored(
            placed,
            #[trigger] own[k],
            loose,
        ) by {
            assert(own[k] == kids[start + k]);
        }
    }
}

/// Where the parts of contents begin, one after the other.
pub proof fn part_offsets(node: InternalNode, groups: Seq<NodeGroup>)
    requires
        groups == internal_groups(node),
        forall|i: int|
            0 <= i < node.cells.len() ==> internal_cell_space(#[trigger] node.cells[i])
                <= INTERNAL_CAPACITY,
    ensures
        forall|i: int, j: int|
            0 <= i < j <= groups.len() ==> 0 <= #[trigger] node_offset(groups, i)
                < #[trigger] node_offset(groups, j) <= node.cells.len() + 1,
{
    internal_groups_cut(node);
    assert forall|i: int, j: int| 0 <= i < j <= groups.len() implies 0 <= #[trigger] node_offset(
        groups,
        i,
    ) < #[trigger] node_offset(groups, j) <= node.cells.len() + 1 by {
        node_offsets_ascend(node, groups, i, j);
        assert(node_group_cut(node, groups, j - 1));
    }
}

/// The children of neighbouring internal pages in memory, after the pages themselves went to
/// other uses.
proof fn merged_still_stored(
    s: PagerModel,
    placed: PagerModel,
    t: Tree,
    a: int,
    b: int,
    ids: Seq<PageId>,
    x: PageId,
)
    requires
        t is Node,
        apart(t),
        stored(s, t, x),
        0 <= a <= b < t.kids().len(),
        forall|i: int| 0 <= i < t.kids().len() ==> #[trigger] t.kids()[i] is Node,
        exists|i: int| a <= i <= b && x == (#[trigger] t.kids()[i]).id(),
        unchanged_but(s, placed, ids),
        forall|j: int|
            0 <= j < ids.len() ==> (#[trigger] ids[j]).0 >= s.page_count || !any_owns(
                merged_kids(t.kids().subrange(a, b + 1)),
                ids[j],
            ),
    ensures
        forall|k: int|
            0 <= k < merged_kids(t.kids().subrange(a, b + 1)).len() ==> stored(
                placed,
                #[trigger] merged_kids(t.kids().subrange(a, b + 1))[k],
                t.id(),
            ),
{
    let kids = merged_kids(t.kids().subrange(a, b + 1));
    merged_stored(s, t, a, b + 1, x);
    merged_apart(t, a, b + 1);
    assert forall|k: int| 0 <= k < kids.len() implies stored(
        placed,
        #[trigger] kids[k],
        t.id(),
    ) by {
        let kid = kids[k];
        assert(stored(s, kid, x));
        owned_pages_present(s, kid, x);
        let i = choose|i: int| a <= i <= b && x == (#[trigger] t.kids()[i]).id();
        assert(!any_owns(kids, t.kids()[i].id()));
        assert(!owns(kids[k], x));
        assert forall|y: PageId| #[trigger] owns(kid, y) implies placed.pages.contains_key(y.0)
            && placed.pages[y.0] == s.pages[y.0] by {
            assert(page_at(s, y));
            assert(any_owns(kids, y));
            assert(s.pages.contains_key(y.0));
            assert(!ids.contains(y));
        }
        stored_frame(s, placed, kid, x, t.id());
    }
}

/// The contents of a window, together.
pub open spec fn window_node(t: Tree, a: int, b: int) -> Tree {
    let nodes = t.kids().subrange(a, b + 1);
    Tree::Node {
        id: t.id(),
        kids: merged_kids(nodes),
        separators: merged_separators(nodes, t.separators().subrange(a, b)),
    }
}

/// Spreading the contents of an internal page and its neighbours anew takes the contents of
/// the window, writes groups of them to pages, and replaces the children in the parent's list.
#[verifier::rlimit(40)]
pub proof fn internal_window_unfolds(
    s: PagerModel,
    t: Tree,
    height: nat,
    lo: Option<Seq<u8>>,
    hi: Option<Seq<u8>>,
    i: int,
)
    requires
        t is Node,
        height > 1,
        ordered(t, height, lo, hi),
        apart(t),
        0 <= i < t.kids().len(),
        stored(s, t, t.kids()[i].id()),
    ensures
        t.id() != t.kids()[i].id(),
        t.kids().len() <= 510,
        forall|j: int| 0 <= j < t.kids().len() ==> #[trigger] t.kids()[j] is Node,
        ({
            let last = t.separators().len() as int;
            let a = window_start(i);
            let b = window_end(i, last);
            let big = window_node(t, a, b);
            let groups = internal_groups(node_of_kids(big.kids(), big.separators()));
            let (placed, result) = s.place_internal_groups(
                groups,
                window_ids(window_of(s, t.kids(), a, b)),
                groups.len(),
            );
            s.redistribute_internal_window(t.id(), t.kids()[i].id(), i as u16) == match result {
                Err(e) => (placed, Err::<(), ShuError>(e)),
                Ok(ids) => placed.replace_children(
                    t.id(),
                    a as u16,
                    b as u16,
                    node_slots(
                        ids,
                        groups,
                        end_bound(t.separators(), b, t.separators()[b], None),
                    ),
                ),
            }
        }),
{
    let kids = t.kids();
    let separators = t.separators();
    let last = separators.len() as int;
    let x = kids[i].id();
    let a = window_start(i);
    let b = window_end(i, last);
    let window = window_of(s, kids, a, b);
    assert(owns(kids[i], x));
    assert(!owns(kids[i], t.id()));
    window_is_loaded(s, t, i, x);
    assert forall|j: int| 0 <= j < kids.len() implies #[trigger] kids[j] is Node && stored(
        s,
        kids[j],
        x,
    ) by {
        assert(ordered(
            kids[j],
            (height - 1) as nat,
            lower(separators, lo, j),
            upper(separators, hi, j),
        ));
    }
    nodes_are_gathered(s, t, height, lo, hi, x, a, b, b - a + 1);
    merged_in_order(t, height, lo, hi, a, b + 1, t.id());
    let slots = slots_of(node_of_kids(kids, separators));
    assert(slots[b].separator == end_bound(separators, b, separators[b], None));
    let big = window_node(t, a, b);
    assert(window.last().page.internal_entries()->Ok_0.right_child == big.kids().last().id()) by {
        assert(stored(s, kids[b], x));
    }
}

/// The pages of the internal pages of a window can be used again.
pub proof fn internal_window_reusable(s: PagerModel, t: Tree, a: int, b: int, loose: PageId)
    requires
        t is Node,
        apart(t),
        stored(s, t, loose),
        0 <= a <= b < t.kids().len(),
        forall|j: int| 0 <= j < t.kids().len() ==> #[trigger] t.kids()[j] is Node,
    ensures
        reusable(s, window_ids(window_of(s, t.kids(), a, b)), PageType::Internal),
{
    let reuse = window_ids(window_of(s, t.kids(), a, b));
    group_ids(s, t, a, b, 0, loose);
    assert forall|j: int| 0 <= j < reuse.len() implies page_at(s, #[trigger] reuse[j])
        && s.pages[reuse[j].0].page_type() == Ok::<PageType, ShuError>(PageType::Internal) by {
        assert(stored(s, t.kids()[a + j], loose));
    }
}

/// The internal pages that the contents of a window make are in order where they go.
proof fn internal_splice_fits(
    t: Tree,
    height: nat,
    lo: Option<Seq<u8>>,
    hi: Option<Seq<u8>>,
    a: int,
    b: int,
    ids: Seq<PageId>,
)
    requires
        t is Node,
        height > 1,
        ordered(t, height, lo, hi),
        0 <= a <= b < t.kids().len(),
    ensures
        ({
            let big = window_node(t, a, b);
            let groups = internal_groups(node_of_kids(big.kids(), big.separators()));
            let new = node_kids(ids, big.kids(), big.separators(), groups);
            &&& splice_fits(
                t,
                height,
                lo,
                hi,
                a,
                b,
                new,
                cut_separators(big.separators(), groups),
                t.separators()[b],
            )
            &&& flat_all(new) == flat_all(t.kids().subrange(a, b + 1))
        }),
{
    let separators = t.separators();
    let big = window_node(t, a, b);
    merged_in_order(t, height, lo, hi, a, b + 1, t.id());
    parts_in_order(
        big,
        (height - 1) as nat,
        lower(separators, lo, a),
        upper(separators, hi, b),
        ids,
    );
    if b < separators.len() {
        assert(above(lo, separators[b]));
        if a > 0 {
            assert(lex_lt(separators[a - 1], separators[b]));
        }
        assert(ordered(
            t.kids()[b + 1],
            (height - 1) as nat,
            lower(separators, lo, b + 1),
            upper(separators, hi, b + 1),
        ));
    }
}

/// The pages that groups go to are no pages below the window.
proof fn group_ids_above(s: PagerModel, t: Tree, a: int, b: int, m: nat, loose: PageId)
    requires
        t is Node,
        apart(t),
        stored(s, t, loose),
        0 <= a <= b < t.kids().len(),
        s.page_count + m <= u32::MAX + (b - a + 1),
        forall|j: int| 0 <= j < t.kids().len() ==> #[trigger] t.kids()[j] is Node,
    ensures
        ({
            let ids = ids_for_groups(s, window_ids(window_of(s, t.kids(), a, b)), m);
            forall|j: int|
                0 <= j < ids.len() ==> !any_owns(
                    merged_kids(t.kids().subrange(a, b + 1)),
                    #[trigger] ids[j],
                )
        }),
{
    let kids = t.kids();
    let old = kids.subrange(a, b + 1);
    let below_window = merged_kids(old);
    let reuse = window_ids(window_of(s, kids, a, b));
    let ids = ids_for_groups(s, reuse, m);
    group_ids(s, t, a, b, m, loose);
    merged_apart(t, a, b + 1);
    owned_pages_present(s, t, loose);
    assert forall|j: int| 0 <= j < ids.len() implies !any_owns(
        below_window,
        #[trigger] ids[j],
    ) by {
        if any_owns(below_window, ids[j]) {
            assert(any_owns(old, ids[j]));
            let k = choose|k: int| 0 <= k < old.len() && owns(#[trigger] old[k], ids[j]);
            assert(old[k] == kids[a + k]);
            owns_kid(t, a + k, ids[j]);
            assert(page_at(s, ids[j]));
            assert(j < reuse.len());
            assert(ids[j] == reuse[j]);
            assert(!any_owns(below_window, kids[a + j].id()));
        }
    }
}

/// The tree after the contents of an internal page and its neighbours were spread anew.
pub open spec fn nodes_spread(s: PagerModel, t: Tree, i: int) -> Tree {
    let a = window_start(i);
    let b = window_end(i, t.separators().len() as int);
    let big = window_node(t, a, b);
    let groups = internal_groups(node_of_kids(big.kids(), big.separators()));
    let ids = ids_for_groups(s, window_ids(window_of(s, t.kids(), a, b)), groups.len());
    respliced(
        t,
        a,
        b,
        node_kids(ids, big.kids(), big.separators(), groups),
        cut_separators(big.separators(), groups),
        t.separators()[b],
    )
}

/// Spreading the contents of an internal page and its neighbours anew rearranges the tree of
/// their parent, unless no further page can be counted.
pub proof fn internal_window_is_rearranged(
    s: PagerModel,
    t: Tree,
    height: nat,
    lo: Option<Seq<u8>>,
    hi: Option<Seq<u8>>,
    i: int,
)
    requires
        meta_in_order(s),
        t is Node,
        height > 1,
        ordered(t, height, lo, hi),
        apart(t),
        0 <= i < t.kids().len(),
        stored(s, t, t.kids()[i].id()),
    ensures
        ({
            let (after, result) = s.redistribute_internal_window(
                t.id(),
                t.kids()[i].id(),
                i as u16,
            );
            match result {
                Err(e) => e == ShuError::TooManyPages && after.page_count == u32::MAX,
                Ok(_) => rearranged(s, after, t, nodes_spread(s, t, i), height, lo, hi),
            }
        }),
{
    let kids = t.kids();
    let separators = t.separators();
    let last = separators.len() as int;
    let x = kids[i].id();
    let a = window_start(i);
    let b = window_end(i, last);
    let old = kids.subrange(a, b + 1);
    internal_window_unfolds(s, t, height, lo, hi, i);
    let big = window_node(t, a, b);
    let node = node_of_kids(big.kids(), big.separators());
    let groups = internal_groups(node);
    let m = groups.len();
    let reuse = window_ids(window_of(s, kids, a, b));
    let ids = ids_for_groups(s, reuse, m);
    let new = node_kids(ids, big.kids(), big.separators(), groups);
    let inner = cut_separators(big.separators(), groups);
    let end = separators[b];
    merged_in_order(t, height, lo, hi, a, b + 1, t.id());
    parts_in_order(
        big,
        (height - 1) as nat,
        lower(separators, lo, a),
        upper(separators, hi, b),
        ids,
    );
    internal_window_reusable(s, t, a, b, x);
    place_nodes(s, groups, reuse, m);
    let (placed, result) = s.place_internal_groups(groups, reuse, m);
    if result is Ok {
        group_ids(s, t, a, b, m, x);
        assert(node_slots(ids, groups, end_bound(separators, b, end, None)) =~= new_slots(
            new,
            inner,
            end_bound(separators, b, end, None),
        ));
        internal_splice_fits(t, height, lo, hi, a, b, ids);
        group_ids_above(s, t, a, b, m, x);
        merged_apart(t, a, b + 1);
        separators_fit(big, (height - 1) as nat, lower(separators, lo, a), upper(separators, hi, b));
        part_offsets(node, groups);
        parts_apart(ids, big.kids(), big.separators(), groups);
        assert forall|j: int, y: PageId| 0 <= j < new.len() && #[trigger] owns(
            new[j],
            y,
        ) implies any_owns(old, y) || y.0 >= s.page_count by {
            if y == ids[j] {
                assert(ids[j].0 >= s.page_count || any_owns(old, ids[j]));
            }
        }
        assert(any_owns(old, x)) by {
            assert(old[i - a] == kids[i]);
            assert(owns(kids[i], x));
        }
        merged_still_stored(s, placed, t, a, b, ids, x);
        parts_stored(placed, ids, big.kids(), big.separators(), groups, t.id());
        splice_rearranges(s, placed, t, height, lo, hi, a, b, new, inner, end, ids, x);
    }
}

/// Each record of an internal page in order fits an internal page.
pub proof fn separators_fit(t: Tree, height: nat, lo: Option<Seq<u8>>, hi: Option<Seq<u8>>)
    requires
        t is Node,
        ordered(t, height, lo, hi),
    ensures
        forall|k: int|
            0 <= k < node_of_kids(t.kids(), t.separators()).cells.len() ==> internal_cell_space(
                #[trigger] node_of_kids(t.kids(), t.separators()).cells[k],
            ) <= INTERNAL_CAPACITY,
{
    let node = node_of_kids(t.kids(), t.separators());
    assert forall|k: int| 0 <= k < node.cells.len() implies internal_cell_space(
        #[trigger] node.cells[k],
    ) <= INTERNAL_CAPACITY by {
        assert(t.separators()[k].len() + 8 <= INTERNAL_CAPACITY);
    }
}

} // verus!
