//! What is read of the pages in memory after pages are supplied, written, added and saved, and
//! what a file holds of them.
use crate::error::ShuError;
use crate::storage::codec::{ByteOrder, Record};
use crate::storage::database_laws::{marked, put_marks_changes, read_again, reopened_says_same};
use crate::storage::header::{DatabaseHeader, FREELIST_DEFAULT, INITIAL_ROOT_PAGE_ID};
use crate::storage::header::written_header_reads_back;
use crate::storage::model::LeafCell;
use crate::storage::page::{blank_page, page_bytes, page_of_bytes, Overflow, PageId, PageModel};
use crate::storage::page::{saved_page_reads_back, PageType, BODY_SIZE};
use crate::storage::pager::{described, new_database, PagerModel, META_PAGE_ID};
use crate::storage::search_laws::records;
use crate::storage::slotted_laws::rewritten_leaf_reads_back;
use crate::storage::steady_laws::in_one_order;
use crate::storage::tree::{flat, forms, owns, page_at, says, Tree};
use crate::storage::tree_path::stored_frame;
use crate::storage::tree_step::owned_pages_present;
use vstd::prelude::*;

verus! {

/// The byte order, the root, and the numbers of pages are the same.
pub open spec fn same_counts(s: PagerModel, after: PagerModel) -> bool {
    &&& after.order == s.order
    &&& after.page_count == s.page_count
    &&& after.root_page_id == s.root_page_id
    &&& after.freelist_head == s.freelist_head
}

/// A page below the count that is in memory is read; one that is not in memory cannot be, and
/// one that is not counted is not found.
pub proof fn counted_page_is_read(s: PagerModel, page_id: PageId)
    ensures
        s.read_page(page_id) == if page_id.0 >= s.page_count {
            Err(ShuError::PageNotFound { page_id })
        } else if s.pages.contains_key(page_id.0) {
            Ok(s.pages[page_id.0])
        } else {
            Err::<PageModel, ShuError>(ShuError::Io { page_id })
        },
{
}

/// A page that was supplied is the one that is read, and is not to be saved. Every other page is
/// read as before, and is to be saved if it was to be.
pub proof fn supplied_page_is_read(
    s: PagerModel,
    page_id: PageId,
    page: PageModel,
    other: PageId,
)
    ensures
        ({
            let after = s.supply(page_id, page);
            &&& same_counts(s, after)
            &&& after.pages.contains_key(page_id.0)
            &&& after.pages[page_id.0] == page
            &&& page_id.0 < s.page_count ==> after.read_page(page_id) == Ok::<PageModel, ShuError>(
                page,
            )
            &&& !after.dirty.contains(page_id.0)
            &&& other != page_id ==> {
                &&& after.pages.contains_key(other.0) == s.pages.contains_key(other.0)
                &&& after.pages[other.0] == s.pages[other.0]
                &&& after.read_page(other) == s.read_page(other)
                &&& after.dirty.contains(other.0) == s.dirty.contains(other.0)
            }
        }),
{
}

/// A page that was stored is the one that is read, and is to be saved. Every other page is read
/// as before, and is to be saved if it was to be.
pub proof fn stored_page_is_read(s: PagerModel, page_id: PageId, page: PageModel, other: PageId)
    ensures
        ({
            let after = s.store(page_id, page);
            &&& same_counts(s, after)
            &&& after.pages.contains_key(page_id.0)
            &&& after.pages[page_id.0] == page
            &&& page_id.0 < s.page_count ==> after.read_page(page_id) == Ok::<PageModel, ShuError>(
                page,
            )
            &&& after.dirty.contains(page_id.0)
            &&& other != page_id ==> {
                &&& after.pages.contains_key(other.0) == s.pages.contains_key(other.0)
                &&& after.pages[other.0] == s.pages[other.0]
                &&& after.read_page(other) == s.read_page(other)
                &&& after.dirty.contains(other.0) == s.dirty.contains(other.0)
            }
        }),
{
}

/// A page below the count can be written. It is then the page that is read, and is to be saved.
/// Every other page is read as before, and is to be saved if it was to be. A page that is not
/// counted is not found, and nothing changes.
pub proof fn written_page_is_to_be_saved(
    s: PagerModel,
    page_id: PageId,
    page: PageModel,
    other: PageId,
)
    ensures
        ({
            let (after, result) = s.write_page(page_id, page);
            &&& same_counts(s, after)
            &&& marked(s, after)
            &&& page_id.0 < s.page_count ==> {
                &&& result == Ok::<(), ShuError>(())
                &&& after.read_page(page_id) == Ok::<PageModel, ShuError>(page)
                &&& after.pages.contains_key(page_id.0)
                &&& after.pages[page_id.0] == page
                &&& after.dirty.contains(page_id.0)
            }
            &&& page_id.0 >= s.page_count ==> result == Err::<(), ShuError>(
                ShuError::PageNotFound { page_id },
            ) && after == s
            &&& other != page_id ==> {
                &&& after.pages.contains_key(other.0) == s.pages.contains_key(other.0)
                &&& after.pages[other.0] == s.pages[other.0]
                &&& after.read_page(other) == s.read_page(other)
                &&& after.dirty.contains(other.0) == s.dirty.contains(other.0)
            }
        }),
{
}

/// A database says the same when other pages are to be saved.
proof fn says_whatever_is_saved(
    s: PagerModel,
    after: PagerModel,
    values: Map<Seq<u8>, Seq<u8>>,
)
    requires
        says(s, values),
        same_counts(s, after),
        after.pages == s.pages,
    ensures
        says(after, values),
{
    let none = PageId(META_PAGE_ID);
    let (t, height) = choose|t: Tree, height: nat| #[trigger]
        forms(s, t, height, none) && records(flat(t)) == values;
    owned_pages_present(s, t, none);
    assert forall|x: PageId| #[trigger] owns(t, x) implies after.pages.contains_key(x.0)
        && after.pages[x.0] == s.pages[x.0] by {
        assert(page_at(s, x));
    }
    stored_frame(s, after, t, none, none);
    assert(forms(after, t, height, none));
}

/// Noting that a page was saved changes no page: whatever is read is read as before, and a whole
/// database says the same. Of the pages to be saved that one alone is no longer listed.
pub proof fn saving_changes_no_page(
    s: PagerModel,
    page_id: PageId,
    other: PageId,
    values: Map<Seq<u8>, Seq<u8>>,
)
    ensures
        ({
            let after = s.saved(page_id);
            &&& same_counts(s, after)
            &&& after.pages == s.pages
            &&& after.read_page(other) == s.read_page(other)
            &&& after.dirty.contains(other.0) == (s.dirty.contains(other.0) && other != page_id)
            &&& says(s, values) ==> says(after, values)
        }),
{
    if says(s, values) {
        says_whatever_is_saved(s, s.saved(page_id), values);
    }
}

/// A page that is added to a database with its meta page in order is an empty page of its type
/// in the byte order of the database, under the next number. It is counted, in memory and on the
/// meta page, and is to be saved. Every other page but the meta page is as before.
pub proof fn added_page_is_new(s: PagerModel, page_type: PageType, other: PageId)
    requires
        s.page_count < u32::MAX,
        s.pages.contains_key(META_PAGE_ID),
        s.page_count != META_PAGE_ID,
        s.pages[META_PAGE_ID].body.len() == BODY_SIZE,
        s.pages[META_PAGE_ID].database_header() is Ok,
        (DatabaseHeader {
            page_count: (s.page_count + 1) as u32,
            root_page_id: s.root_page_id,
            freelist_head: s.freelist_head,
            ..s.pages[META_PAGE_ID].database_header()->Ok_0
        }).valid(s.pages[META_PAGE_ID].id()),
    ensures
        ({
            let (after, result) = s.allocate(page_type);
            let page = after.pages[s.page_count];
            &&& result == Ok::<PageId, ShuError>(PageId(s.page_count))
            &&& after.page_count == s.page_count + 1
            &&& after.order == s.order
            &&& after.root_page_id == s.root_page_id
            &&& after.freelist_head == s.freelist_head
            &&& after.pages.contains_key(s.page_count)
            &&& page.order == s.order
            &&& page.header.page_id == PageId(s.page_count)
            &&& page.header.checksum == 0
            &&& page.page_type() == Ok::<PageType, ShuError>(page_type)
            &&& page.body.len() == BODY_SIZE
            &&& page.overflow is Empty
            &&& page_type != PageType::Leaf ==> forall|i: int|
                0 <= i < BODY_SIZE ==> #[trigger] page.body[i] == 0
            &&& page_type == PageType::Leaf ==> page.leaf_entries() == Ok::<
                Seq<LeafCell>,
                ShuError,
            >(Seq::empty())
            &&& after.dirty.contains(s.page_count)
            &&& after.dirty.contains(META_PAGE_ID)
            &&& after.pages[META_PAGE_ID].database_header() matches Ok(header) && header.page_count
                == s.page_count + 1 && header.root_page_id == s.root_page_id
                && header.freelist_head == s.freelist_head
            &&& other.0 != s.page_count && other.0 != META_PAGE_ID ==> {
                &&& after.pages.contains_key(other.0) == s.pages.contains_key(other.0)
                &&& after.pages[other.0] == s.pages[other.0]
                &&& after.dirty.contains(other.0) == s.dirty.contains(other.0)
            }
        }),
{
    let meta = s.pages[META_PAGE_ID];
    let header = DatabaseHeader {
        page_count: (s.page_count + 1) as u32,
        root_page_id: s.root_page_id,
        freelist_head: s.freelist_head,
        ..meta.database_header()->Ok_0
    };
    written_header_reads_back(meta, header);
    let blank = blank_page(s.order, page_type, PageId(s.page_count));
    assert(blank.body.len() == BODY_SIZE);
    if page_type == PageType::Leaf {
        rewritten_leaf_reads_back(blank, Seq::empty());
        assert(blank.rewrite_leaf_entries(Seq::empty()).0 == blank.init_leaf_page().0);
    }
}

/// A new database has a meta page and an empty root page, both to be saved, and nothing else in
/// memory.
pub proof fn new_database_has_two_pages(order: ByteOrder, id: u32)
    ensures
        ({
            let s = new_database(order);
            &&& s.order == order
            &&& s.page_count == 2
            &&& s.root_page_id == PageId(INITIAL_ROOT_PAGE_ID)
            &&& s.freelist_head == FREELIST_DEFAULT
            &&& s.pages.contains_key(id) <==> id < 2
            &&& s.dirty.contains(id) <==> id < 2
        }),
{
}

/// The pages of a file that are not to be saved hold what the pages in memory hold.
pub open spec fn in_step(s: PagerModel, file: Map<u32, Seq<u8>>) -> bool {
    forall|id: u32| #[trigger]
        s.pages.contains_key(id) && !s.dirty.contains(id) ==> file.contains_key(id) && file[id]
            == page_bytes(s.pages[id])
}

/// A file stays in step, without a page being saved, when records are put, pages are added and
/// pages are written; and when a page is saved and noted as saved.
pub proof fn file_stays_in_step(
    s: PagerModel,
    file: Map<u32, Seq<u8>>,
    key: Seq<u8>,
    value: Seq<u8>,
    page_type: PageType,
    page_id: PageId,
    page: PageModel,
)
    requires
        in_step(s, file),
    ensures
        in_step(s.put(key, value).0, file),
        in_step(s.allocate(page_type).0, file),
        in_step(s.write_page(page_id, page).0, file),
        in_step(s.store(page_id, page), file),
        in_step(s.saved(page_id), file.insert(page_id.0, page_bytes(s.pages[page_id.0]))),
{
    put_marks_changes(s, key, value);
    assert(marked(s, s.allocate(page_type).0));
    assert(marked(s, s.write_page(page_id, page).0));
    assert(marked(s, s.store(page_id, page)));
}

/// A pager after pages of a file are supplied to it one after the other, all read in one byte
/// order.
pub open spec fn supplied(
    s: PagerModel,
    order: ByteOrder,
    file: Map<u32, Seq<u8>>,
    ids: Seq<PageId>,
) -> PagerModel
    decreases ids.len(),
{
    if ids.len() == 0 {
        s
    } else {
        supplied(s, order, file, ids.drop_last()).supply(
            ids.last(),
            page_of_bytes(order, file[ids.last().0]),
        )
    }
}

/// Pages that were supplied are those that are read.
pub proof fn supplied_pages_are_read(
    s: PagerModel,
    order: ByteOrder,
    file: Map<u32, Seq<u8>>,
    ids: Seq<PageId>,
)
    ensures
        ({
            let after = supplied(s, order, file, ids);
            &&& same_counts(s, after)
            &&& forall|id: u32| #[trigger]
                after.pages.contains_key(id) <==> s.pages.contains_key(id) || ids.contains(
                    PageId(id),
                )
            &&& forall|id: u32|
                ids.contains(PageId(id)) ==> #[trigger] after.pages[id] == page_of_bytes(
                    order,
                    file[id],
                ) && !after.dirty.contains(id)
            &&& forall|id: u32|
                !ids.contains(PageId(id)) ==> #[trigger] after.pages[id] == s.pages[id]
                    && after.dirty.contains(id) == s.dirty.contains(id)
        }),
    decreases ids.len(),
{
    if ids.len() > 0 {
        let less = ids.drop_last();
        supplied_pages_are_read(s, order, file, less);
        assert forall|id: u32| #[trigger] ids.contains(PageId(id)) <==> less.contains(PageId(id))
            || ids.last() == PageId(id) by {
            if ids.contains(PageId(id)) {
                let i = choose|i: int| 0 <= i < ids.len() && ids[i] == PageId(id);
                if i < less.len() {
                    assert(less[i] == PageId(id));
                }
            }
            if less.contains(PageId(id)) {
                let i = choose|i: int| 0 <= i < less.len() && less[i] == PageId(id);
                assert(ids[i] == PageId(id));
            }
            assert(ids[ids.len() - 1] == ids.last());
        }
        let mid = supplied(s, order, file, less);
        let after = supplied(s, order, file, ids);
        assert forall|id: u32| #[trigger]
            after.pages.contains_key(id) <==> s.pages.contains_key(id) || ids.contains(
                PageId(id),
            ) by {
            assert(mid.pages.contains_key(id) <==> s.pages.contains_key(id) || less.contains(
                PageId(id),
            ));
        }
        assert forall|id: u32| ids.contains(PageId(id)) implies #[trigger] after.pages[id]
            == page_of_bytes(order, file[id]) && !after.dirty.contains(id) by {
            if ids.last() != PageId(id) {
                assert(mid.pages[id] == page_of_bytes(order, file[id]));
            }
        }
        assert forall|id: u32| !ids.contains(PageId(id)) implies #[trigger] after.pages[id]
            == s.pages[id] && after.dirty.contains(id) == s.dirty.contains(id) by {
            assert(mid.pages[id] == s.pages[id]);
        }
    }
}

/// A whole database in one byte order whose pages were all saved to a file says the same when it
/// is opened again from the first page of the file and supplied with its other pages, one by
/// one and in any order, all read in that one byte order.
pub proof fn reopened_file_says_same(
    s: PagerModel,
    values: Map<Seq<u8>, Seq<u8>>,
    file: Map<u32, Seq<u8>>,
    ids: Seq<PageId>,
)
    requires
        says(s, values),
        in_one_order(s),
        in_step(s, file),
        forall|id: u32| id < s.page_count ==> !#[trigger] s.dirty.contains(id),
        forall|id: u32|
            0 < id < s.page_count && #[trigger] s.pages.contains_key(id) ==> ids.contains(
                PageId(id),
            ),
        !ids.contains(PageId(META_PAGE_ID)),
    ensures
        ({
            let meta = page_of_bytes(s.order, file[META_PAGE_ID]);
            &&& described(meta) matches Ok(fresh) && ({
                let again = supplied(fresh, s.order, file, ids);
                &&& says(again, values)
                &&& in_one_order(again)
                &&& again.order == s.order
                &&& again.page_count == s.page_count
                &&& forall|id: u32| !#[trigger] again.dirty.contains(id)
            })
        }),
{
    let none = PageId(META_PAGE_ID);
    let (t, height) = choose|t: Tree, height: nat| #[trigger]
        forms(s, t, height, none) && records(flat(t)) == values;
    assert(s.pages.contains_key(META_PAGE_ID));
    assert(!s.dirty.contains(META_PAGE_ID));
    let meta = page_of_bytes(s.order, file[META_PAGE_ID]);
    assert(meta == read_again(s.pages[META_PAGE_ID]));
    let plain = PageModel { overflow: Overflow::Empty, ..s.pages[META_PAGE_ID] };
    saved_page_reads_back(plain);
    assert(page_bytes(plain) == page_bytes(s.pages[META_PAGE_ID]));
    assert(meta == plain);
    assert(plain.database_header() == s.pages[META_PAGE_ID].database_header());
    let fresh = described(meta)->Ok_0;
    let again = supplied(fresh, s.order, file, ids);
    supplied_pages_are_read(fresh, s.order, file, ids);
    assert forall|id: u32|
        id < s.page_count && #[trigger] s.pages.contains_key(id) implies again.pages.contains_key(
        id,
    ) && again.pages[id] == read_again(s.pages[id]) by {
        assert(!s.dirty.contains(id));
        if id == META_PAGE_ID {
            assert(again.pages[id] == fresh.pages[id]);
        } else {
            assert(ids.contains(PageId(id)));
            assert(again.pages[id] == page_of_bytes(s.order, file[id]));
        }
    }
    reopened_says_same(s, values, again);
    assert forall|id: u32| #[trigger] again.pages.contains_key(id) implies again.pages[id].order
        == again.order by {
        if ids.contains(PageId(id)) {
            assert(again.pages[id] == page_of_bytes(s.order, file[id]));
        } else {
            assert(again.pages[id] == fresh.pages[id]);
        }
    }
    assert forall|id: u32| !#[trigger] again.dirty.contains(id) by {
        if ids.contains(PageId(id)) {
            assert(again.pages[id] == page_of_bytes(s.order, file[id]));
        } else {
            assert(again.pages[id] == fresh.pages[id]);
        }
    }
}

/// Writing the counts to the meta page changes nothing but the counts on it: the rest of it stays,
/// and so does every other page. Without a meta page in memory, or with one whose header is not
/// valid, before or after, nothing changes.
pub proof fn flushing_changes_counts_alone(s: PagerModel, other: u32)
    requires
        s.pages.contains_key(META_PAGE_ID) ==> s.pages[META_PAGE_ID].body.len() == BODY_SIZE,
    ensures
        ({
            let (after, result) = s.flush_meta();
            let meta = s.pages[META_PAGE_ID];
            &&& same_counts(s, after)
            &&& result is Err ==> after == s
            &&& !s.pages.contains_key(META_PAGE_ID) ==> result == Err::<(), ShuError>(
                ShuError::Io { page_id: PageId(META_PAGE_ID) },
            )
            &&& s.pages.contains_key(META_PAGE_ID) && meta.database_header() is Err ==> result
                == Err::<(), ShuError>(meta.database_header()->Err_0)
            &&& s.pages.contains_key(META_PAGE_ID) && meta.database_header() is Ok ==> (
            result is Ok <==> s.page_count >= 2 && s.root_page_id != meta.header.page_id
                && s.root_page_id.0 < s.page_count)
            &&& result is Ok ==> {
                &&& after.dirty.contains(META_PAGE_ID)
                &&& after.pages.contains_key(META_PAGE_ID)
                &&& after.pages[META_PAGE_ID].order == meta.order
                &&& after.pages[META_PAGE_ID].header == meta.header
                &&& after.pages[META_PAGE_ID].overflow == meta.overflow
                &&& after.pages[META_PAGE_ID].body.subrange(12, 4080) == meta.body.subrange(
                    12,
                    4080,
                )
                &&& after.pages[META_PAGE_ID].database_header() matches Ok(header)
                    && header.page_count == s.page_count && header.root_page_id == s.root_page_id
                    && header.freelist_head == s.freelist_head
            }
            &&& other != META_PAGE_ID ==> {
                &&& after.pages.contains_key(other) == s.pages.contains_key(other)
                &&& after.pages[other] == s.pages[other]
                &&& after.dirty.contains(other) == s.dirty.contains(other)
            }
        }),
{
    let (after, result) = s.flush_meta();
    if result is Ok {
        let meta = s.pages[META_PAGE_ID];
        let found = meta.database_header()->Ok_0;
        let header = DatabaseHeader {
            page_count: s.page_count,
            root_page_id: s.root_page_id,
            freelist_head: s.freelist_head,
            ..found
        };
        written_header_reads_back(meta, header);
        header.round_trip(meta.order);
        let b = header.to_bytes(meta.order);
        let new = after.pages[META_PAGE_ID].body;
        assert forall|i: int| 12 <= i < 4080 implies new[i] == meta.body[i] by {
            if i < 16 {
                assert(b.subrange(12, 16) =~= header._reserved@);
                assert(b[i] == b.subrange(12, 16)[i - 12]);
                assert(found._reserved@[i - 12] == meta.body.subrange(0, 16)[i]);
            }
        }
        assert(new.subrange(12, 4080) =~= meta.body.subrange(12, 4080));
    }
}

} // verus!
