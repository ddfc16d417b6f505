//! What is read of a page is what was written to it, where its numbers and cells lie in its
//! bytes, and what a page of another type refuses.
use crate::error::ShuError;
use crate::storage::codec::{le_u16, le_u32, u16_bytes, u16_bytes_in, u16_in, u16_round_trip};
use crate::storage::codec::{u32_bytes, u32_bytes_in, u32_in, ByteOrder, Record};
use crate::storage::header::DatabaseHeader;
use crate::storage::model::{InternalCell, InternalNode, LeafCell};
use crate::storage::page::{blank_page, page_bytes, page_of_bytes, Overflow, PageHeader};
use crate::storage::page::{PageId, PageModel, PageType, BODY_SIZE};
use crate::storage::search_laws::{keys_strictly_ascend, records, records_of_inserted};
use crate::storage::search_laws::{strictly_ascending_keys_ascend, upsert_is_right};
use crate::storage::slotted::{internal_cell_bytes, internal_cell_space, internal_pointer};
use crate::storage::slotted::{internal_space, keys_ascend, leaf_cell_bytes, leaf_cell_space};
use crate::storage::slotted::{leaf_pointer, leaf_space, upsert};
use crate::storage::slotted::{InternalPageHeader, LeafPageHeader, INTERNAL_CAPACITY, LEAF_CAPACITY};
use crate::storage::slotted_laws::rewritten_leaf_reads_back;
use vstd::prelude::*;

verus! {

/// The bytes of a number weigh 1, 256 and so on, from the low byte to the high one.
pub proof fn bytes_have_weights(b: Seq<u8>, v: u16, w: u32)
    ensures
        b.len() == 2 ==> le_u16(b) as int == b[0] + 256 * b[1],
        b.len() == 4 ==> le_u32(b) as int == b[0] + 256 * b[1] + 65536 * b[2] + 16777216 * b[3],
        u16_bytes(v).len() == 2,
        u16_bytes(v)[0] + 256 * u16_bytes(v)[1] == v,
        u32_bytes(w).len() == 4,
        u32_bytes(w)[0] + 256 * u32_bytes(w)[1] + 65536 * u32_bytes(w)[2] + 16777216 * u32_bytes(
            w,
        )[3] == w,
{
}

/// In the one order the low byte comes first, in the other the high one.
pub proof fn orders_are_opposite(b: Seq<u8>, v: u16, w: u32)
    ensures
        u16_in(ByteOrder::Little, b) == le_u16(b),
        b.len() == 2 ==> u16_in(ByteOrder::Big, b) == le_u16(b.reverse()),
        u32_in(ByteOrder::Little, b) == le_u32(b),
        b.len() == 4 ==> u32_in(ByteOrder::Big, b) == le_u32(b.reverse()),
        u16_bytes_in(ByteOrder::Little, v) == u16_bytes(v),
        u16_bytes_in(ByteOrder::Big, v) == u16_bytes(v).reverse(),
        u32_bytes_in(ByteOrder::Little, w) == u32_bytes(w),
        u32_bytes_in(ByteOrder::Big, w) == u32_bytes(w).reverse(),
{
    assert(b.len() == 2 ==> b.reverse() =~= seq![b[1], b[0]]);
    assert(b.len() == 4 ==> b.reverse() =~= seq![b[3], b[2], b[1], b[0]]);
}

/// Where the numbers of a page's header lie in the bytes of a page, and that its body follows.
pub proof fn page_layout(page: PageModel)
    requires
        page.body.len() == BODY_SIZE,
    ensures
        ({
            let b = page_bytes(page);
            &&& b.len() == 4096
            &&& b.subrange(0, 4) == u32_bytes_in(page.order, page.header.page_id.0)
            &&& b[4] == page.header.page_type
            &&& b.subrange(5, 8) == page.header._reserved@
            &&& b.subrange(8, 12) == u32_bytes_in(page.order, page.header.checksum)
            &&& b.subrange(12, 16) == page.header._reserved2@
            &&& b.subrange(16, 4096) == page.body
        }),
{
    let b = page_bytes(page);
    assert(b.subrange(0, 4) =~= u32_bytes_in(page.order, page.header.page_id.0));
    assert(b.subrange(5, 8) =~= page.header._reserved@);
    assert(b.subrange(8, 12) =~= u32_bytes_in(page.order, page.header.checksum));
    assert(b.subrange(12, 16) =~= page.header._reserved2@);
    assert(b.subrange(16, 4096) =~= page.body);
}

/// The page that bytes describe has the numbers that lie in them, and no overflow.
pub proof fn page_is_what_bytes_say(order: ByteOrder, b: Seq<u8>)
    requires
        b.len() == 4096,
    ensures
        ({
            let page = page_of_bytes(order, b);
            &&& page.order == order
            &&& page.header.page_id.0 == u32_in(order, b.subrange(0, 4))
            &&& page.header.page_type == b[4]
            &&& page.header.checksum == u32_in(order, b.subrange(8, 12))
            &&& page.body == b.subrange(16, 4096)
            &&& page.overflow is Empty
        }),
{
    assert(b.subrange(0, 16).subrange(0, 4) =~= b.subrange(0, 4));
    assert(b.subrange(0, 16).subrange(8, 12) =~= b.subrange(8, 12));
}

/// Where the numbers of the database header lie in its bytes.
pub proof fn database_header_layout(header: DatabaseHeader, order: ByteOrder)
    ensures
        ({
            let b = header.to_bytes(order);
            &&& b.len() == 16
            &&& b.subrange(0, 4) == u32_bytes_in(order, header.root_page_id.0)
            &&& b.subrange(4, 8) == u32_bytes_in(order, header.page_count)
            &&& b.subrange(8, 12) == u32_bytes_in(order, header.freelist_head)
            &&& b.subrange(12, 16) == header._reserved@
        }),
{
    let b = header.to_bytes(order);
    assert(b.subrange(0, 4) =~= u32_bytes_in(order, header.root_page_id.0));
    assert(b.subrange(4, 8) =~= u32_bytes_in(order, header.page_count));
    assert(b.subrange(8, 12) =~= u32_bytes_in(order, header.freelist_head));
    assert(b.subrange(12, 16) =~= header._reserved@);
}

/// Where the numbers of the headers of leaf and internal pages lie in their bytes.
pub proof fn slotted_header_layout(
    leaf: LeafPageHeader,
    internal: InternalPageHeader,
    order: ByteOrder,
)
    ensures
        ({
            let b = leaf.to_bytes(order);
            &&& b.len() == 12
            &&& b.subrange(0, 2) == u16_bytes_in(order, leaf.record_count)
            &&& b.subrange(2, 4) == u16_bytes_in(order, leaf.record_content_start)
            &&& b.subrange(4, 8) == u32_bytes_in(order, leaf.right_sibling.0)
            &&& b.subrange(8, 12) == u32_bytes_in(order, leaf.left_sibling.0)
        }),
        ({
            let b = internal.to_bytes(order);
            &&& b.len() == 8
            &&& b.subrange(0, 2) == u16_bytes_in(order, internal.record_count)
            &&& b.subrange(2, 4) == u16_bytes_in(order, internal.record_content_start)
            &&& b.subrange(4, 8) == u32_bytes_in(order, internal.right_child.0)
        }),
{
    let b = leaf.to_bytes(order);
    assert(b.subrange(0, 2) =~= u16_bytes_in(order, leaf.record_count));
    assert(b.subrange(2, 4) =~= u16_bytes_in(order, leaf.record_content_start));
    assert(b.subrange(4, 8) =~= u32_bytes_in(order, leaf.right_sibling.0));
    assert(b.subrange(8, 12) =~= u32_bytes_in(order, leaf.left_sibling.0));
    let b = internal.to_bytes(order);
    assert(b.subrange(0, 2) =~= u16_bytes_in(order, internal.record_count));
    assert(b.subrange(2, 4) =~= u16_bytes_in(order, internal.record_content_start));
    assert(b.subrange(4, 8) =~= u32_bytes_in(order, internal.right_child.0));
}

/// Where lengths, keys, values and children lie in the bytes of cells. Lengths have the low byte
/// first in either byte order.
pub proof fn cell_layout(leaf: LeafCell, internal: InternalCell, order: ByteOrder)
    requires
        leaf.key.len() <= u16::MAX,
        leaf.value.len() <= u16::MAX,
        internal.separator.len() <= u16::MAX,
    ensures
        ({
            let b = leaf_cell_bytes(leaf);
            let k = leaf.key.len() as int;
            let v = leaf.value.len() as int;
            &&& b.len() == 4 + k + v
            &&& b[0] + 256 * b[1] == k
            &&& b[2] + 256 * b[3] == v
            &&& b.subrange(4, 4 + k) == leaf.key
            &&& b.subrange(4 + k, 4 + k + v) == leaf.value
        }),
        ({
            let b = internal_cell_bytes(order, internal);
            let k = internal.separator.len() as int;
            &&& b.len() == 6 + k
            &&& b.subrange(0, 4) == u32_bytes_in(order, internal.child.0)
            &&& b[4] + 256 * b[5] == k
            &&& b.subrange(6, 6 + k) == internal.separator
        }),
{
    let b = leaf_cell_bytes(leaf);
    let k = leaf.key.len() as int;
    let v = leaf.value.len() as int;
    assert(b.subrange(4, 4 + k) =~= leaf.key);
    assert(b.subrange(4 + k, 4 + k + v) =~= leaf.value);
    let b = internal_cell_bytes(order, internal);
    let k = internal.separator.len() as int;
    assert(b.subrange(0, 4) =~= u32_bytes_in(order, internal.child.0));
    assert(b.subrange(6, 6 + k) =~= internal.separator);
}

/// A record takes its key and value, six bytes for lengths and pointer, in a leaf page; a
/// separator eight bytes more than its own in an internal page. Records take what each of them
/// takes. A leaf page has 4068 bytes for them, and an internal page 4072. Their pointers lie in
/// a row behind the header.
pub proof fn sizes(
    leaf: LeafCell,
    internal: InternalCell,
    leaves: Seq<LeafCell>,
    internals: Seq<InternalCell>,
)
    ensures
        leaf_cell_space(leaf) == 6 + leaf.key.len() + leaf.value.len(),
        internal_cell_space(internal) == 8 + internal.separator.len(),
        leaf_space(Seq::empty()) == 0,
        internal_space(Seq::empty()) == 0,
        leaf_space(leaves.push(leaf)) == leaf_space(leaves) + leaf_cell_space(leaf),
        internal_space(internals.push(internal)) == internal_space(internals)
            + internal_cell_space(internal),
        LEAF_CAPACITY == 4068,
        INTERNAL_CAPACITY == 4072,
        forall|i: int| #[trigger] leaf_pointer(i) == 12 + 2 * i,
        forall|i: int| #[trigger] internal_pointer(i) == 8 + 2 * i,
{
    assert(leaves.push(leaf).drop_last() =~= leaves);
    assert(internals.push(internal).drop_last() =~= internals);
}

/// A new page has its type and id, the byte order that was asked for, and zeros otherwise.
pub proof fn new_page_is_blank(order: ByteOrder, page_type: PageType, page_id: PageId)
    ensures
        ({
            let page = blank_page(order, page_type, page_id);
            &&& page.order == order
            &&& page.header.page_id == page_id
            &&& page.id() == page_id
            &&& page.page_type() == Ok::<PageType, ShuError>(page_type)
            &&& page.header.checksum == 0
            &&& page.body.len() == 4080
            &&& forall|i: int| 0 <= i < 4080 ==> #[trigger] page.body[i] == 0
            &&& page.overflow is Empty
        }),
{
}

/// The three page types have the bytes 1, 2 and 3, and no other byte stands for one. A page of
/// another type differs in that byte alone.
pub proof fn page_types_are_told_apart(page: PageModel, page_type: PageType)
    ensures
        PageType::of_byte(page_type.byte()) == Ok::<PageType, ShuError>(page_type),
        page_type.byte() == match page_type {
            PageType::Meta => 1u8,
            PageType::Internal => 2u8,
            PageType::Leaf => 3u8,
        },
        page.page_type() is Ok <==> 1 <= page.header.page_type <= 3,
        page.page_type() is Err ==> page.page_type() == Err::<PageType, ShuError>(
            ShuError::InvalidPageType,
        ),
        page.with_page_type(page_type).page_type() == Ok::<PageType, ShuError>(page_type),
        page.with_page_type(page_type) == (PageModel {
            header: PageHeader { page_type: page_type.byte(), ..page.header },
            ..page
        }),
        page.assert_page_type(page_type) is Ok <==> page.page_type() == Ok::<PageType, ShuError>(
            page_type,
        ),
{
}

/// Bytes can be written to a range of the body if they are as many as the range has. They are
/// then what is read of it, and every range apart from it is read as before. Nothing else of the
/// page changes.
pub proof fn written_bytes_are_read(
    page: PageModel,
    start: usize,
    end: usize,
    bytes: Seq<u8>,
    from: usize,
    to: usize,
)
    requires
        page.body.len() == BODY_SIZE,
    ensures
        ({
            let (after, result) = page.write_body_bytes(start, end, bytes);
            &&& result is Ok <==> start <= end <= 4080 && end - start == bytes.len()
            &&& result is Err ==> after == page
            &&& result is Ok ==> {
                &&& after == page.with_body(after.body)
                &&& after.body.len() == BODY_SIZE
                &&& after.read_body_bytes(start, end) == Ok::<Seq<u8>, ShuError>(bytes)
                &&& from <= to <= 4080 && (to <= start || end <= from)
                    ==> after.read_body_bytes(from, to) == page.read_body_bytes(from, to)
            }
            &&& page.read_body_bytes(from, to) is Ok <==> from <= to <= 4080
            &&& from <= to <= 4080 ==> page.read_body_bytes(from, to) == Ok::<Seq<u8>, ShuError>(
                page.body.subrange(from as int, to as int),
            )
            &&& !(from <= to <= 4080) ==> page.read_body_bytes(from, to) == Err::<
                Seq<u8>,
                ShuError,
            >(
                ShuError::InvalidBodyRange {
                    page_id: page.header.page_id,
                    start: from,
                    end: to,
                    body_len: 4080,
                },
            )
        }),
{
    let (after, result) = page.write_body_bytes(start, end, bytes);
    if result is Ok {
        assert(after.body.subrange(start as int, end as int) =~= bytes);
        if from <= to <= 4080 && (to <= start || end <= from) {
            assert(after.body.subrange(from as int, to as int) =~= page.body.subrange(
                from as int,
                to as int,
            ));
        }
    }
}

/// A number can be written to two bytes of the body, the low byte first, and is then what is
/// read of them; all other bytes stay.
pub proof fn written_number_is_read(page: PageModel, offset: usize, value: u16, other: int)
    requires
        page.body.len() == BODY_SIZE,
    ensures
        ({
            let (after, result) = page.write_body_u16(offset, value);
            &&& result is Ok <==> offset + 2 <= 4080
            &&& result is Err ==> after == page
            &&& result is Ok ==> {
                &&& after == page.with_body(after.body)
                &&& after.read_body_u16(offset) == Ok::<u16, ShuError>(value)
                &&& after.body[offset as int] + 256 * after.body[offset + 1] == value
                &&& 0 <= other < 4080 && other != offset && other != offset + 1
                    ==> after.body[other] == page.body[other]
            }
            &&& page.read_body_u16(offset) is Ok <==> offset + 2 <= 4080
            &&& offset + 2 <= 4080 ==> (page.read_body_u16(offset) matches Ok(v) && v
                == page.body[offset as int] + 256 * page.body[offset + 1])
        }),
{
    let (after, result) = page.write_body_u16(offset, value);
    u16_round_trip(value, Seq::empty());
    if result is Ok {
        assert(after.body.subrange(offset as int, offset + 2) =~= u16_bytes(value));
    }
    if offset + 2 <= 4080 {
        let b = page.body.subrange(offset as int, offset + 2);
        assert(le_u16(b) as int == b[0] + 256 * b[1]);
    }
}

/// A range of the body can be copied to where it fits, and is then read there; all bytes
/// elsewhere stay.
pub proof fn copied_bytes_are_read(
    page: PageModel,
    start: usize,
    end: usize,
    dst: usize,
    other: int,
)
    requires
        page.body.len() == BODY_SIZE,
    ensures
        ({
            let (after, result) = page.copy_body_within(start, end, dst);
            &&& result is Ok <==> start <= end <= 4080 && dst + (end - start) <= 4080
            &&& result is Err ==> after == page
            &&& result is Ok ==> {
                &&& after == page.with_body(after.body)
                &&& after.body.len() == BODY_SIZE
                &&& after.body.subrange(dst as int, dst + (end - start)) == page.body.subrange(
                    start as int,
                    end as int,
                )
                &&& 0 <= other < dst || dst + (end - start) <= other < 4080 ==> after.body[other]
                    == page.body[other]
            }
        }),
{
    let (after, result) = page.copy_body_within(start, end, dst);
    if result is Ok {
        assert(after.body.subrange(dst as int, dst + (end - start)) =~= page.body.subrange(
            start as int,
            end as int,
        ));
    }
}

/// A record that was written to the first bytes of the body is the one that is read; the bytes
/// behind it stay. A record that is longer than the body can be neither written nor read.
pub proof fn written_record_is_read<T: Record>(page: PageModel, value: T, other: int)
    requires
        page.body.len() == BODY_SIZE,
    ensures
        ({
            let (after, result) = page.write_body_prefix(value);
            &&& result is Ok <==> T::spec_len() <= 4080
            &&& result is Err ==> after == page
            &&& result is Ok ==> {
                &&& after == page.with_body(after.body)
                &&& after.read_body_prefix::<T>() == Ok::<T, ShuError>(value)
                &&& T::spec_len() <= other < 4080 ==> after.body[other] == page.body[other]
            }
            &&& page.read_body_prefix::<T>() is Ok <==> T::spec_len() <= 4080
        }),
{
    value.round_trip(page.order);
    let (after, result) = page.write_body_prefix(value);
    if result is Ok {
        assert(after.body.subrange(0, T::spec_len() as int) =~= value.to_bytes(page.order));
    }
}

/// A database header is valid if there are at least two pages and the root is one of them other
/// than the meta page. A meta page with a valid header can be read, any other page cannot; a
/// valid header can be written to a meta page, nothing else can, and the bytes behind it stay.
pub proof fn headers_are_held_to_rules(page: PageModel, header: DatabaseHeader, other: int)
    requires
        page.body.len() == BODY_SIZE,
    ensures
        header.valid(page.header.page_id) <==> header.page_count >= 2 && header.root_page_id
            != page.header.page_id && header.root_page_id.0 < header.page_count,
        ({
            let found = DatabaseHeader::from_bytes(page.order, page.body.subrange(0, 16));
            let is_meta = page.header.page_type == 1;
            &&& page.database_header() is Ok <==> is_meta && found.valid(page.header.page_id)
            &&& page.database_header() matches Ok(read) ==> read == found
            &&& page.write_database_header(header).1 is Ok <==> is_meta && header.valid(
                page.header.page_id,
            )
            &&& page.write_database_header(header).1 is Err ==> page.write_database_header(
                header,
            ).0 == page
            &&& 16 <= other < 4080 ==> page.write_database_header(header).0.body[other]
                == page.body[other]
        }),
{
    header.round_trip(page.order);
}

/// The database header that bytes describe has the numbers that lie in them.
pub proof fn database_header_is_what_bytes_say(order: ByteOrder, b: Seq<u8>)
    ensures
        ({
            let header = DatabaseHeader::from_bytes(order, b);
            &&& header.root_page_id.0 == u32_in(order, b.subrange(0, 4))
            &&& header.page_count == u32_in(order, b.subrange(4, 8))
            &&& header.freelist_head == u32_in(order, b.subrange(8, 12))
        }),
{
}

/// A page that is no leaf page refuses whatever is asked of a leaf page, and stays as it is.
pub proof fn no_leaf_page_refuses(
    page: PageModel,
    key: Seq<u8>,
    value: Seq<u8>,
    index: u16,
    cell: LeafCell,
)
    requires
        page.page_type() != Ok::<PageType, ShuError>(PageType::Leaf),
    ensures
        page.read_leaf_header() == Err::<LeafPageHeader, ShuError>(ShuError::InvalidPageType),
        page.leaf_entry(index) == Err::<LeafCell, ShuError>(ShuError::InvalidPageType),
        page.leaf_search(key) is Err,
        page.init_leaf_page() == (page, Err::<(), ShuError>(ShuError::InvalidPageType)),
        page.append_leaf_entry(cell) == (page, Err::<(), ShuError>(ShuError::InvalidPageType)),
        page.insert_leaf_entry(key, value) == (page, Err::<(), ShuError>(
            ShuError::InvalidPageType,
        )),
{
    reveal(PageModel::append_leaf_entry);
}

/// A page that is no internal page refuses whatever is asked of an internal page, and stays as
/// it is.
pub proof fn no_internal_page_refuses(
    page: PageModel,
    key: Seq<u8>,
    index: u16,
    cell: InternalCell,
    child: PageId,
)
    requires
        page.page_type() != Ok::<PageType, ShuError>(PageType::Internal),
    ensures
        page.read_internal_header() == Err::<InternalPageHeader, ShuError>(
            ShuError::InvalidPageType,
        ),
        page.internal_entry(index) == Err::<InternalCell, ShuError>(ShuError::InvalidPageType),
        page.child_index_for_key(key) == Err::<u16, ShuError>(ShuError::InvalidPageType),
        page.child_at(index) == Err::<PageId, ShuError>(ShuError::InvalidPageType),
        page.init_internal_page() == (page, Err::<(), ShuError>(ShuError::InvalidPageType)),
        page.append_internal_entry(cell) == (page, Err::<(), ShuError>(
            ShuError::InvalidPageType,
        )),
        page.insert_internal_entry(index, cell) == (page, Err::<(), ShuError>(
            ShuError::InvalidPageType,
        )),
        page.set_right_child(child) == (page, Err::<(), ShuError>(ShuError::InvalidPageType)),
{
    reveal(PageModel::append_internal_entry);
}

/// There is no record at or behind the count, and no child behind the right child.
pub proof fn nothing_behind_the_count(page: PageModel, index: u16, cell: InternalCell)
    ensures
        page.read_leaf_header() matches Ok(header) ==> index >= header.record_count
            ==> page.leaf_entry(index) == Err::<LeafCell, ShuError>(ShuError::IndexOutOfRange),
        page.read_internal_header() matches Ok(header) ==> index >= header.record_count
            ==> page.internal_entry(index) == Err::<InternalCell, ShuError>(
            ShuError::IndexOutOfRange,
        ),
        page.read_internal_header() matches Ok(header) ==> index == header.record_count
            ==> page.child_at(index) == Ok::<PageId, ShuError>(header.right_child),
        page.read_internal_header() matches Ok(header) ==> index > header.record_count
            ==> page.child_at(index) == Err::<PageId, ShuError>(ShuError::IndexOutOfRange)
            && page.insert_internal_entry(index, cell) == (page, Err::<(), ShuError>(
            ShuError::IndexOutOfRange,
        )),
{
}

/// The header of a leaf or internal page can be read if the page is of that type and its cell
/// pointers end before its cells begin, within the body. It is what the first bytes of the body
/// say.
pub proof fn slotted_headers_are_held_to_rules(page: PageModel)
    ensures
        ({
            let header = LeafPageHeader::from_bytes(page.order, page.body.subrange(0, 12));
            &&& page.read_leaf_header() is Ok <==> page.header.page_type == 3 && 12 + 2
                * header.record_count <= header.record_content_start <= 4080
            &&& page.read_leaf_header() matches Ok(read) ==> read == header
        }),
        ({
            let header = InternalPageHeader::from_bytes(page.order, page.body.subrange(0, 8));
            &&& page.read_internal_header() is Ok <==> page.header.page_type == 2 && 8 + 2
                * header.record_count <= header.record_content_start <= 4080
            &&& page.read_internal_header() matches Ok(read) ==> read == header
        }),
{
}

/// The contents of an internal page, or the records of a leaf page, that are in its overflow are
/// those that are read.
pub proof fn overflow_is_read(page: PageModel, cells: Seq<LeafCell>, node: InternalNode)
    ensures
        page.overflow == Overflow::Leaf(cells) ==> page.leaf_entries() == Ok::<
            Seq<LeafCell>,
            ShuError,
        >(cells),
        page.overflow == Overflow::Internal(node) ==> page.internal_entries() == Ok::<
            InternalNode,
            ShuError,
        >(node),
{
}

/// A leaf page with its records in order takes any other record, or another value for a key that
/// it has. The records are in order afterwards and say the new value for the key, and the same
/// for every other. If they do not fit the body, they are all in the overflow, and the body stays
/// as it is.
pub proof fn leaf_page_takes_record(
    page: PageModel,
    cells: Seq<LeafCell>,
    key: Seq<u8>,
    value: Seq<u8>,
) -> (changed: Seq<LeafCell>)
    requires
        page.body.len() == BODY_SIZE,
        page.page_type() == Ok::<PageType, ShuError>(PageType::Leaf),
        page.leaf_entries() == Ok::<Seq<LeafCell>, ShuError>(cells),
        keys_strictly_ascend(cells),
    ensures
        keys_strictly_ascend(changed),
        records(changed) == records(cells).insert(key, value),
        ({
            let (after, result) = page.insert_leaf_entry(key, value);
            &&& result == Ok::<(), ShuError>(())
            &&& after.leaf_entries() == Ok::<Seq<LeafCell>, ShuError>(changed)
            &&& after.order == page.order
            &&& after.header == page.header
            &&& leaf_space(changed) > 4068 ==> after.overflow == Overflow::Leaf(changed)
                && after.body == page.body
            &&& leaf_space(changed) <= 4068 ==> after.overflow is Empty
        }),
{
    let changed = upsert(cells, key, value);
    upsert_is_right(cells, key, value);
    records_of_inserted(cells, changed, key, value);
    strictly_ascending_keys_ascend(changed);
    if leaf_space(changed) <= LEAF_CAPACITY {
        rewritten_leaf_reads_back(page, changed);
    }
    changed
}

/// Records that do not fit a leaf page, or are not in order, are not written to it.
pub proof fn records_are_refused(page: PageModel, cells: Seq<LeafCell>)
    ensures
        !keys_ascend(cells) ==> page.rewrite_leaf_entries(cells) == (page, Err::<(), ShuError>(
            ShuError::CorruptedPage { page_id: page.header.page_id },
        )),
        keys_ascend(cells) && 4068 < leaf_space(cells) <= usize::MAX ==> page.rewrite_leaf_entries(
            cells,
        ) == (page, Err::<(), ShuError>(
            ShuError::PageFull {
                page_id: page.header.page_id,
                needed: leaf_space(cells) as usize,
                available: 4068,
            },
        )),
{
}

/// A record whose key or value is too long for its length to be written is not appended, and
/// neither is one that begins before the body.
pub proof fn record_is_not_appended(page: PageModel, cell: LeafCell, separator: InternalCell)
    requires
        cell.key.len() <= usize::MAX,
        cell.value.len() <= usize::MAX,
        separator.separator.len() <= usize::MAX,
    ensures
        page.read_leaf_header() is Ok && (cell.key.len() > 65535 || cell.value.len() > 65535)
            ==> page.append_leaf_entry(cell) == (page, Err::<(), ShuError>(
            ShuError::CellTooLarge {
                page_id: page.header.page_id,
                key_len: cell.key.len() as usize,
                value_len: cell.value.len() as usize,
            },
        )),
        page.read_leaf_header() is Ok && cell.key.len() <= 65535 && cell.value.len() <= 65535 && 4
            + cell.key.len() + cell.value.len()
            > page.read_leaf_header()->Ok_0.record_content_start ==> page.append_leaf_entry(cell)
            == (page, Err::<(), ShuError>(
            ShuError::PageFull {
                page_id: page.header.page_id,
                needed: (4 + cell.key.len() + cell.value.len()) as usize,
                available: 0,
            },
        )),
        page.read_internal_header() is Ok && separator.separator.len() > 65535
            ==> page.append_internal_entry(separator) == (page, Err::<(), ShuError>(
            ShuError::CellTooLarge {
                page_id: page.header.page_id,
                key_len: separator.separator.len() as usize,
                value_len: 0,
            },
        )),
        page.read_internal_header() is Ok && separator.separator.len() <= 65535 && 6
            + separator.separator.len() > page.read_internal_header()->Ok_0.record_content_start
            ==> page.append_internal_entry(separator) == (page, Err::<(), ShuError>(
            ShuError::PageFull {
                page_id: page.header.page_id,
                needed: (6 + separator.separator.len()) as usize,
                available: 0,
            },
        )),
{
    reveal(PageModel::append_leaf_entry);
    reveal(PageModel::append_internal_entry);
}

/// A record that is too long is not inserted among the others either.
pub proof fn record_is_not_inserted(page: PageModel, index: u16, cell: InternalCell)
    requires
        cell.separator.len() <= usize::MAX,
        page.read_internal_header() is Ok,
        index <= page.read_internal_header()->Ok_0.record_count,
    ensures
        cell.separator.len() > 65535 ==> page.insert_internal_entry(index, cell) == (page, Err::<
            (),
            ShuError,
        >(
            ShuError::CellTooLarge {
                page_id: page.header.page_id,
                key_len: cell.separator.len() as usize,
                value_len: 0,
            },
        )),
        cell.separator.len() <= 65535 && 6 + cell.separator.len()
            > page.read_internal_header()->Ok_0.record_content_start
            ==> page.insert_internal_entry(index, cell) == (page, Err::<(), ShuError>(
            ShuError::PageFull {
                page_id: page.header.page_id,
                needed: (6 + cell.separator.len()) as usize,
                available: 0,
            },
        )),
{
}

} // verus!
