//! What is read from a slotted page is what was written to it.
use crate::error::ShuError;
use crate::storage::codec::{le_u16, u16_bytes, u16_round_trip, u32_bytes_in, u32_round_trip_in};
use crate::storage::codec::{ByteOrder, Record};
use crate::storage::model::{InternalCell, InternalNode, LeafCell};
use crate::storage::page::{splice, Overflow, PageId, PageModel, PageType, BODY_SIZE};
use crate::storage::slotted::{internal_cell_bytes, internal_cell_space, internal_pointer};
use crate::storage::slotted::{internal_space, keys_ascend, leaf_cell_bytes, leaf_pointer};
use crate::storage::slotted::{leaf_space, InternalPageHeader, LeafPageHeader, INTERNAL_CAPACITY};
use crate::storage::slotted::{INTERNAL_HEADER_SIZE, LEAF_CAPACITY, LEAF_HEADER_SIZE};
use vstd::prelude::*;

verus! {

/// Writing at one place of a body leaves the others as they were.
proof fn splice_apart(body: Seq<u8>, at: int, bytes: Seq<u8>, from: int, to: int)
    requires
        0 <= from <= to <= body.len(),
        to <= at || at + bytes.len() <= from,
    ensures
        splice(body, at, bytes).subrange(from, to) == body.subrange(from, to),
{
    assert(splice(body, at, bytes).subrange(from, to) =~= body.subrange(from, to));
}

/// The bytes written are found where they were written.
proof fn splice_here(body: Seq<u8>, at: int, bytes: Seq<u8>)
    requires
        0 <= at,
        at + bytes.len() <= body.len(),
    ensures
        splice(body, at, bytes).subrange(at, at + bytes.len()) == bytes,
{
    assert(splice(body, at, bytes).subrange(at, at + bytes.len()) =~= bytes);
}

/// The space of more records is not less.
pub proof fn leaf_space_monotonic(cells: Seq<LeafCell>, m: int, n: int)
    requires
        0 <= m <= n <= cells.len(),
    ensures
        leaf_space(cells.take(m)) + 6 * (n - m) <= leaf_space(cells.take(n)),
    decreases n - m,
{
    if m < n {
        leaf_space_monotonic(cells, m, n - 1);
        assert(cells.take(n).drop_last() =~= cells.take(n - 1));
    }
}

/// The space of more records is not less.
pub proof fn internal_space_monotonic(cells: Seq<InternalCell>, m: int, n: int)
    requires
        0 <= m <= n <= cells.len(),
    ensures
        internal_space(cells.take(m)) + 8 * (n - m) <= internal_space(cells.take(n)),
    decreases n - m,
{
    if m < n {
        internal_space_monotonic(cells, m, n - 1);
        assert(cells.take(n).drop_last() =~= cells.take(n - 1));
    }
}

/// The cell at an offset of the body lies behind `content_start` and is this one.
spec fn leaf_cell_lies_at(body: Seq<u8>, content_start: int, pointer: int, cell: LeafCell) -> bool {
    let cell_start = le_u16(body.subrange(pointer, pointer + 2)) as int;
    let cell_end = cell_start + 4 + cell.key.len() + cell.value.len();
    &&& content_start <= cell_start
    &&& cell_end <= BODY_SIZE
    &&& body.subrange(cell_start, cell_end) == leaf_cell_bytes(cell)
}

/// Where the cell of a record begins if the cells lie one before the other, from the end of the
/// body on.
pub open spec fn leaf_start(cells: Seq<LeafCell>, i: int) -> int {
    BODY_SIZE + 2 * (i + 1) - leaf_space(cells.take(i + 1))
}

/// The body of a leaf page holds the first `n` records, packed against its end.
spec fn leaf_filled(page: PageModel, cells: Seq<LeafCell>, n: int) -> bool {
    let content_start = BODY_SIZE + 2 * n - leaf_space(cells.take(n));
    &&& page.body.len() == BODY_SIZE
    &&& page.page_type() == Ok::<PageType, ShuError>(PageType::Leaf)
    &&& ({
        let header = LeafPageHeader::from_bytes(
            page.order,
            page.body.subrange(0, LEAF_HEADER_SIZE as int),
        );
        header.record_count == n && header.record_content_start == content_start
            && header.right_sibling == PageId(0) && header.left_sibling == PageId(0)
    })
    &&& forall|i: int|
        0 <= i < n ==> le_u16(page.body.subrange(leaf_pointer(i), leaf_pointer(i) + 2))
            == #[trigger] leaf_start(cells, i)
    &&& forall|i: int|
        0 <= i < n ==> #[trigger] leaf_cell_lies_at(
            page.body,
            content_start,
            leaf_pointer(i),
            cells[i],
        )
}

/// A cell that lies in the body is read as what it is.
proof fn leaf_cell_is_read(page: PageModel, content_start: int, pointer: int, cell: LeafCell)
    requires
        page.body.len() == BODY_SIZE,
        0 <= pointer,
        pointer + 2 <= BODY_SIZE,
        0 <= content_start,
        leaf_cell_lies_at(page.body, content_start, pointer, cell),
    ensures
        page.leaf_cell_at(le_u16(page.body.subrange(pointer, pointer + 2))) == Ok::<
            LeafCell,
            ShuError,
        >(cell),
{
    let cell_start = le_u16(page.body.subrange(pointer, pointer + 2)) as int;
    let k = cell.key.len() as int;
    let v = cell.value.len() as int;
    let bytes = leaf_cell_bytes(cell);
    let here = page.body.subrange(cell_start, cell_start + 4 + k + v);
    u16_round_trip(k as u16, bytes);
    u16_round_trip(v as u16, bytes);
    assert(page.body.subrange(cell_start, cell_start + 2) =~= here.subrange(0, 2));
    assert(bytes.subrange(0, 2) =~= u16_bytes(k as u16));
    assert(page.body.subrange(cell_start + 2, cell_start + 4) =~= here.subrange(2, 4));
    assert(bytes.subrange(2, 4) =~= u16_bytes(v as u16));
    assert(page.body.subrange(cell_start + 4, cell_start + 4 + k) =~= here.subrange(
        4,
        4 + k,
    ));
    assert(bytes.subrange(4, 4 + k) =~= cell.key);
    assert(page.body.subrange(cell_start + 4 + k, cell_start + 4 + k + v) =~= here.subrange(
        4 + k,
        4 + k + v,
    ));
    assert(bytes.subrange(4 + k, 4 + k + v) =~= cell.value);
}

/// A record appended to the first ones lies in the body with them.
proof fn append_leaf_fills(page: PageModel, cells: Seq<LeafCell>, n: int)
    requires
        0 <= n < cells.len(),
        leaf_filled(page, cells, n),
        leaf_space(cells.take(n + 1)) <= LEAF_CAPACITY,
    ensures
        ({
            let (after, result) = page.append_leaf_entry(cells[n]);
            &&& result == Ok::<(), ShuError>(())
            &&& leaf_filled(after, cells, n + 1)
            &&& after == page.with_body(after.body)
        }),
{
    reveal(PageModel::append_leaf_entry);
    let cell = cells[n];
    let header = LeafPageHeader::from_bytes(
        page.order,
        page.body.subrange(0, LEAF_HEADER_SIZE as int),
    );
    assert(cells.take(n + 1).drop_last() =~= cells.take(n));
    leaf_space_monotonic(cells, 0, n);
    assert(cells.take(0) =~= Seq::<LeafCell>::empty());
    let old_start = BODY_SIZE + 2 * n - leaf_space(cells.take(n));
    let pointer = leaf_pointer(n);
    let cell_size = 4 + cell.key.len() + cell.value.len();
    let cell_start = old_start - cell_size;
    assert(pointer + 2 <= cell_start);
    assert(page.read_leaf_header() == Ok::<LeafPageHeader, ShuError>(header));
    let pointed = splice(page.body, pointer, u16_bytes(cell_start as u16));
    let filled = splice(pointed, cell_start, leaf_cell_bytes(cell));
    let counted = LeafPageHeader {
        record_count: (header.record_count + 1) as u16,
        record_content_start: cell_start as u16,
        ..header
    };
    let body = splice(filled, 0, counted.to_bytes(page.order));
    let after = page.append_leaf_entry(cell).0;
    assert(after.body == body);
    counted.round_trip(page.order);
    splice_here(filled, 0, counted.to_bytes(page.order));
    u16_round_trip(cell_start as u16, body);
    u16_round_trip(cell.key.len() as u16, body);
    u16_round_trip(cell.value.len() as u16, body);
    // The new record.
    splice_here(page.body, pointer, u16_bytes(cell_start as u16));
    splice_apart(pointed, cell_start, leaf_cell_bytes(cell), pointer, pointer + 2);
    splice_apart(filled, 0, counted.to_bytes(page.order), pointer, pointer + 2);
    splice_here(pointed, cell_start, leaf_cell_bytes(cell));
    splice_apart(filled, 0, counted.to_bytes(page.order), cell_start, cell_start + cell_size);
    assert(leaf_cell_lies_at(body, cell_start, pointer, cell));
    assert(le_u16(body.subrange(pointer, pointer + 2)) == leaf_start(cells, n));
    // The records before it.
    assert forall|i: int| 0 <= i < n + 1 implies le_u16(
        body.subrange(leaf_pointer(i), leaf_pointer(i) + 2),
    ) == #[trigger] leaf_start(cells, i) by {
        if i < n {
            let p = leaf_pointer(i);
            splice_apart(page.body, pointer, u16_bytes(cell_start as u16), p, p + 2);
            splice_apart(pointed, cell_start, leaf_cell_bytes(cell), p, p + 2);
            splice_apart(filled, 0, counted.to_bytes(page.order), p, p + 2);
        }
    }
    assert forall|i: int| 0 <= i < n + 1 implies #[trigger] leaf_cell_lies_at(
        body,
        cell_start,
        leaf_pointer(i),
        cells[i],
    ) by {
        if i < n {
            let p = leaf_pointer(i);
            assert(leaf_cell_lies_at(page.body, old_start, p, cells[i]));
            let start = le_u16(page.body.subrange(p, p + 2)) as int;
            let end = start + 4 + cells[i].key.len() + cells[i].value.len();
            splice_apart(page.body, pointer, u16_bytes(cell_start as u16), p, p + 2);
            splice_apart(pointed, cell_start, leaf_cell_bytes(cell), p, p + 2);
            splice_apart(filled, 0, counted.to_bytes(page.order), p, p + 2);
            splice_apart(page.body, pointer, u16_bytes(cell_start as u16), start, end);
            splice_apart(pointed, cell_start, leaf_cell_bytes(cell), start, end);
            splice_apart(filled, 0, counted.to_bytes(page.order), start, end);
        }
    }
}

/// Records that fit are all appended to an empty page.
proof fn append_all_leaf_fills(page: PageModel, cells: Seq<LeafCell>, n: int)
    requires
        0 <= n <= cells.len(),
        leaf_filled(page, cells, 0),
        leaf_space(cells) <= LEAF_CAPACITY,
    ensures
        ({
            let (after, result) = page.append_leaf_entries(cells, n as nat);
            &&& result == Ok::<(), ShuError>(())
            &&& leaf_filled(after, cells, n)
            &&& after == page.with_body(after.body)
        }),
    decreases n,
{
    if n > 0 {
        append_all_leaf_fills(page, cells, n - 1);
        leaf_space_monotonic(cells, n, cells.len() as int);
        assert(cells.take(cells.len() as int) =~= cells);
        append_leaf_fills(page.append_leaf_entries(cells, (n - 1) as nat).0, cells, n - 1);
    }
}

/// The records that a body holds are read from it.
proof fn leaf_filled_is_read(page: PageModel, cells: Seq<LeafCell>, n: int)
    requires
        0 <= n <= cells.len(),
        leaf_filled(page, cells, cells.len() as int),
        leaf_space(cells) <= LEAF_CAPACITY,
    ensures
        page.read_leaf_header() matches Ok(header) && header.record_count == cells.len()
            && header.record_content_start == BODY_SIZE + 2 * cells.len() - leaf_space(cells),
        page.first_leaf_entries(n as nat) == Ok::<Seq<LeafCell>, ShuError>(cells.take(n)),
        forall|i: int|
            0 <= i < n ==> #[trigger] page.leaf_entry(i as u16) == Ok::<LeafCell, ShuError>(
                cells[i],
            ),
    decreases n,
{
    assert(cells.take(cells.len() as int) =~= cells);
    leaf_space_monotonic(cells, 0, cells.len() as int);
    assert(cells.take(0) =~= Seq::<LeafCell>::empty());
    if n > 0 {
        leaf_filled_is_read(page, cells, n - 1);
        let content_start = BODY_SIZE + 2 * cells.len() - leaf_space(cells);
        let p = leaf_pointer(n - 1);
        assert(leaf_cell_lies_at(page.body, content_start, p, cells[n - 1]));
        leaf_cell_is_read(page, content_start, p, cells[n - 1]);
        assert(page.leaf_entry((n - 1) as u16) == Ok::<LeafCell, ShuError>(cells[n - 1]));
        assert(cells.take(n) =~= cells.take(n - 1).push(cells[n - 1]));
    }
}

/// Records that are written to a leaf page lie one before the other, from the end of its body on,
/// each where its pointer says. The header counts them, says where they begin, and names no
/// sibling.
pub proof fn rewritten_leaf_lies_in_row(page: PageModel, cells: Seq<LeafCell>)
    requires
        page.body.len() == BODY_SIZE,
        page.page_type() == Ok::<PageType, ShuError>(PageType::Leaf),
        keys_ascend(cells),
        leaf_space(cells) <= LEAF_CAPACITY,
    ensures
        ({
            let body = page.rewrite_leaf_entries(cells).0.body;
            let header = LeafPageHeader::from_bytes(page.order, body.subrange(0, 12));
            &&& header.record_count == cells.len()
            &&& header.record_content_start == 4080 + 2 * cells.len() - leaf_space(cells)
            &&& header.right_sibling == PageId(0)
            &&& header.left_sibling == PageId(0)
            &&& forall|i: int|
                0 <= i < cells.len() ==> ({
                    let start = #[trigger] leaf_start(cells, i);
                    &&& body[12 + 2 * i] + 256 * body[13 + 2 * i] == start
                    &&& body.subrange(start, start + 4 + cells[i].key.len() + cells[i].value.len())
                        == leaf_cell_bytes(cells[i])
                })
        }),
{
    let after = rewritten_leaf_is_filled(page, cells);
    let n = cells.len() as int;
    assert(cells.take(n) =~= cells);
    let content_start = BODY_SIZE + 2 * n - leaf_space(cells);
    assert forall|i: int| 0 <= i < n implies ({
        let start = #[trigger] leaf_start(cells, i);
        &&& after.body[12 + 2 * i] + 256 * after.body[13 + 2 * i] == start
        &&& after.body.subrange(start, start + 4 + cells[i].key.len() + cells[i].value.len())
            == leaf_cell_bytes(cells[i])
    }) by {
        let p = leaf_pointer(i);
        assert(leaf_cell_lies_at(after.body, content_start, p, cells[i]));
        leaf_space_monotonic(cells, 0, n);
        assert(cells.take(0) =~= Seq::<LeafCell>::empty());
        let b = after.body.subrange(p, p + 2);
        assert(le_u16(b) as int == b[0] + 256 * b[1]);
    }
}

/// Records in order that fit a leaf page fill it.
proof fn rewritten_leaf_is_filled(page: PageModel, cells: Seq<LeafCell>) -> (after: PageModel)
    requires
        page.body.len() == BODY_SIZE,
        page.page_type() == Ok::<PageType, ShuError>(PageType::Leaf),
        keys_ascend(cells),
        leaf_space(cells) <= LEAF_CAPACITY,
    ensures
        page.rewrite_leaf_entries(cells) == (after, Ok::<(), ShuError>(())),
        leaf_filled(after, cells, cells.len() as int),
        after == (PageModel {
            order: page.order,
            header: page.header,
            body: after.body,
            overflow: Overflow::Empty,
        }),
{
    let empty = PageModel { overflow: Overflow::Empty, ..page };
    let start = empty.init_leaf_page().0;
    let header = LeafPageHeader {
        record_count: 0,
        record_content_start: BODY_SIZE as u16,
        right_sibling: PageId(0),
        left_sibling: PageId(0),
    };
    header.round_trip(page.order);
    splice_here(page.body, 0, header.to_bytes(page.order));
    assert(cells.take(0) =~= Seq::<LeafCell>::empty());
    assert(leaf_filled(start, cells, 0));
    append_all_leaf_fills(start, cells, cells.len() as int);
    page.rewrite_leaf_entries(cells).0
}

/// Records in order that fit a leaf page are written to it, and are what is read from it
/// afterwards, one by one and all together. Nothing else of the page changes.
pub proof fn rewritten_leaf_reads_back(page: PageModel, cells: Seq<LeafCell>)
    requires
        page.body.len() == BODY_SIZE,
        page.page_type() == Ok::<PageType, ShuError>(PageType::Leaf),
        keys_ascend(cells),
        leaf_space(cells) <= LEAF_CAPACITY,
    ensures
        ({
            let (after, result) = page.rewrite_leaf_entries(cells);
            &&& result == Ok::<(), ShuError>(())
            &&& after == (PageModel {
                order: page.order,
                header: page.header,
                body: after.body,
                overflow: Overflow::Empty,
            })
            &&& after.body.len() == BODY_SIZE
            &&& after.leaf_entries() == Ok::<Seq<LeafCell>, ShuError>(cells)
            &&& forall|i: int|
                0 <= i < cells.len() ==> #[trigger] after.leaf_entry(i as u16) == Ok::<
                    LeafCell,
                    ShuError,
                >(cells[i])
            &&& after.read_leaf_header() matches Ok(header) && header.record_count == cells.len()
            &&& after.is_underflow() == Ok::<bool, ShuError>(
                LEAF_CAPACITY - leaf_space(cells) > LEAF_CAPACITY / 2,
            )
        }),
{
    let after = rewritten_leaf_is_filled(page, cells);
    leaf_filled_is_read(after, cells, cells.len() as int);
    assert(cells.take(cells.len() as int) =~= cells);
}

/// The cell at an offset of the body lies behind `content_start` and is this one.
pub open spec fn internal_cell_lies_at(
    order: ByteOrder,
    body: Seq<u8>,
    content_start: int,
    pointer: int,
    cell: InternalCell,
) -> bool {
    let cell_start = le_u16(body.subrange(pointer, pointer + 2)) as int;
    let cell_end = cell_start + 6 + cell.separator.len();
    &&& content_start <= cell_start
    &&& cell_end <= BODY_SIZE
    &&& body.subrange(cell_start, cell_end) == internal_cell_bytes(order, cell)
}

/// The body of an internal page holds the first `n` records, packed against its end.
pub open spec fn internal_filled(
    page: PageModel,
    cells: Seq<InternalCell>,
    n: int,
    right_child: PageId,
) -> bool {
    let content_start = BODY_SIZE + 2 * n - internal_space(cells.take(n));
    &&& page.body.len() == BODY_SIZE
    &&& page.page_type() == Ok::<PageType, ShuError>(PageType::Internal)
    &&& ({
        let header = InternalPageHeader::from_bytes(
            page.order,
            page.body.subrange(0, INTERNAL_HEADER_SIZE as int),
        );
        &&& header.record_count == n
        &&& header.record_content_start == content_start
        &&& header.right_child == right_child
    })
    &&& forall|i: int|
        0 <= i < n ==> #[trigger] internal_cell_lies_at(
            page.order,
            page.body,
            content_start,
            internal_pointer(i),
            cells[i],
        )
}

/// A cell that lies in the body is read as what it is.
proof fn internal_cell_is_read(
    page: PageModel,
    content_start: int,
    pointer: int,
    cell: InternalCell,
)
    requires
        page.body.len() == BODY_SIZE,
        0 <= pointer,
        pointer + 2 <= BODY_SIZE,
        0 <= content_start,
        internal_cell_lies_at(page.order, page.body, content_start, pointer, cell),
    ensures
        page.internal_cell_at(le_u16(page.body.subrange(pointer, pointer + 2))) == Ok::<
            InternalCell,
            ShuError,
        >(cell),
{
    let cell_start = le_u16(page.body.subrange(pointer, pointer + 2)) as int;
    let k = cell.separator.len() as int;
    let bytes = internal_cell_bytes(page.order, cell);
    let here = page.body.subrange(cell_start, cell_start + 6 + k);
    u32_round_trip_in(page.order, cell.child.0, bytes);
    u16_round_trip(k as u16, bytes);
    assert(page.body.subrange(cell_start, cell_start + 4) =~= here.subrange(0, 4));
    assert(bytes.subrange(0, 4) =~= u32_bytes_in(page.order, cell.child.0));
    assert(page.body.subrange(cell_start + 4, cell_start + 6) =~= here.subrange(4, 6));
    assert(bytes.subrange(4, 6) =~= u16_bytes(k as u16));
    assert(page.body.subrange(cell_start + 6, cell_start + 6 + k) =~= here.subrange(6, 6 + k));
    assert(bytes.subrange(6, 6 + k) =~= cell.separator);
}

/// A record appended to the first ones lies in the body with them.
proof fn append_internal_fills(
    page: PageModel,
    cells: Seq<InternalCell>,
    n: int,
    right_child: PageId,
)
    requires
        0 <= n < cells.len(),
        internal_filled(page, cells, n, right_child),
        internal_space(cells.take(n + 1)) <= INTERNAL_CAPACITY,
    ensures
        ({
            let (after, result) = page.append_internal_entry(cells[n]);
            &&& result == Ok::<(), ShuError>(())
            &&& internal_filled(after, cells, n + 1, right_child)
            &&& after == page.with_body(after.body)
        }),
{
    reveal(PageModel::append_internal_entry);
    let cell = cells[n];
    let header = InternalPageHeader::from_bytes(
        page.order,
        page.body.subrange(0, INTERNAL_HEADER_SIZE as int),
    );
    assert(cells.take(n + 1).drop_last() =~= cells.take(n));
    internal_space_monotonic(cells, 0, n);
    assert(cells.take(0) =~= Seq::<InternalCell>::empty());
    let old_start = BODY_SIZE + 2 * n - internal_space(cells.take(n));
    let pointer = internal_pointer(n);
    let cell_size = 6 + cell.separator.len();
    let cell_start = old_start - cell_size;
    assert(pointer + 2 <= cell_start);
    assert(page.read_internal_header() == Ok::<InternalPageHeader, ShuError>(header));
    let pointed = splice(page.body, pointer, u16_bytes(cell_start as u16));
    let filled = splice(pointed, cell_start, internal_cell_bytes(page.order, cell));
    let counted = InternalPageHeader {
        record_count: (header.record_count + 1) as u16,
        record_content_start: cell_start as u16,
        ..header
    };
    let body = splice(filled, 0, counted.to_bytes(page.order));
    let after = page.append_internal_entry(cell).0;
    assert(after.body == body);
    counted.round_trip(page.order);
    splice_here(filled, 0, counted.to_bytes(page.order));
    u16_round_trip(cell_start as u16, body);
    u16_round_trip(cell.separator.len() as u16, body);
    u32_round_trip_in(page.order, cell.child.0, body);
    // The new record.
    splice_here(page.body, pointer, u16_bytes(cell_start as u16));
    splice_apart(pointed, cell_start, internal_cell_bytes(page.order, cell), pointer, pointer + 2);
    splice_apart(filled, 0, counted.to_bytes(page.order), pointer, pointer + 2);
    splice_here(pointed, cell_start, internal_cell_bytes(page.order, cell));
    splice_apart(filled, 0, counted.to_bytes(page.order), cell_start, cell_start + cell_size);
    assert(internal_cell_lies_at(page.order, body, cell_start, pointer, cell));
    // The records before it.
    assert forall|i: int| 0 <= i < n + 1 implies #[trigger] internal_cell_lies_at(
        page.order,
        body,
        cell_start,
        internal_pointer(i),
        cells[i],
    ) by {
        if i < n {
            let p = internal_pointer(i);
            assert(internal_cell_lies_at(page.order, page.body, old_start, p, cells[i]));
            let start = le_u16(page.body.subrange(p, p + 2)) as int;
            let end = start + 6 + cells[i].separator.len();
            splice_apart(page.body, pointer, u16_bytes(cell_start as u16), p, p + 2);
            splice_apart(pointed, cell_start, internal_cell_bytes(page.order, cell), p, p + 2);
            splice_apart(filled, 0, counted.to_bytes(page.order), p, p + 2);
            splice_apart(page.body, pointer, u16_bytes(cell_start as u16), start, end);
            splice_apart(pointed, cell_start, internal_cell_bytes(page.order, cell), start, end);
            splice_apart(filled, 0, counted.to_bytes(page.order), start, end);
        }
    }
}

/// Records that fit are all appended to an empty page.
proof fn append_all_internal_fills(
    page: PageModel,
    cells: Seq<InternalCell>,
    n: int,
    right_child: PageId,
)
    requires
        0 <= n <= cells.len(),
        internal_filled(page, cells, 0, right_child),
        internal_space(cells) <= INTERNAL_CAPACITY,
    ensures
        ({
            let (after, result) = page.append_internal_entries(cells, n as nat);
            &&& result == Ok::<(), ShuError>(())
            &&& internal_filled(after, cells, n, right_child)
            &&& after == page.with_body(after.body)
        }),
    decreases n,
{
    if n > 0 {
        append_all_internal_fills(page, cells, n - 1, right_child);
        internal_space_monotonic(cells, n, cells.len() as int);
        assert(cells.take(cells.len() as int) =~= cells);
        append_internal_fills(
            page.append_internal_entries(cells, (n - 1) as nat).0,
            cells,
            n - 1,
            right_child,
        );
    }
}

/// The records that a body holds are read from it.
proof fn internal_filled_is_read(
    page: PageModel,
    cells: Seq<InternalCell>,
    n: int,
    right_child: PageId,
)
    requires
        0 <= n <= cells.len(),
        internal_filled(page, cells, cells.len() as int, right_child),
        internal_space(cells) <= INTERNAL_CAPACITY,
    ensures
        page.read_internal_header() matches Ok(header) && header.record_count == cells.len()
            && header.record_content_start == BODY_SIZE + 2 * cells.len() - internal_space(cells)
            && header.right_child == right_child,
        page.first_internal_entries(n as nat) == Ok::<Seq<InternalCell>, ShuError>(cells.take(n)),
        forall|i: int|
            0 <= i < n ==> #[trigger] page.internal_entry(i as u16) == Ok::<InternalCell, ShuError>(
                cells[i],
            ),
    decreases n,
{
    assert(cells.take(cells.len() as int) =~= cells);
    internal_space_monotonic(cells, 0, cells.len() as int);
    assert(cells.take(0) =~= Seq::<InternalCell>::empty());
    if n > 0 {
        internal_filled_is_read(page, cells, n - 1, right_child);
        let content_start = BODY_SIZE + 2 * cells.len() - internal_space(cells);
        let p = internal_pointer(n - 1);
        assert(internal_cell_lies_at(page.order, page.body, content_start, p, cells[n - 1]));
        internal_cell_is_read(page, content_start, p, cells[n - 1]);
        assert(page.internal_entry((n - 1) as u16) == Ok::<InternalCell, ShuError>(cells[n - 1]));
        assert(cells.take(n) =~= cells.take(n - 1).push(cells[n - 1]));
    }
}

/// Another right child leaves the records as they are.
proof fn set_right_child_keeps_records(
    page: PageModel,
    cells: Seq<InternalCell>,
    before: PageId,
    child: PageId,
)
    requires
        internal_filled(page, cells, cells.len() as int, before),
        internal_space(cells) <= INTERNAL_CAPACITY,
    ensures
        ({
            let (after, result) = page.set_right_child(child);
            &&& result == Ok::<(), ShuError>(())
            &&& internal_filled(after, cells, cells.len() as int, child)
            &&& after == page.with_body(after.body)
        }),
{
    let n = cells.len() as int;
    internal_filled_is_read(page, cells, n, before);
    internal_space_monotonic(cells, 0, n);
    assert(cells.take(0) =~= Seq::<InternalCell>::empty());
    assert(cells.take(n) =~= cells);
    let header = InternalPageHeader {
        right_child: child,
        ..page.read_internal_header()->Ok_0
    };
    header.round_trip(page.order);
    splice_here(page.body, 0, header.to_bytes(page.order));
    let after = page.set_right_child(child).0;
    let content_start = BODY_SIZE + 2 * n - internal_space(cells);
    assert forall|i: int| 0 <= i < n implies #[trigger] internal_cell_lies_at(
        page.order,
        after.body,
        content_start,
        internal_pointer(i),
        cells[i],
    ) by {
        let p = internal_pointer(i);
        assert(internal_cell_lies_at(page.order, page.body, content_start, p, cells[i]));
        let start = le_u16(page.body.subrange(p, p + 2)) as int;
        let end = start + 6 + cells[i].separator.len();
        splice_apart(page.body, 0, header.to_bytes(page.order), p, p + 2);
        splice_apart(page.body, 0, header.to_bytes(page.order), start, end);
    }
}

/// Contents that fit an internal page are written to it, and are what is read from it
/// afterwards, one by one and all together. Nothing else of the page changes.
pub proof fn rewritten_internal_reads_back(page: PageModel, node: InternalNode)
    requires
        page.body.len() == BODY_SIZE,
        page.page_type() == Ok::<PageType, ShuError>(PageType::Internal),
        internal_space(node.cells) <= INTERNAL_CAPACITY,
    ensures
        ({
            let (after, result) = page.rewrite_internal_entries(node);
            &&& result == Ok::<(), ShuError>(())
            &&& after == (PageModel {
                order: page.order,
                header: page.header,
                body: after.body,
                overflow: Overflow::Empty,
            })
            &&& after.body.len() == BODY_SIZE
            &&& after.internal_entries() == Ok::<InternalNode, ShuError>(node)
            &&& forall|i: int|
                0 <= i < node.cells.len() ==> #[trigger] after.internal_entry(i as u16) == Ok::<
                    InternalCell,
                    ShuError,
                >(node.cells[i])
            &&& after.read_internal_header() matches Ok(header) && header.record_count
                == node.cells.len() && header.right_child == node.right_child
            &&& after.is_underflow() == Ok::<bool, ShuError>(
                INTERNAL_CAPACITY - internal_space(node.cells) > INTERNAL_CAPACITY / 2,
            )
        }),
{
    let cells = node.cells;
    let n = cells.len() as int;
    let empty = PageModel { overflow: Overflow::Empty, ..page };
    let start = empty.init_internal_page().0;
    let header = InternalPageHeader {
        record_count: 0,
        record_content_start: BODY_SIZE as u16,
        right_child: PageId(0),
    };
    header.round_trip(page.order);
    splice_here(page.body, 0, header.to_bytes(page.order));
    assert(cells.take(0) =~= Seq::<InternalCell>::empty());
    assert(internal_filled(start, cells, 0, PageId(0)));
    append_all_internal_fills(start, cells, n, PageId(0));
    let appended = start.append_internal_entries(cells, cells.len()).0;
    set_right_child_keeps_records(appended, cells, PageId(0), node.right_child);
    let after = page.rewrite_internal_entries(node).0;
    internal_filled_is_read(after, cells, n, node.right_child);
    assert(cells.take(n) =~= cells);
}

/// The body of an internal page holds these contents, packed against its end.
pub open spec fn internal_packed(page: PageModel, node: InternalNode) -> bool {
    internal_filled(page, node.cells, node.cells.len() as int, node.right_child)
}

/// The space of records with one more among them.
proof fn internal_space_of_inserted(cells: Seq<InternalCell>, index: int, cell: InternalCell)
    requires
        0 <= index <= cells.len(),
    ensures
        internal_space(cells.insert(index, cell)) == internal_space(cells) + internal_cell_space(
            cell,
        ),
    decreases cells.len(),
{
    let after = cells.insert(index, cell);
    if index == cells.len() {
        assert(after.drop_last() =~= cells);
    } else {
        internal_space_of_inserted(cells.drop_last(), index, cell);
        assert(after.drop_last() =~= cells.drop_last().insert(index, cell));
        assert(after.last() == cells.last());
    }
}

/// A new internal page holds no records.
pub proof fn new_internal_page_is_packed(page: PageModel)
    requires
        page.body.len() == BODY_SIZE,
        page.page_type() == Ok::<PageType, ShuError>(PageType::Internal),
    ensures
        page.init_internal_page().1 == Ok::<(), ShuError>(()),
        internal_packed(
            page.init_internal_page().0,
            (InternalNode { cells: Seq::empty(), right_child: PageId(0) }),
        ),
{
    let header = InternalPageHeader {
        record_count: 0,
        record_content_start: BODY_SIZE as u16,
        right_child: PageId(0),
    };
    header.round_trip(page.order);
    splice_here(page.body, 0, header.to_bytes(page.order));
    assert(Seq::<InternalCell>::empty().take(0) =~= Seq::<InternalCell>::empty());
}

/// Contents that are packed in the body of an internal page are read from it, one by one and
/// all together.
pub proof fn packed_internal_reads_back(page: PageModel, node: InternalNode)
    requires
        internal_packed(page, node),
        internal_space(node.cells) <= INTERNAL_CAPACITY,
    ensures
        !(page.overflow is Internal) ==> page.internal_entries() == Ok::<InternalNode, ShuError>(
            node,
        ),
        forall|i: int|
            0 <= i < node.cells.len() ==> #[trigger] page.internal_entry(i as u16) == Ok::<
                InternalCell,
                ShuError,
            >(node.cells[i]),
{
    let n = node.cells.len() as int;
    internal_filled_is_read(page, node.cells, n, node.right_child);
    assert(node.cells.take(n) =~= node.cells);
}

/// A record that fits is appended behind the others.
pub proof fn appended_internal_is_packed(page: PageModel, node: InternalNode, cell: InternalCell)
    requires
        internal_packed(page, node),
        internal_space(node.cells.push(cell)) <= INTERNAL_CAPACITY,
    ensures
        ({
            let (after, result) = page.append_internal_entry(cell);
            &&& result == Ok::<(), ShuError>(())
            &&& internal_packed(after, InternalNode { cells: node.cells.push(cell), ..node })
            &&& after == page.with_body(after.body)
        }),
{
    let n = node.cells.len() as int;
    let all = node.cells.push(cell);
    assert(all.take(n) =~= node.cells);
    assert(node.cells.take(n) =~= node.cells);
    assert(all.take(n + 1) =~= all);
    assert forall|i: int| 0 <= i < n implies #[trigger] internal_cell_lies_at(
        page.order,
        page.body,
        BODY_SIZE + 2 * n - internal_space(all.take(n)),
        internal_pointer(i),
        all[i],
    ) by {
        assert(internal_cell_lies_at(
            page.order,
            page.body,
            BODY_SIZE + 2 * n - internal_space(node.cells.take(n)),
            internal_pointer(i),
            node.cells[i],
        ));
    }
    append_internal_fills(page, all, n, node.right_child);
}

/// The body of an internal page with `n` records after one is inserted.
spec fn inserted_body(
    order: ByteOrder,
    body: Seq<u8>,
    n: int,
    at: int,
    cell_start: int,
    cell: InternalCell,
    header: InternalPageHeader,
) -> Seq<u8> {
    let moved = body.subrange(internal_pointer(at), internal_pointer(n));
    let shifted = splice(body, internal_pointer(at + 1), moved);
    let pointed = splice(shifted, internal_pointer(at), u16_bytes(cell_start as u16));
    let filled = splice(pointed, cell_start, internal_cell_bytes(order, cell));
    splice(filled, 0, header.to_bytes(order))
}

/// What lies in the body apart from the pointers behind an insertion stays where it is, and
/// those pointers move by one.
proof fn inserted_body_keeps(
    order: ByteOrder,
    body: Seq<u8>,
    n: int,
    at: int,
    cell_start: int,
    cell: InternalCell,
    header: InternalPageHeader,
)
    requires
        body.len() == BODY_SIZE,
        0 <= at <= n,
        internal_pointer(n) + 2 <= cell_start,
        cell_start + 6 + cell.separator.len() <= BODY_SIZE,
        cell_start <= u16::MAX,
    ensures
        ({
            let after = inserted_body(order, body, n, at, cell_start, cell, header);
            let end = cell_start + 6 + cell.separator.len();
            &&& after.len() == BODY_SIZE
            &&& after.subrange(0, INTERNAL_HEADER_SIZE as int) == header.to_bytes(order)
            &&& after.subrange(internal_pointer(at), internal_pointer(at) + 2) == u16_bytes(
                cell_start as u16,
            )
            &&& after.subrange(cell_start, end) == internal_cell_bytes(order, cell)
            &&& forall|i: int|
                0 <= i < at ==> after.subrange(#[trigger] internal_pointer(i), internal_pointer(i)
                    + 2) == body.subrange(internal_pointer(i), internal_pointer(i) + 2)
            &&& forall|i: int|
                at < i <= n ==> after.subrange(#[trigger] internal_pointer(i), internal_pointer(i)
                    + 2) == body.subrange(internal_pointer(i - 1), internal_pointer(i - 1) + 2)
            &&& forall|from: int, to: int|
                end <= from <= to <= BODY_SIZE ==> #[trigger] after.subrange(from, to)
                    == body.subrange(from, to)
        }),
{
    header.round_trip(order);
    u16_round_trip(cell_start as u16, body);
    u16_round_trip(cell.separator.len() as u16, body);
    u32_round_trip_in(order, cell.child.0, body);
    let after = inserted_body(order, body, n, at, cell_start, cell, header);
    let end = cell_start + 6 + cell.separator.len();
    assert(internal_cell_bytes(order, cell).len() == 6 + cell.separator.len());
    assert(after.subrange(0, INTERNAL_HEADER_SIZE as int) =~= header.to_bytes(order));
    assert(after.subrange(internal_pointer(at), internal_pointer(at) + 2) =~= u16_bytes(
        cell_start as u16,
    ));
    assert(after.subrange(cell_start, end) =~= internal_cell_bytes(order, cell));
    assert forall|i: int| 0 <= i < at implies after.subrange(
        #[trigger] internal_pointer(i),
        internal_pointer(i) + 2,
    ) == body.subrange(internal_pointer(i), internal_pointer(i) + 2) by {
        assert(after.subrange(internal_pointer(i), internal_pointer(i) + 2) =~= body.subrange(
            internal_pointer(i),
            internal_pointer(i) + 2,
        ));
    }
    assert forall|i: int| at < i <= n implies after.subrange(
        #[trigger] internal_pointer(i),
        internal_pointer(i) + 2,
    ) == body.subrange(internal_pointer(i - 1), internal_pointer(i - 1) + 2) by {
        assert(after.subrange(internal_pointer(i), internal_pointer(i) + 2) =~= body.subrange(
            internal_pointer(i - 1),
            internal_pointer(i - 1) + 2,
        ));
    }
    assert forall|from: int, to: int| end <= from <= to <= BODY_SIZE implies #[trigger] after.subrange(
        from,
        to,
    ) == body.subrange(from, to) by {
        assert(after.subrange(from, to) =~= body.subrange(from, to));
    }
}

/// A record that fits is inserted before the one at an index, and the others stay in order.
pub proof fn inserted_internal_is_packed(
    page: PageModel,
    node: InternalNode,
    index: u16,
    cell: InternalCell,
)
    requires
        internal_packed(page, node),
        index <= node.cells.len(),
        internal_space(node.cells.insert(index as int, cell)) <= INTERNAL_CAPACITY,
    ensures
        ({
            let (after, result) = page.insert_internal_entry(index, cell);
            &&& result == Ok::<(), ShuError>(())
            &&& internal_packed(
                after,
                InternalNode { cells: node.cells.insert(index as int, cell), ..node },
            )
            &&& after == page.with_body(after.body)
        }),
{
    let cells = node.cells;
    let n = cells.len() as int;
    let at = index as int;
    let new = cells.insert(at, cell);
    internal_space_of_inserted(cells, at, cell);
    internal_space_monotonic(cells, 0, n);
    assert(cells.take(0) =~= Seq::<InternalCell>::empty());
    assert(cells.take(n) =~= cells);
    assert(new.take(n + 1) =~= new);
    let header = InternalPageHeader::from_bytes(
        page.order,
        page.body.subrange(0, INTERNAL_HEADER_SIZE as int),
    );
    assert(page.read_internal_header() == Ok::<InternalPageHeader, ShuError>(header));
    let old_start = BODY_SIZE + 2 * n - internal_space(cells);
    let cell_start = old_start - 6 - cell.separator.len();
    assert(internal_pointer(n) + 2 <= cell_start);
    let counted = InternalPageHeader {
        record_count: (header.record_count + 1) as u16,
        record_content_start: cell_start as u16,
        ..header
    };
    let body = inserted_body(page.order, page.body, n, at, cell_start, cell, counted);
    assert(page.insert_internal_entry(index, cell) == (
        page.with_body(body),
        Ok::<(), ShuError>(()),
    ));
    inserted_body_keeps(page.order, page.body, n, at, cell_start, cell, counted);
    counted.round_trip(page.order);
    u16_round_trip(cell_start as u16, body);
    assert forall|i: int| 0 <= i < n + 1 implies #[trigger] internal_cell_lies_at(
        page.order,
        body,
        cell_start,
        internal_pointer(i),
        new[i],
    ) by {
        if i != at {
            let j = if i < at {
                i
            } else {
                i - 1
            };
            let q = internal_pointer(j);
            assert(new[i] == cells[j]);
            assert(internal_cell_lies_at(page.order, page.body, old_start, q, cells[j]));
            let start = le_u16(page.body.subrange(q, q + 2)) as int;
            let end = start + 6 + cells[j].separator.len();
            assert(body.subrange(start, end) == page.body.subrange(start, end));
        }
    }
}

/// Another right child leaves the records as they are.
pub proof fn right_child_is_packed(page: PageModel, node: InternalNode, child: PageId)
    requires
        internal_packed(page, node),
        internal_space(node.cells) <= INTERNAL_CAPACITY,
    ensures
        ({
            let (after, result) = page.set_right_child(child);
            &&& result == Ok::<(), ShuError>(())
            &&& internal_packed(after, InternalNode { right_child: child, ..node })
            &&& after == page.with_body(after.body)
        }),
{
    set_right_child_keeps_records(page, node.cells, node.right_child, child);
}

/// Where the cell of a record of an internal page begins if the cells lie one before the other,
/// from the end of the body on.
pub open spec fn internal_start(cells: Seq<InternalCell>, i: int) -> int {
    BODY_SIZE + 2 * (i + 1) - internal_space(cells.take(i + 1))
}

/// The pointers of the first `n` records say that their cells lie one before the other.
spec fn internal_in_row(page: PageModel, cells: Seq<InternalCell>, n: int) -> bool {
    forall|i: int|
        0 <= i < n ==> le_u16(page.body.subrange(internal_pointer(i), internal_pointer(i) + 2))
            == #[trigger] internal_start(cells, i)
}

/// A record that is appended lies before those that are there.
proof fn append_internal_in_row(
    page: PageModel,
    cells: Seq<InternalCell>,
    n: int,
    right_child: PageId,
)
    requires
        0 <= n < cells.len(),
        internal_filled(page, cells, n, right_child),
        internal_in_row(page, cells, n),
        internal_space(cells.take(n + 1)) <= INTERNAL_CAPACITY,
    ensures
        internal_in_row(page.append_internal_entry(cells[n]).0, cells, n + 1),
{
    reveal(PageModel::append_internal_entry);
    append_internal_fills(page, cells, n, right_child);
    let cell = cells[n];
    let header = InternalPageHeader::from_bytes(
        page.order,
        page.body.subrange(0, INTERNAL_HEADER_SIZE as int),
    );
    assert(cells.take(n + 1).drop_last() =~= cells.take(n));
    internal_space_monotonic(cells, 0, n);
    assert(cells.take(0) =~= Seq::<InternalCell>::empty());
    let pointer = internal_pointer(n);
    let cell_start = internal_start(cells, n);
    assert(page.read_internal_header() == Ok::<InternalPageHeader, ShuError>(header));
    let pointed = splice(page.body, pointer, u16_bytes(cell_start as u16));
    let filled = splice(pointed, cell_start, internal_cell_bytes(page.order, cell));
    let counted = InternalPageHeader {
        record_count: (header.record_count + 1) as u16,
        record_content_start: cell_start as u16,
        ..header
    };
    let body = splice(filled, 0, counted.to_bytes(page.order));
    let after = page.append_internal_entry(cell).0;
    assert(after.body == body);
    counted.round_trip(page.order);
    u16_round_trip(cell_start as u16, body);
    assert forall|i: int| 0 <= i < n + 1 implies le_u16(
        after.body.subrange(internal_pointer(i), internal_pointer(i) + 2),
    ) == #[trigger] internal_start(cells, i) by {
        let p = internal_pointer(i);
        splice_apart(pointed, cell_start, internal_cell_bytes(page.order, cell), p, p + 2);
        splice_apart(filled, 0, counted.to_bytes(page.order), p, p + 2);
        if i < n {
            splice_apart(page.body, pointer, u16_bytes(cell_start as u16), p, p + 2);
        } else {
            splice_here(page.body, pointer, u16_bytes(cell_start as u16));
        }
    }
}

proof fn append_all_internal_in_row(
    page: PageModel,
    cells: Seq<InternalCell>,
    n: int,
    right_child: PageId,
)
    requires
        0 <= n <= cells.len(),
        internal_filled(page, cells, 0, right_child),
        internal_space(cells) <= INTERNAL_CAPACITY,
    ensures
        internal_in_row(page.append_internal_entries(cells, n as nat).0, cells, n),
    decreases n,
{
    if n > 0 {
        append_all_internal_in_row(page, cells, n - 1, right_child);
        append_all_internal_fills(page, cells, n - 1, right_child);
        internal_space_monotonic(cells, n, cells.len() as int);
        assert(cells.take(cells.len() as int) =~= cells);
        append_internal_in_row(
            page.append_internal_entries(cells, (n - 1) as nat).0,
            cells,
            n - 1,
            right_child,
        );
    }
}

/// Records that are written to an internal page lie one before the other, from the end of its
/// body on, each where its pointer says. The header counts them and says where they begin.
pub proof fn rewritten_internal_lies_in_row(page: PageModel, node: InternalNode)
    requires
        page.body.len() == BODY_SIZE,
        page.page_type() == Ok::<PageType, ShuError>(PageType::Internal),
        internal_space(node.cells) <= INTERNAL_CAPACITY,
    ensures
        ({
            let cells = node.cells;
            let body = page.rewrite_internal_entries(node).0.body;
            let header = InternalPageHeader::from_bytes(page.order, body.subrange(0, 8));
            &&& header.record_count == cells.len()
            &&& header.record_content_start == 4080 + 2 * cells.len() - internal_space(cells)
            &&& header.right_child == node.right_child
            &&& forall|i: int|
                0 <= i < cells.len() ==> ({
                    let start = #[trigger] internal_start(cells, i);
                    &&& body[8 + 2 * i] + 256 * body[9 + 2 * i] == start
                    &&& body.subrange(start, start + 6 + cells[i].separator.len())
                        == internal_cell_bytes(page.order, cells[i])
                })
        }),
{
    let cells = node.cells;
    let n = cells.len() as int;
    let empty = PageModel { overflow: Overflow::Empty, ..page };
    let first = empty.init_internal_page().0;
    let header = InternalPageHeader {
        record_count: 0,
        record_content_start: BODY_SIZE as u16,
        right_child: PageId(0),
    };
    header.round_trip(page.order);
    splice_here(page.body, 0, header.to_bytes(page.order));
    assert(cells.take(0) =~= Seq::<InternalCell>::empty());
    assert(cells.take(n) =~= cells);
    assert(internal_filled(first, cells, 0, PageId(0)));
    append_all_internal_fills(first, cells, n, PageId(0));
    append_all_internal_in_row(first, cells, n, PageId(0));
    let appended = first.append_internal_entries(cells, cells.len()).0;
    set_right_child_keeps_records(appended, cells, PageId(0), node.right_child);
    internal_filled_is_read(appended, cells, n, PageId(0));
    let after = page.rewrite_internal_entries(node).0;
    assert(after == appended.set_right_child(node.right_child).0);
    let changed = InternalPageHeader {
        right_child: node.right_child,
        ..appended.read_internal_header()->Ok_0
    };
    changed.round_trip(page.order);
    internal_space_monotonic(cells, 0, n);
    let content_start = BODY_SIZE + 2 * n - internal_space(cells);
    assert forall|i: int| 0 <= i < n implies ({
        let start = #[trigger] internal_start(cells, i);
        &&& after.body[8 + 2 * i] + 256 * after.body[9 + 2 * i] == start
        &&& after.body.subrange(start, start + 6 + cells[i].separator.len())
            == internal_cell_bytes(page.order, cells[i])
    }) by {
        let p = internal_pointer(i);
        assert(internal_cell_lies_at(page.order, after.body, content_start, p, cells[i]));
        splice_apart(appended.body, 0, changed.to_bytes(page.order), p, p + 2);
        let b = after.body.subrange(p, p + 2);
        assert(b == appended.body.subrange(p, p + 2));
        assert(le_u16(b) as int == b[0] + 256 * b[1]);
    }
}

} // verus!
