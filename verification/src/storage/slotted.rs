//! Slotted pages as functions of their bytes: headers, cells, and what each operation
//! on a page makes of it.
use crate::error::ShuError;
use crate::storage::codec::{read_u16_in, read_u32_in, u16_bytes, u16_bytes_in, u16_in};
use crate::storage::codec::{u16_round_trip_in, u32_bytes_in, u32_in, u32_round_trip_in};
use crate::storage::codec::{write_u16_in, write_u32_in, ByteOrder, Record};
use crate::storage::model::{InternalCell, InternalNode, LeafCell};
use crate::storage::order::{lex_le, lex_lt};
use crate::storage::page::{splice, Overflow, PageId, PageModel, PageType, BODY_SIZE, HEADER_SIZE};
use crate::storage::page::PAGE_SIZE;
use vstd::prelude::*;

verus! {

/// The bytes of a cell pointer.
pub const CELL_POINTER_SIZE: usize = 2;

/// The bytes of a leaf cell before its key: the lengths of key and value.
pub const LEAF_CELL_HEADER_SIZE: usize = 4;

/// The bytes of an internal cell before its key: the child and the key's length.
pub const INTERNAL_CELL_HEADER_SIZE: usize = 6;

/// The bytes of a leaf page's own header, at the start of the body.
pub const LEAF_HEADER_SIZE: usize = 12;

/// The bytes of an internal page's own header, at the start of the body.
pub const INTERNAL_HEADER_SIZE: usize = 8;

/// A leaf page's own header.
#[derive(Clone, Copy, Debug)]
pub struct LeafPageHeader {
    pub record_count: u16,
    pub record_content_start: u16,
    pub right_sibling: PageId,
    pub left_sibling: PageId,
}

impl Record for LeafPageHeader {
    open spec fn spec_len() -> nat {
        LEAF_HEADER_SIZE as nat
    }

    open spec fn to_bytes(&self, order: ByteOrder) -> Seq<u8> {
        u16_bytes_in(order, self.record_count) + u16_bytes_in(order, self.record_content_start)
            + u32_bytes_in(order, self.right_sibling.0) + u32_bytes_in(order, self.left_sibling.0)
    }

    open spec fn from_bytes(order: ByteOrder, b: Seq<u8>) -> Self {
        LeafPageHeader {
            record_count: u16_in(order, b.subrange(0, 2)),
            record_content_start: u16_in(order, b.subrange(2, 4)),
            right_sibling: PageId(u32_in(order, b.subrange(4, 8))),
            left_sibling: PageId(u32_in(order, b.subrange(8, 12))),
        }
    }

    proof fn round_trip(&self, order: ByteOrder) {
        let b = self.to_bytes(order);
        u16_round_trip_in(order, self.record_count, b);
        u16_round_trip_in(order, self.record_content_start, b);
        u32_round_trip_in(order, self.right_sibling.0, b);
        u32_round_trip_in(order, self.left_sibling.0, b);
        assert(b.subrange(0, 2) =~= u16_bytes_in(order, self.record_count));
        assert(b.subrange(2, 4) =~= u16_bytes_in(order, self.record_content_start));
        assert(b.subrange(4, 8) =~= u32_bytes_in(order, self.right_sibling.0));
        assert(b.subrange(8, 12) =~= u32_bytes_in(order, self.left_sibling.0));
    }

    fn record_len() -> (n: usize) {
        LEAF_HEADER_SIZE
    }

    fn encode(&self, order: ByteOrder) -> (b: Vec<u8>) {
        let mut b: Vec<u8> = Vec::new();
        b.extend_from_slice(&write_u16_in(order, self.record_count));
        b.extend_from_slice(&write_u16_in(order, self.record_content_start));
        let mut right = write_u32_in(order, self.right_sibling.0);
        b.append(&mut right);
        let mut left = write_u32_in(order, self.left_sibling.0);
        b.append(&mut left);
        assert(b@ =~= self.to_bytes(order));
        b
    }

    fn decode(order: ByteOrder, b: &[u8]) -> (r: Self) {
        LeafPageHeader {
            record_count: read_u16_in(order, b, 0),
            record_content_start: read_u16_in(order, b, 2),
            right_sibling: PageId(read_u32_in(order, b, 4)),
            left_sibling: PageId(read_u32_in(order, b, 8)),
        }
    }
}

/// An internal page's own header.
#[derive(Clone, Copy, Debug)]
pub struct InternalPageHeader {
    pub record_count: u16,
    pub record_content_start: u16,
    pub right_child: PageId,
}

impl Record for InternalPageHeader {
    open spec fn spec_len() -> nat {
        INTERNAL_HEADER_SIZE as nat
    }

    open spec fn to_bytes(&self, order: ByteOrder) -> Seq<u8> {
        u16_bytes_in(order, self.record_count) + u16_bytes_in(order, self.record_content_start)
            + u32_bytes_in(order, self.right_child.0)
    }

    open spec fn from_bytes(order: ByteOrder, b: Seq<u8>) -> Self {
        InternalPageHeader {
            record_count: u16_in(order, b.subrange(0, 2)),
            record_content_start: u16_in(order, b.subrange(2, 4)),
            right_child: PageId(u32_in(order, b.subrange(4, 8))),
        }
    }

    proof fn round_trip(&self, order: ByteOrder) {
        let b = self.to_bytes(order);
        u16_round_trip_in(order, self.record_count, b);
        u16_round_trip_in(order, self.record_content_start, b);
        u32_round_trip_in(order, self.right_child.0, b);
        assert(b.subrange(0, 2) =~= u16_bytes_in(order, self.record_count));
        assert(b.subrange(2, 4) =~= u16_bytes_in(order, self.record_content_start));
        assert(b.subrange(4, 8) =~= u32_bytes_in(order, self.right_child.0));
    }

    fn record_len() -> (n: usize) {
        INTERNAL_HEADER_SIZE
    }

    fn encode(&self, order: ByteOrder) -> (b: Vec<u8>) {
        let mut b: Vec<u8> = Vec::new();
        b.extend_from_slice(&write_u16_in(order, self.record_count));
        b.extend_from_slice(&write_u16_in(order, self.record_content_start));
        let mut right = write_u32_in(order, self.right_child.0);
        b.append(&mut right);
        assert(b@ =~= self.to_bytes(order));
        b
    }

    fn decode(order: ByteOrder, b: &[u8]) -> (r: Self) {
        InternalPageHeader {
            record_count: read_u16_in(order, b, 0),
            record_content_start: read_u16_in(order, b, 2),
            right_child: PageId(read_u32_in(order, b, 4)),
        }
    }
}

/// A size as a machine integer, or the greatest one if it does not fit.
pub open spec fn clamp(n: nat) -> usize {
    if n > usize::MAX {
        usize::MAX
    } else {
        n as usize
    }
}

/// The bytes that a record takes in a leaf page: pointer, lengths, key and value.
pub open spec fn leaf_cell_space(cell: LeafCell) -> nat {
    CELL_POINTER_SIZE as nat + LEAF_CELL_HEADER_SIZE as nat + cell.key.len() + cell.value.len()
}

/// The bytes that records take in a leaf page.
pub open spec fn leaf_space(cells: Seq<LeafCell>) -> nat
    decreases cells.len(),
{
    if cells.len() == 0 {
        0
    } else {
        leaf_space(cells.drop_last()) + leaf_cell_space(cells.last())
    }
}

/// The bytes that a record takes in an internal page: pointer, child, length and key.
pub open spec fn internal_cell_space(cell: InternalCell) -> nat {
    CELL_POINTER_SIZE as nat + INTERNAL_CELL_HEADER_SIZE as nat + cell.separator.len()
}

/// The bytes that records take in an internal page.
pub open spec fn internal_space(cells: Seq<InternalCell>) -> nat
    decreases cells.len(),
{
    if cells.len() == 0 {
        0
    } else {
        internal_space(cells.drop_last()) + internal_cell_space(cells.last())
    }
}

/// The bytes for records in a leaf page.
pub const LEAF_CAPACITY: usize = PAGE_SIZE - HEADER_SIZE - LEAF_HEADER_SIZE;

/// The bytes for records in an internal page.
pub const INTERNAL_CAPACITY: usize = PAGE_SIZE - HEADER_SIZE - INTERNAL_HEADER_SIZE;

/// Where a key is in a list of records, or where it would be inserted.
pub enum KeyPosition {
    Found(nat),
    Missing(nat),
}

/// The outcome of a binary search for a key between two positions.
pub open spec fn search_cells(cells: Seq<LeafCell>, key: Seq<u8>, low: nat, high: nat) -> KeyPosition
    decreases high - low,
{
    if low < high {
        let mid = (low + high) / 2;
        if cells[mid as int].key == key {
            KeyPosition::Found(mid)
        } else if lex_lt(key, cells[mid as int].key) {
            search_cells(cells, key, low, mid)
        } else {
            search_cells(cells, key, mid + 1, high)
        }
    } else {
        KeyPosition::Missing(low)
    }
}

/// The records after a key is given a value: the record that a search finds is
/// changed, or a new one is inserted where the search ends.
pub open spec fn upsert(cells: Seq<LeafCell>, key: Seq<u8>, value: Seq<u8>) -> Seq<LeafCell> {
    match search_cells(cells, key, 0, cells.len()) {
        KeyPosition::Found(i) => cells.update(i as int, LeafCell { key: cells[i as int].key, value }),
        KeyPosition::Missing(i) => cells.insert(i as int, LeafCell { key, value }),
    }
}

/// No record comes after one with a smaller key.
pub open spec fn keys_ascend(cells: Seq<LeafCell>) -> bool {
    forall|i: int, j: int|
        0 <= i < j < cells.len() ==> lex_le(#[trigger] cells[i].key, #[trigger] cells[j].key)
}

/// The offset of a leaf page's cell pointer.
pub open spec fn leaf_pointer(index: int) -> int {
    LEAF_HEADER_SIZE + CELL_POINTER_SIZE * index
}

/// The offset of an internal page's cell pointer.
pub open spec fn internal_pointer(index: int) -> int {
    INTERNAL_HEADER_SIZE + CELL_POINTER_SIZE * index
}

/// The bytes of a leaf cell.
pub open spec fn leaf_cell_bytes(cell: LeafCell) -> Seq<u8> {
    u16_bytes(cell.key.len() as u16) + u16_bytes(cell.value.len() as u16) + cell.key + cell.value
}

/// The bytes of an internal cell.
pub open spec fn internal_cell_bytes(order: ByteOrder, cell: InternalCell) -> Seq<u8> {
    u32_bytes_in(order, cell.child.0) + u16_bytes(cell.separator.len() as u16) + cell.separator
}

/// The outcome of looking for a key in a leaf page.
#[derive(Clone, Copy, Debug, PartialEq, Eq, Structural)]
pub enum LeafSearchResult {
    /// The key is the one of this record.
    Found(u16),
    /// The key is missing and would be inserted before this record.
    Missing(u16),
}

impl PageModel {
    /// The error of a page whose contents contradict themselves.
    pub open spec fn corrupted(self) -> ShuError {
        ShuError::CorruptedPage { page_id: self.id() }
    }

    /// The header of a leaf page. It is in order if the page is a leaf page and the
    /// cell pointers end before the cells begin.
    pub open spec fn read_leaf_header(self) -> Result<LeafPageHeader, ShuError> {
        let header = LeafPageHeader::from_bytes(
            self.order,
            self.body.subrange(0, LEAF_HEADER_SIZE as int),
        );
        if self.page_type() != Ok::<PageType, ShuError>(PageType::Leaf) {
            Err(ShuError::InvalidPageType)
        } else if leaf_pointer(header.record_count as int) <= header.record_content_start
            <= BODY_SIZE {
            Ok(header)
        } else {
            Err(self.corrupted())
        }
    }

    /// The header of an internal page. It is in order if the page is an internal page
    /// and the cell pointers end before the cells begin.
    pub open spec fn read_internal_header(self) -> Result<InternalPageHeader, ShuError> {
        let header = InternalPageHeader::from_bytes(
            self.order,
            self.body.subrange(0, INTERNAL_HEADER_SIZE as int),
        );
        if self.page_type() != Ok::<PageType, ShuError>(PageType::Internal) {
            Err(ShuError::InvalidPageType)
        } else if internal_header_in_order(header) {
            Ok(header)
        } else {
            Err(self.corrupted())
        }
    }

    /// The page after a header is written, and whether it was: only one in order is.
    pub open spec fn write_internal_header(self, header: InternalPageHeader) -> (
        PageModel,
        Result<(), ShuError>,
    ) {
        if self.page_type() != Ok::<PageType, ShuError>(PageType::Internal) {
            (self, Err(ShuError::InvalidPageType))
        } else if internal_header_in_order(header) {
            (self.with_body(splice(self.body, 0, header.to_bytes(self.order))), Ok(()))
        } else {
            (self, Err(self.corrupted()))
        }
    }

    /// The page as a leaf page without records.
    pub open spec fn init_leaf_page(self) -> (PageModel, Result<(), ShuError>) {
        if self.page_type() != Ok::<PageType, ShuError>(PageType::Leaf) {
            (self, Err(ShuError::InvalidPageType))
        } else {
            let header = LeafPageHeader {
                record_count: 0,
                record_content_start: BODY_SIZE as u16,
                right_sibling: PageId(0),
                left_sibling: PageId(0),
            };
            (self.with_body(splice(self.body, 0, header.to_bytes(self.order))), Ok(()))
        }
    }

    /// The page as an internal page without records.
    pub open spec fn init_internal_page(self) -> (PageModel, Result<(), ShuError>) {
        self.write_internal_header(
            InternalPageHeader {
                record_count: 0,
                record_content_start: BODY_SIZE as u16,
                right_child: PageId(0),
            },
        )
    }

    /// The leaf cell at an offset of the body.
    pub open spec fn leaf_cell_at(self, cell_start: u16) -> Result<LeafCell, ShuError> {
        match self.read_body_u16(cell_start as usize) {
            Err(e) => Err(e),
            Ok(key_len) => match self.read_body_u16((cell_start + 2) as usize) {
                Err(e) => Err(e),
                Ok(value_len) => {
                    let key_start = (cell_start + 4) as usize;
                    let key_end = (cell_start + 4 + key_len) as usize;
                    let value_end = (cell_start + 4 + key_len + value_len) as usize;
                    match self.read_body_bytes(key_start, key_end) {
                        Err(e) => Err(e),
                        Ok(key) => match self.read_body_bytes(key_end, value_end) {
                            Err(e) => Err(e),
                            Ok(value) => Ok(LeafCell { key, value }),
                        },
                    }
                },
            },
        }
    }

    /// The record of a leaf page's body.
    pub open spec fn leaf_entry(self, index: u16) -> Result<LeafCell, ShuError> {
        match self.read_leaf_header() {
            Err(e) => Err(e),
            Ok(header) => if index >= header.record_count {
                Err(ShuError::IndexOutOfRange)
            } else {
                match self.read_body_u16(leaf_pointer(index as int) as usize) {
                    Err(e) => Err(e),
                    Ok(cell_start) => self.leaf_cell_at(cell_start),
                }
            },
        }
    }

    /// The first `n` records of a leaf page's body, or the first error among them.
    pub open spec fn first_leaf_entries(self, n: nat) -> Result<Seq<LeafCell>, ShuError>
        decreases n,
    {
        if n == 0 {
            Ok(Seq::empty())
        } else {
            match self.first_leaf_entries((n - 1) as nat) {
                Err(e) => Err(e),
                Ok(cells) => match self.leaf_entry((n - 1) as u16) {
                    Err(e) => Err(e),
                    Ok(cell) => Ok(cells.push(cell)),
                },
            }
        }
    }

    /// All records of a leaf page: those of the overflow, if there is one, else those
    /// of the body.
    pub open spec fn leaf_entries(self) -> Result<Seq<LeafCell>, ShuError> {
        match self.overflow {
            Overflow::Leaf(cells) => Ok(cells),
            _ => match self.read_leaf_header() {
                Err(e) => Err(e),
                Ok(header) => self.first_leaf_entries(header.record_count as nat),
            },
        }
    }

    /// The outcome of a binary search between two positions of a leaf page's body.
    pub open spec fn leaf_search_between(self, key: Seq<u8>, low: u16, high: u16) -> Result<
        LeafSearchResult,
        ShuError,
    >
        decreases high - low,
    {
        if low < high {
            let mid = ((low + high) / 2) as u16;
            match self.leaf_entry(mid) {
                Err(e) => Err(e),
                Ok(cell) => if cell.key == key {
                    Ok(LeafSearchResult::Found(mid))
                } else if lex_lt(key, cell.key) {
                    self.leaf_search_between(key, low, mid)
                } else {
                    self.leaf_search_between(key, (mid + 1) as u16, high)
                },
            }
        } else {
            Ok(LeafSearchResult::Missing(low))
        }
    }

    /// Where a key is in a leaf page, or where it would be inserted.
    pub open spec fn leaf_search(self, key: Seq<u8>) -> Result<LeafSearchResult, ShuError> {
        if self.page_type() != Ok::<PageType, ShuError>(PageType::Leaf) {
            Err(ShuError::InvalidPageType)
        } else {
            match self.overflow {
                Overflow::Leaf(cells) => match search_cells(cells, key, 0, cells.len()) {
                    KeyPosition::Found(i) => Ok(LeafSearchResult::Found(i as u16)),
                    KeyPosition::Missing(i) => Ok(LeafSearchResult::Missing(i as u16)),
                },
                _ => match self.read_leaf_header() {
                    Err(e) => Err(e),
                    Ok(header) => self.leaf_search_between(key, 0, header.record_count),
                },
            }
        }
    }

    /// The internal cell at an offset of the body.
    pub open spec fn internal_cell_at(self, cell_start: u16) -> Result<InternalCell, ShuError> {
        match self.read_body_bytes(cell_start as usize, (cell_start + 4) as usize) {
            Err(e) => Err(e),
            Ok(child) => match self.read_body_u16((cell_start + 4) as usize) {
                Err(e) => Err(e),
                Ok(key_len) => match self.read_body_bytes(
                    (cell_start + 6) as usize,
                    (cell_start + 6 + key_len) as usize,
                ) {
                    Err(e) => Err(e),
                    Ok(separator) => Ok(
                        InternalCell { child: PageId(u32_in(self.order, child)), separator },
                    ),
                },
            },
        }
    }

    /// The record of an internal page's body.
    pub open spec fn internal_entry(self, index: u16) -> Result<InternalCell, ShuError> {
        match self.read_internal_header() {
            Err(e) => Err(e),
            Ok(header) => if index >= header.record_count {
                Err(ShuError::IndexOutOfRange)
            } else {
                match self.read_body_u16(internal_pointer(index as int) as usize) {
                    Err(e) => Err(e),
                    Ok(cell_start) => self.internal_cell_at(cell_start),
                }
            },
        }
    }

    /// The first `n` records of an internal page's body, or the first error among them.
    pub open spec fn first_internal_entries(self, n: nat) -> Result<Seq<InternalCell>, ShuError>
        decreases n,
    {
        if n == 0 {
            Ok(Seq::empty())
        } else {
            match self.first_internal_entries((n - 1) as nat) {
                Err(e) => Err(e),
                Ok(cells) => match self.internal_entry((n - 1) as u16) {
                    Err(e) => Err(e),
                    Ok(cell) => Ok(cells.push(cell)),
                },
            }
        }
    }

    /// The contents of an internal page: those of the overflow, if there is one, else
    /// those of the body.
    pub open spec fn internal_entries(self) -> Result<InternalNode, ShuError> {
        match self.overflow {
            Overflow::Internal(node) => Ok(node),
            _ => match self.read_internal_header() {
                Err(e) => Err(e),
                Ok(header) => match self.first_internal_entries(header.record_count as nat) {
                    Err(e) => Err(e),
                    Ok(cells) => Ok(InternalNode { cells, right_child: header.right_child }),
                },
            },
        }
    }

    /// The outcome of a binary search for a key's child between two positions of an
    /// internal page's body.
    pub open spec fn child_index_between(self, key: Seq<u8>, low: u16, high: u16) -> Result<
        u16,
        ShuError,
    >
        decreases high - low,
    {
        if low < high {
            let mid = (low + (high - low) / 2) as u16;
            match self.internal_entry(mid) {
                Err(e) => Err(e),
                Ok(cell) => if lex_le(key, cell.separator) {
                    self.child_index_between(key, low, mid)
                } else {
                    self.child_index_between(key, (mid + 1) as u16, high)
                },
            }
        } else {
            Ok(low)
        }
    }

    /// Which child of an internal page a key belongs to.
    pub open spec fn child_index_for_key(self, key: Seq<u8>) -> Result<u16, ShuError> {
        match self.read_internal_header() {
            Err(e) => Err(e),
            Ok(header) => self.child_index_between(key, 0, header.record_count),
        }
    }

    /// The child of an internal page at an index; the right child comes last.
    pub open spec fn child_at(self, child_index: u16) -> Result<PageId, ShuError> {
        match self.read_internal_header() {
            Err(e) => Err(e),
            Ok(header) => if child_index < header.record_count {
                match self.internal_entry(child_index) {
                    Err(e) => Err(e),
                    Ok(cell) => Ok(cell.child),
                }
            } else if child_index == header.record_count {
                Ok(header.right_child)
            } else {
                Err(ShuError::IndexOutOfRange)
            },
        }
    }

    /// The child of an internal page that a key belongs to.
    pub open spec fn child_for_key(self, key: Seq<u8>) -> Result<PageId, ShuError> {
        match self.child_index_for_key(key) {
            Err(e) => Err(e),
            Ok(child_index) => self.child_at(child_index),
        }
    }

    /// Whether more than half of the page is free.
    pub open spec fn is_underflow(self) -> Result<bool, ShuError> {
        match self.page_type() {
            Err(e) => Err(e),
            Ok(PageType::Leaf) => if self.overflow is Leaf {
                Ok(false)
            } else {
                match self.read_leaf_header() {
                    Err(e) => Err(e),
                    Ok(header) => Ok(
                        header.record_content_start - leaf_pointer(header.record_count as int)
                            > LEAF_CAPACITY / 2,
                    ),
                }
            },
            Ok(PageType::Internal) => if self.overflow is Internal {
                Ok(false)
            } else {
                match self.read_internal_header() {
                    Err(e) => Err(e),
                    Ok(header) => Ok(
                        header.record_content_start - internal_pointer(header.record_count as int)
                            > INTERNAL_CAPACITY / 2,
                    ),
                }
            },
            Ok(PageType::Meta) => Err(ShuError::InvalidPageType),
        }
    }

    /// Whether the page holds records that do not fit its body.
    pub open spec fn is_overflow(self) -> Result<bool, ShuError> {
        match self.page_type() {
            Err(e) => Err(e),
            Ok(page_type) => match self.overflow {
                Overflow::Empty => Ok(false),
                Overflow::Leaf(cells) => if page_type == PageType::Leaf {
                    Ok(cells.len() > 0)
                } else {
                    Err(ShuError::InvalidPageType)
                },
                Overflow::Internal(node) => if page_type == PageType::Internal {
                    Ok(node.cells.len() > 0)
                } else {
                    Err(ShuError::InvalidPageType)
                },
            },
        }
    }
}

/// The cell pointers of an internal page end before its cells begin.
pub open spec fn internal_header_in_order(header: InternalPageHeader) -> bool {
    internal_pointer(header.record_count as int) <= header.record_content_start <= BODY_SIZE
}

impl PageModel {
    /// A leaf page after a record is appended behind the others, and whether it was.
    #[verifier::opaque]
    pub open spec fn append_leaf_entry(self, cell: LeafCell) -> (PageModel, Result<(), ShuError>) {
        match self.read_leaf_header() {
            Err(e) => (self, Err(e)),
            Ok(header) => {
                let cell_size = LEAF_CELL_HEADER_SIZE + cell.key.len() + cell.value.len();
                let cell_start = header.record_content_start - cell_size;
                let pointer = leaf_pointer(header.record_count as int);
                if cell.key.len() > u16::MAX || cell.value.len() > u16::MAX {
                    (
                        self,
                        Err(
                            ShuError::CellTooLarge {
                                page_id: self.id(),
                                key_len: cell.key.len() as usize,
                                value_len: cell.value.len() as usize,
                            },
                        ),
                    )
                } else if cell_start < 0 {
                    (self, Err(page_is_full(self.id(), cell_size as usize, 0)))
                } else if pointer + CELL_POINTER_SIZE > BODY_SIZE {
                    (
                        self,
                        Err(
                            self.invalid_body_range(
                                pointer as usize,
                                (pointer + CELL_POINTER_SIZE) as usize,
                            ),
                        ),
                    )
                } else {
                    let pointed = splice(self.body, pointer, u16_bytes(cell_start as u16));
                    let filled = splice(pointed, cell_start, leaf_cell_bytes(cell));
                    let counted = LeafPageHeader {
                        record_count: (header.record_count + 1) as u16,
                        record_content_start: cell_start as u16,
                        ..header
                    };
                    (self.with_body(splice(filled, 0, counted.to_bytes(self.order))), Ok(()))
                }
            },
        }
    }

    /// A leaf page after the first `n` records are appended one after the other, up to
    /// the first that cannot be.
    pub open spec fn append_leaf_entries(self, cells: Seq<LeafCell>, n: nat) -> (
        PageModel,
        Result<(), ShuError>,
    )
        decreases n,
    {
        if n == 0 {
            (self, Ok(()))
        } else {
            let (page, result) = self.append_leaf_entries(cells, (n - 1) as nat);
            if result is Err {
                (page, result)
            } else {
                page.append_leaf_entry(cells[n - 1])
            }
        }
    }

    /// A leaf page after its records are replaced, and whether they were.
    pub open spec fn rewrite_leaf_entries(self, cells: Seq<LeafCell>) -> (
        PageModel,
        Result<(), ShuError>,
    ) {
        if !keys_ascend(cells) {
            (self, Err(self.corrupted()))
        } else if leaf_space(cells) > LEAF_CAPACITY {
            (self, Err(page_is_full(self.id(), clamp(leaf_space(cells)), LEAF_CAPACITY)))
        } else {
            let (page, result) = (PageModel { overflow: Overflow::Empty, ..self }).init_leaf_page();
            if result is Err {
                (page, result)
            } else {
                page.append_leaf_entries(cells, cells.len())
            }
        }
    }

    /// A leaf page after a key is given a value, and whether it was. Records that do not
    /// fit the body all go to the overflow.
    pub open spec fn insert_leaf_entry(self, key: Seq<u8>, value: Seq<u8>) -> (
        PageModel,
        Result<(), ShuError>,
    ) {
        if self.page_type() != Ok::<PageType, ShuError>(PageType::Leaf) {
            (self, Err(ShuError::InvalidPageType))
        } else {
            match self.leaf_entries() {
                Err(e) => (self, Err(e)),
                Ok(cells) => {
                    let cells = upsert(cells, key, value);
                    if leaf_space(cells) > LEAF_CAPACITY {
                        (PageModel { overflow: Overflow::Leaf(cells), ..self }, Ok(()))
                    } else {
                        self.rewrite_leaf_entries(cells)
                    }
                },
            }
        }
    }

    /// An internal page after a cell is written in front of the others with the pointer
    /// at an index, and after the header is written, if that is in order.
    pub open spec fn write_internal_cell(
        self,
        header: InternalPageHeader,
        index: u16,
        cell: InternalCell,
    ) -> (PageModel, Result<(), ShuError>) {
        let cell_start = header.record_content_start - INTERNAL_CELL_HEADER_SIZE
            - cell.separator.len();
        let pointer = internal_pointer(index as int);
        if pointer + CELL_POINTER_SIZE > BODY_SIZE {
            (
                self,
                Err(
                    self.invalid_body_range(
                        pointer as usize,
                        (pointer + CELL_POINTER_SIZE) as usize,
                    ),
                ),
            )
        } else {
            let pointed = splice(self.body, pointer, u16_bytes(cell_start as u16));
            let filled = splice(pointed, cell_start, internal_cell_bytes(self.order, cell));
            self.with_body(filled).write_internal_header(
                InternalPageHeader {
                    record_count: (header.record_count + 1) as u16,
                    record_content_start: cell_start as u16,
                    ..header
                },
            )
        }
    }

    /// The error, if any, that keeps a cell from being written in front of the others.
    pub open spec fn internal_cell_refused(
        self,
        header: InternalPageHeader,
        cell: InternalCell,
    ) -> Option<ShuError> {
        let cell_size = INTERNAL_CELL_HEADER_SIZE + cell.separator.len();
        if cell.separator.len() > u16::MAX {
            Some(
                ShuError::CellTooLarge {
                    page_id: self.id(),
                    key_len: cell.separator.len() as usize,
                    value_len: 0,
                },
            )
        } else if header.record_content_start < cell_size {
            Some(page_is_full(self.id(), cell_size as usize, 0))
        } else {
            None
        }
    }

    /// An internal page after a record is appended behind the others, and whether it was.
    #[verifier::opaque]
    pub open spec fn append_internal_entry(self, cell: InternalCell) -> (
        PageModel,
        Result<(), ShuError>,
    ) {
        match self.read_internal_header() {
            Err(e) => (self, Err(e)),
            Ok(header) => match self.internal_cell_refused(header, cell) {
                Some(e) => (self, Err(e)),
                None => self.write_internal_cell(header, header.record_count, cell),
            },
        }
    }

    /// An internal page after a record is inserted before the one at `index`, and
    /// whether it was.
    pub open spec fn insert_internal_entry(self, index: u16, cell: InternalCell) -> (
        PageModel,
        Result<(), ShuError>,
    ) {
        match self.read_internal_header() {
            Err(e) => (self, Err(e)),
            Ok(header) => if index > header.record_count {
                (self, Err(ShuError::IndexOutOfRange))
            } else {
                match self.internal_cell_refused(header, cell) {
                    Some(e) => (self, Err(e)),
                    None => {
                        let (page, result) = self.copy_body_within(
                            internal_pointer(index as int) as usize,
                            internal_pointer(header.record_count as int) as usize,
                            internal_pointer(index + 1) as usize,
                        );
                        if result is Err {
                            (page, result)
                        } else {
                            page.write_internal_cell(header, index, cell)
                        }
                    },
                }
            },
        }
    }

    /// An internal page after its right child is replaced, and whether it was.
    pub open spec fn set_right_child(self, child: PageId) -> (PageModel, Result<(), ShuError>) {
        match self.read_internal_header() {
            Err(e) => (self, Err(e)),
            Ok(header) => self.write_internal_header(
                InternalPageHeader { right_child: child, ..header },
            ),
        }
    }

    /// An internal page after the first `n` records are appended one after the other, up
    /// to the first that cannot be.
    pub open spec fn append_internal_entries(self, cells: Seq<InternalCell>, n: nat) -> (
        PageModel,
        Result<(), ShuError>,
    )
        decreases n,
    {
        if n == 0 {
            (self, Ok(()))
        } else {
            let (page, result) = self.append_internal_entries(cells, (n - 1) as nat);
            if result is Err {
                (page, result)
            } else {
                page.append_internal_entry(cells[n - 1])
            }
        }
    }

    /// An internal page after its contents are replaced, and whether they were. Contents
    /// that do not fit the body go to the overflow.
    pub open spec fn rewrite_internal_entries(self, node: InternalNode) -> (
        PageModel,
        Result<(), ShuError>,
    ) {
        if internal_space(node.cells) > INTERNAL_CAPACITY {
            (PageModel { overflow: Overflow::Internal(node), ..self }, Ok(()))
        } else {
            let (page, result) =
                (PageModel { overflow: Overflow::Empty, ..self }).init_internal_page();
            if result is Err {
                (page, result)
            } else {
                let (page, result) = page.append_internal_entries(node.cells, node.cells.len());
                if result is Err {
                    (page, result)
                } else {
                    page.set_right_child(node.right_child)
                }
            }
        }
    }
}

/// The error of records that do not fit a page.
pub open spec fn page_is_full(page_id: PageId, needed: usize, available: usize) -> ShuError {
    ShuError::PageFull { page_id, needed, available }
}
} // verus!
