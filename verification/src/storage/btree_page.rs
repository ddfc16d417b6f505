//! Slotted leaf and internal pages.
use crate::error::ShuError;
use crate::storage::codec::{read_u32_in, u16_bytes, u32_bytes_in, u32_in, write_u32_in};
use crate::storage::model::{views, InternalCell, InternalNode, LeafCell};
use crate::storage::order::{bytes_eq, bytes_lt, lex_le, lex_lt, lex_lt_total, lex_lt_transitive};
use crate::storage::page::{splice, Page, PageId, PageModel, PageOverflow, PageType, BODY_SIZE};
use crate::storage::page::{HEADER_SIZE, PAGE_SIZE};
use crate::storage::slotted::{clamp, internal_cell_bytes, internal_cell_space};
use crate::storage::slotted::{internal_header_in_order, internal_pointer, internal_space};
use crate::storage::slotted::{keys_ascend, leaf_cell_bytes, leaf_cell_space, leaf_pointer};
use crate::storage::slotted::{leaf_space, page_is_full, search_cells, upsert, InternalPageHeader};
use crate::storage::slotted::{KeyPosition, LeafPageHeader, LeafSearchResult, CELL_POINTER_SIZE};
use crate::storage::slotted::{INTERNAL_CAPACITY, INTERNAL_CELL_HEADER_SIZE, INTERNAL_HEADER_SIZE};
use crate::storage::slotted::{LEAF_CAPACITY, LEAF_CELL_HEADER_SIZE, LEAF_HEADER_SIZE};
use vstd::prelude::*;

verus! {

broadcast use crate::storage::model::views_push;

/// A key and its value.
#[derive(Debug, PartialEq, Eq)]
pub struct LeafEntry {
    pub key: Vec<u8>,
    pub value: Vec<u8>,
}

/// A child page and the greatest key that its subtree may hold.
#[derive(Debug, PartialEq, Eq)]
pub struct InternalEntry {
    pub child: PageId,
    pub separator: Vec<u8>,
}

/// The contents of an internal page.
#[derive(Debug, PartialEq, Eq)]
pub struct InternalEntries {
    pub entries: Vec<InternalEntry>,
    pub right_child: PageId,
}

impl View for LeafEntry {
    type V = LeafCell;

    open spec fn view(&self) -> LeafCell {
        LeafCell { key: self.key@, value: self.value@ }
    }
}

impl View for InternalEntry {
    type V = InternalCell;

    open spec fn view(&self) -> InternalCell {
        InternalCell { child: self.child, separator: self.separator@ }
    }
}

impl View for InternalEntries {
    type V = InternalNode;

    open spec fn view(&self) -> InternalNode {
        InternalNode { cells: views(self.entries@), right_child: self.right_child }
    }
}

/// A copy of a byte string.
pub fn copy_bytes(bytes: &[u8]) -> (r: Vec<u8>)
    ensures
        r@ == bytes@,
{
    let mut r: Vec<u8> = Vec::new();
    r.extend_from_slice(bytes);
    assert(r@ =~= bytes@);
    r
}

impl LeafEntry {
    pub fn new(key: Vec<u8>, value: Vec<u8>) -> (r: Self)
        ensures
            r.key@ == key@,
            r.value@ == value@,
    {
        LeafEntry { key, value }
    }

    /// A copy.
    pub fn duplicate(&self) -> (r: Self)
        ensures
            r@ == self@,
    {
        LeafEntry { key: copy_bytes(&self.key), value: copy_bytes(&self.value) }
    }
}

impl InternalEntry {
    pub fn new(child: PageId, separator: Vec<u8>) -> (r: Self)
        ensures
            r.child == child,
            r.separator@ == separator@,
    {
        InternalEntry { child, separator }
    }

    /// A copy.
    pub fn duplicate(&self) -> (r: Self)
        ensures
            r@ == self@,
    {
        InternalEntry { child: self.child, separator: copy_bytes(&self.separator) }
    }
}

impl InternalEntries {
    pub fn new(entries: Vec<InternalEntry>, right_child: PageId) -> (r: Self)
        ensures
            r.entries@ == entries@,
            r.right_child == right_child,
    {
        InternalEntries { entries, right_child }
    }

    /// A copy.
    pub fn duplicate(&self) -> (r: Self)
        ensures
            r@ == self@,
    {
        let mut entries: Vec<InternalEntry> = Vec::new();
        let mut i: usize = 0;
        while i < self.entries.len()
            invariant
                i <= self.entries@.len(),
                views(entries@) == views(self.entries@).take(i as int),
            decreases self.entries@.len() - i,
        {
            entries.push(self.entries[i].duplicate());
            i = i + 1;
            assert(views(entries@) =~= views(self.entries@).take(i as int));
        }
        assert(views(entries@) =~= views(self.entries@));
        InternalEntries { entries, right_child: self.right_child }
    }
}

/// A copy of a list of entries.
pub fn copy_leaf_entries(source: &Vec<LeafEntry>) -> (r: Vec<LeafEntry>)
    ensures
        views(r@) == views(source@),
{
    let mut entries: Vec<LeafEntry> = Vec::new();
    let mut i: usize = 0;
    while i < source.len()
        invariant
            i <= source@.len(),
            views(entries@) == views(source@).take(i as int),
        decreases source@.len() - i,
    {
        entries.push(source[i].duplicate());
        i = i + 1;
        assert(views(entries@) =~= views(source@).take(i as int));
    }
    assert(views(entries@) =~= views(source@));
    entries
}

impl LeafEntry {
    /// The bytes of key and value.
    pub fn size(&self) -> (r: usize)
        ensures
            r == clamp(self@.key.len() + self@.value.len()),
    {
        self.key.len().saturating_add(self.value.len())
    }
}

pub fn leaf_entries_capacity() -> (r: usize)
    ensures
        r == LEAF_CAPACITY,
{
    PAGE_SIZE - HEADER_SIZE - LEAF_HEADER_SIZE
}

pub fn leaf_entry_space(entry: &LeafEntry) -> (r: usize)
    ensures
        r == clamp(leaf_cell_space(entry@)),
{
    (CELL_POINTER_SIZE + LEAF_CELL_HEADER_SIZE).saturating_add(entry.size())
}

pub fn internal_entries_capacity() -> (r: usize)
    ensures
        r == INTERNAL_CAPACITY,
{
    PAGE_SIZE - HEADER_SIZE - INTERNAL_HEADER_SIZE
}

pub fn internal_entry_space(entry: &InternalEntry) -> (r: usize)
    ensures
        r == clamp(internal_cell_space(entry@)),
{
    (CELL_POINTER_SIZE + INTERNAL_CELL_HEADER_SIZE).saturating_add(entry.separator.len())
}

/// The bytes that entries take in a leaf page.
pub fn leaf_entries_space(entries: &[LeafEntry]) -> (r: usize)
    ensures
        r == clamp(leaf_space(views(entries@))),
{
    let mut total: usize = 0;
    let mut i: usize = 0;
    assert(views(entries@).take(0) =~= Seq::<LeafCell>::empty());
    while i < entries.len()
        invariant
            i <= entries@.len(),
            total == clamp(leaf_space(views(entries@).take(i as int))),
        decreases entries@.len() - i,
    {
        total = total.saturating_add(leaf_entry_space(&entries[i]));
        i = i + 1;
        assert(views(entries@).take(i as int).drop_last() =~= views(entries@).take(i - 1));
    }
    assert(views(entries@).take(i as int) =~= views(entries@));
    total
}

/// Whether entries fit a leaf page.
pub fn leaf_entries_fit(entries: &[LeafEntry]) -> (r: bool)
    ensures
        r == (leaf_space(views(entries@)) <= LEAF_CAPACITY),
{
    leaf_entries_space(entries) <= leaf_entries_capacity()
}

/// The bytes that entries take in an internal page.
pub fn internal_entries_space(entries: &InternalEntries) -> (r: usize)
    ensures
        r == clamp(internal_space(entries@.cells)),
{
    let mut total: usize = 0;
    let mut i: usize = 0;
    assert(entries@.cells.take(0) =~= Seq::<InternalCell>::empty());
    while i < entries.entries.len()
        invariant
            i <= entries.entries@.len(),
            total == clamp(internal_space(entries@.cells.take(i as int))),
        decreases entries.entries@.len() - i,
    {
        total = total.saturating_add(internal_entry_space(&entries.entries[i]));
        i = i + 1;
        assert(entries@.cells.take(i as int).drop_last() =~= entries@.cells.take(i - 1));
    }
    assert(entries@.cells.take(i as int) =~= entries@.cells);
    total
}

/// Whether entries fit an internal page.
pub fn internal_entries_fit(entries: &InternalEntries) -> (r: bool)
    ensures
        r == (internal_space(entries@.cells) <= INTERNAL_CAPACITY),
{
    internal_entries_space(entries) <= internal_entries_capacity()
}

/// A record of a leaf page.
pub struct LeafEntryRef<'a> {
    pub key: &'a [u8],
    pub value: &'a [u8],
}

impl<'a> View for LeafEntryRef<'a> {
    type V = LeafCell;

    open spec fn view(&self) -> LeafCell {
        LeafCell { key: self.key@, value: self.value@ }
    }
}

/// A record of an internal page.
pub struct InternalEntryRef<'a> {
    pub child: PageId,
    pub separator: &'a [u8],
}

impl<'a> View for InternalEntryRef<'a> {
    type V = InternalCell;

    open spec fn view(&self) -> InternalCell {
        InternalCell { child: self.child, separator: self.separator@ }
    }
}

/// The place of a new record in a leaf page.
#[derive(Clone, Copy, Debug)]
pub struct LeafInsertPosition {
    pub index: u16,
}

impl LeafInsertPosition {
    pub fn pointer_offset(self) -> (r: usize)
        ensures
            r == leaf_pointer(self.index as int),
    {
        leaf_cell_pointer_offset(self.index)
    }
}

/// Where the parts of a leaf cell lie in the body.
#[derive(Clone, Copy, Debug)]
pub struct LeafCellLayout {
    pub cell_start: usize,
    pub key_len_start: usize,
    pub value_len_start: usize,
    pub key_start: usize,
    pub key_end: usize,
    pub value_start: usize,
    pub value_end: usize,
}

impl LeafCellLayout {
    pub fn new(cell_start: usize, key_len: u16, value_len: u16) -> (r: Self)
        requires
            cell_start + LEAF_CELL_HEADER_SIZE + key_len + value_len <= usize::MAX,
        ensures
            r.cell_start == cell_start,
            r.key_len_start == cell_start,
            r.value_len_start == cell_start + 2,
            r.key_start == cell_start + LEAF_CELL_HEADER_SIZE,
            r.key_end == r.key_start + key_len,
            r.value_start == r.key_end,
            r.value_end == r.value_start + value_len,
    {
        let key_len_start = cell_start;
        let value_len_start = key_len_start + 2;
        let key_start = value_len_start + 2;
        let key_end = key_start + usize::from(key_len);
        let value_start = key_end;
        let value_end = value_start + usize::from(value_len);
        LeafCellLayout {
            cell_start,
            key_len_start,
            value_len_start,
            key_start,
            key_end,
            value_start,
            value_end,
        }
    }
}

/// Where the parts of an internal cell lie in the body.
#[derive(Clone, Copy, Debug)]
pub struct InternalCellLayout {
    pub cell_start: usize,
    pub child_page_id_start: usize,
    pub key_len_start: usize,
    pub key_start: usize,
    pub key_end: usize,
}

impl InternalCellLayout {
    pub fn new(cell_start: usize, key_len: u16) -> (r: Self)
        requires
            cell_start + INTERNAL_CELL_HEADER_SIZE + key_len <= usize::MAX,
        ensures
            r.cell_start == cell_start,
            r.child_page_id_start == cell_start,
            r.key_len_start == cell_start + 4,
            r.key_start == cell_start + INTERNAL_CELL_HEADER_SIZE,
            r.key_end == r.key_start + key_len,
    {
        let child_page_id_start = cell_start;
        let key_len_start = child_page_id_start + 4;
        let key_start = key_len_start + 2;
        let key_end = key_start + usize::from(key_len);
        InternalCellLayout { cell_start, child_page_id_start, key_len_start, key_start, key_end }
    }
}

pub fn page_full(page_id: PageId, needed: usize, available: usize) -> (r: ShuError)
    ensures
        r == page_is_full(page_id, needed, available),
{
    ShuError::PageFull { page_id, needed, available }
}

/// The lengths of a key and a value as a cell holds them.
pub fn checked_leaf_entry_lens(page_id: PageId, key_len: usize, value_len: usize) -> (r: Result<
    (u16, u16),
    ShuError,
>)
    ensures
        r == if key_len > u16::MAX || value_len > u16::MAX {
            Err(ShuError::CellTooLarge { page_id, key_len, value_len })
        } else {
            Ok::<(u16, u16), ShuError>((key_len as u16, value_len as u16))
        },
{
    if key_len > u16::MAX as usize || value_len > u16::MAX as usize {
        return Err(ShuError::CellTooLarge { page_id, key_len, value_len });
    }
    Ok((key_len as u16, value_len as u16))
}

/// The length of a separator as a cell holds it.
pub fn checked_internal_key_len(page_id: PageId, key_len: usize) -> (r: Result<u16, ShuError>)
    ensures
        r == if key_len > u16::MAX {
            Err(ShuError::CellTooLarge { page_id, key_len, value_len: 0 })
        } else {
            Ok::<u16, ShuError>(key_len as u16)
        },
{
    if key_len > u16::MAX as usize {
        return Err(ShuError::CellTooLarge { page_id, key_len, value_len: 0 });
    }
    Ok(key_len as u16)
}

pub fn internal_cell_size(key_len: u16) -> (r: usize)
    ensures
        r == INTERNAL_CELL_HEADER_SIZE + key_len,
{
    INTERNAL_CELL_HEADER_SIZE + usize::from(key_len)
}

pub fn internal_cell_pointer_offset(index: u16) -> (r: usize)
    ensures
        r == internal_pointer(index as int),
{
    INTERNAL_HEADER_SIZE + usize::from(index) * CELL_POINTER_SIZE
}

pub fn leaf_cell_size(key_len: u16, value_len: u16) -> (r: usize)
    ensures
        r == LEAF_CELL_HEADER_SIZE + key_len + value_len,
{
    LEAF_CELL_HEADER_SIZE + usize::from(key_len) + usize::from(value_len)
}

pub fn leaf_cell_pointer_offset(index: u16) -> (r: usize)
    ensures
        r == leaf_pointer(index as int),
{
    LEAF_HEADER_SIZE + usize::from(index) * CELL_POINTER_SIZE
}

/// The bytes between the cell pointers and the cells of a leaf page.
pub fn leaf_free_space(page_id: PageId, header: &LeafPageHeader) -> (r: Result<usize, ShuError>)
    ensures
        r == if leaf_pointer(header.record_count as int) > header.record_content_start {
            Err(ShuError::CorruptedPage { page_id })
        } else {
            Ok::<usize, ShuError>(
                (header.record_content_start - leaf_pointer(header.record_count as int)) as usize,
            )
        },
{
    let pointer_end = leaf_cell_pointer_offset(header.record_count);
    match usize::from(header.record_content_start).checked_sub(pointer_end) {
        Some(free) => Ok(free),
        None => Err(ShuError::CorruptedPage { page_id }),
    }
}

/// The bytes between the cell pointers and the cells of an internal page.
pub fn internal_free_space(page_id: PageId, header: &InternalPageHeader) -> (r: Result<
    usize,
    ShuError,
>)
    ensures
        r == if internal_pointer(header.record_count as int) > header.record_content_start {
            Err(ShuError::CorruptedPage { page_id })
        } else {
            Ok::<usize, ShuError>(
                (header.record_content_start - internal_pointer(
                    header.record_count as int,
                )) as usize,
            )
        },
{
    let pointer_end = internal_cell_pointer_offset(header.record_count);
    match usize::from(header.record_content_start).checked_sub(pointer_end) {
        Some(free) => Ok(free),
        None => Err(ShuError::CorruptedPage { page_id }),
    }
}

/// The bytes for pointers and cells in a leaf page.
pub fn leaf_usable_space(page: &Page) -> (r: usize)
    ensures
        r == LEAF_CAPACITY,
{
    page.body().len() - LEAF_HEADER_SIZE
}

/// The bytes for pointers and cells in an internal page.
pub fn internal_usable_space(page: &Page) -> (r: usize)
    ensures
        r == INTERNAL_CAPACITY,
{
    page.body().len() - INTERNAL_HEADER_SIZE
}

/// Makes a page a leaf page without records.
pub fn init_leaf_page(page: &mut Page) -> (r: Result<(), ShuError>)
    ensures
        (*final(page))@ == old(page)@.init_leaf_page().0,
        r == old(page)@.init_leaf_page().1,
{
    page.assert_page_type(PageType::Leaf)?;
    let header = LeafPageHeader {
        record_count: 0,
        record_content_start: page.body().len() as u16,
        right_sibling: PageId::new(0),
        left_sibling: PageId::new(0),
    };
    page.write_body_prefix(&header)?;
    Ok(())
}

/// Makes a page an internal page without records.
pub fn init_internal_page(page: &mut Page) -> (r: Result<(), ShuError>)
    ensures
        (*final(page))@ == old(page)@.init_internal_page().0,
        r == old(page)@.init_internal_page().1,
{
    page.assert_page_type(PageType::Internal)?;
    let header = InternalPageHeader {
        record_count: 0,
        record_content_start: page.body().len() as u16,
        right_child: PageId::new(0),
    };
    write_internal_header(page, &header)
}

/// The header of a leaf page, if it is in order.
pub fn read_leaf_header(page: &Page) -> (r: Result<LeafPageHeader, ShuError>)
    ensures
        r == page@.read_leaf_header(),
{
    page.assert_page_type(PageType::Leaf)?;
    let header = page.read_body_prefix::<LeafPageHeader>()?;
    if header.record_content_start as usize > page.body().len() {
        return Err(ShuError::CorruptedPage { page_id: page.id() });
    }
    leaf_free_space(page.id(), &header)?;
    Ok(header)
}

/// The header of an internal page, if it is in order.
pub fn read_internal_header(page: &Page) -> (r: Result<InternalPageHeader, ShuError>)
    ensures
        r == page@.read_internal_header(),
{
    page.assert_page_type(PageType::Internal)?;
    let header = page.read_body_prefix::<InternalPageHeader>()?;
    validate_internal_header(page, &header)?;
    Ok(header)
}

/// Writes the header of an internal page, if it is in order.
pub fn write_internal_header(page: &mut Page, header: &InternalPageHeader) -> (r: Result<
    (),
    ShuError,
>)
    ensures
        (*final(page))@ == old(page)@.write_internal_header(*header).0,
        r == old(page)@.write_internal_header(*header).1,
{
    page.assert_page_type(PageType::Internal)?;
    validate_internal_header(page, header)?;
    page.write_body_prefix(header)
}

/// Whether the header of an internal page is in order; an error if not.
pub fn validate_internal_header(page: &Page, header: &InternalPageHeader) -> (r: Result<
    (),
    ShuError,
>)
    ensures
        r == if internal_header_in_order(*header) {
            Ok(())
        } else {
            Err::<(), ShuError>(page@.corrupted())
        },
{
    let record_content_start = usize::from(header.record_content_start);
    if record_content_start > page.body().len() {
        return Err(ShuError::CorruptedPage { page_id: page.id() });
    }
    internal_free_space(page.id(), header)?;
    Ok(())
}

/// The record of a leaf page's body.
pub fn read_leaf_entry(page: &Page, index: u16) -> (r: Result<LeafEntryRef<'_>, ShuError>)
    ensures
        match page@.leaf_entry(index) {
            Ok(cell) => r matches Ok(found) && found@ == cell,
            Err(e) => r == Err::<LeafEntryRef<'_>, ShuError>(e),
        },
{
    let header = read_leaf_header(page)?;
    if index >= header.record_count {
        return Err(ShuError::IndexOutOfRange);
    }
    let pointer_offset = leaf_cell_pointer_offset(index);
    let cell_start = page.read_body_u16(pointer_offset)? as usize;
    let key_len = page.read_body_u16(cell_start)?;
    let value_len = page.read_body_u16(cell_start + 2)?;
    let layout = LeafCellLayout::new(cell_start, key_len, value_len);
    let key = page.read_body_bytes(layout.key_start..layout.key_end)?;
    let value = page.read_body_bytes(layout.value_start..layout.value_end)?;
    Ok(LeafEntryRef { key, value })
}

/// The child of an internal cell.
pub fn read_internal_cell_child_page_id(page: &Page, cell_start: u16) -> (r: Result<
    PageId,
    ShuError,
>)
    ensures
        r == match page@.read_body_bytes(cell_start as usize, (cell_start + 4) as usize) {
            Ok(bytes) => Ok::<PageId, ShuError>(PageId(u32_in(page@.order, bytes))),
            Err(e) => Err(e),
        },
{
    let start = usize::from(cell_start);
    let bytes = page.read_body_bytes(start..start + 4)?;
    let child = read_u32_in(page.order, bytes, 0);
    assert(bytes@.subrange(0, 4) =~= bytes@);
    Ok(PageId::new(child))
}

/// The record of an internal page's body.
pub fn read_internal_entry(page: &Page, index: u16) -> (r: Result<InternalEntryRef<'_>, ShuError>)
    ensures
        match page@.internal_entry(index) {
            Ok(cell) => r matches Ok(found) && found@ == cell,
            Err(e) => r == Err::<InternalEntryRef<'_>, ShuError>(e),
        },
{
    let header = read_internal_header(page)?;
    if index >= header.record_count {
        return Err(ShuError::IndexOutOfRange);
    }
    let pointer_offset = internal_cell_pointer_offset(index);
    let pointer = page.read_body_u16(pointer_offset)?;
    let cell_start = pointer as usize;
    let child = read_internal_cell_child_page_id(page, pointer)?;
    let key_len = page.read_body_u16(cell_start + 4)?;
    let layout = InternalCellLayout::new(cell_start, key_len);
    let separator = page.read_body_bytes(layout.key_start..layout.key_end)?;
    Ok(InternalEntryRef { child, separator })
}

/// Where the cell of a new leaf record starts.
pub fn allocate_leaf_cell_start(
    page_id: PageId,
    header: &LeafPageHeader,
    key_len: u16,
    value_len: u16,
) -> (r: Result<usize, ShuError>)
    ensures
        ({
            let cell_size = LEAF_CELL_HEADER_SIZE + key_len + value_len;
            r == if header.record_content_start < cell_size {
                Err(page_is_full(page_id, cell_size as usize, 0))
            } else {
                Ok::<usize, ShuError>((header.record_content_start - cell_size) as usize)
            }
        }),
{
    let cell_size = leaf_cell_size(key_len, value_len);
    match usize::from(header.record_content_start).checked_sub(cell_size) {
        Some(start) => Ok(start),
        None => Err(page_full(page_id, cell_size, 0)),
    }
}

/// Where the cell of a new internal record starts.
pub fn allocate_internal_cell_start(
    page_id: PageId,
    header: &InternalPageHeader,
    key_len: u16,
) -> (r: Result<usize, ShuError>)
    ensures
        ({
            let cell_size = INTERNAL_CELL_HEADER_SIZE + key_len;
            r == if header.record_content_start < cell_size {
                Err(page_is_full(page_id, cell_size as usize, 0))
            } else {
                Ok::<usize, ShuError>((header.record_content_start - cell_size) as usize)
            }
        }),
{
    let cell_size = internal_cell_size(key_len);
    match usize::from(header.record_content_start).checked_sub(cell_size) {
        Some(start) => Ok(start),
        None => Err(page_full(page_id, cell_size, 0)),
    }
}

/// Bytes written one behind the other are the same as all of them written at once.
proof fn splice_twice(body: Seq<u8>, at: int, first: Seq<u8>, second: Seq<u8>)
    ensures
        splice(splice(body, at, first), at + first.len(), second) == splice(
            body,
            at,
            first + second,
        ),
{
    assert(splice(splice(body, at, first), at + first.len(), second) =~= splice(
        body,
        at,
        first + second,
    ));
}

/// Writes the pointer and the cell of a leaf record.
fn write_leaf_cell(
    page: &mut Page,
    position: LeafInsertPosition,
    layout: &LeafCellLayout,
    key_len: u16,
    value_len: u16,
    key: &[u8],
    value: &[u8],
) -> (r: Result<(), ShuError>)
    requires
        key_len == key@.len(),
        value_len == value@.len(),
        layout.key_len_start == layout.cell_start,
        layout.value_len_start == layout.cell_start + 2,
        layout.key_start == layout.cell_start + LEAF_CELL_HEADER_SIZE,
        layout.key_end == layout.key_start + key_len,
        layout.value_start == layout.key_end,
        layout.value_end == layout.value_start + value_len,
        layout.value_end <= BODY_SIZE,
    ensures
        ({
            let pointer = leaf_pointer(position.index as int);
            let cell = LeafCell { key: key@, value: value@ };
            if pointer + CELL_POINTER_SIZE > BODY_SIZE {
                &&& (*final(page))@ == old(page)@
                &&& r == Err::<(), ShuError>(
                    old(page)@.invalid_body_range(
                        pointer as usize,
                        (pointer + CELL_POINTER_SIZE) as usize,
                    ),
                )
            } else {
                let pointed = splice(old(page)@.body, pointer, u16_bytes(layout.cell_start as u16));
                &&& (*final(page))@ == old(page)@.with_body(
                    splice(pointed, layout.cell_start as int, leaf_cell_bytes(cell)),
                )
                &&& r is Ok
            }
        }),
{
    page.write_body_u16(position.pointer_offset(), layout.cell_start as u16)?;
    let ghost pointed = page@.body;
    page.write_body_u16(layout.key_len_start, key_len)?;
    page.write_body_u16(layout.value_len_start, value_len)?;
    page.write_body_bytes(layout.key_start..layout.key_end, key)?;
    page.write_body_bytes(layout.value_start..layout.value_end, value)?;
    proof {
        let at = layout.cell_start as int;
        let a = u16_bytes(key_len);
        let b = u16_bytes(value_len);
        splice_twice(pointed, at, a, b);
        splice_twice(pointed, at, a + b, key@);
        splice_twice(pointed, at, a + b + key@, value@);
    }
    Ok(())
}

/// Writes the pointer and the cell of an internal record.
fn write_internal_cell(
    page: &mut Page,
    index: u16,
    layout: &InternalCellLayout,
    child: PageId,
    key_len: u16,
    key: &[u8],
) -> (r: Result<(), ShuError>)
    requires
        key_len == key@.len(),
        layout.child_page_id_start == layout.cell_start,
        layout.key_len_start == layout.cell_start + 4,
        layout.key_start == layout.cell_start + INTERNAL_CELL_HEADER_SIZE,
        layout.key_end == layout.key_start + key_len,
        layout.key_end <= BODY_SIZE,
    ensures
        ({
            let pointer = internal_pointer(index as int);
            let cell = InternalCell { child, separator: key@ };
            if pointer + CELL_POINTER_SIZE > BODY_SIZE {
                &&& (*final(page))@ == old(page)@
                &&& r == Err::<(), ShuError>(
                    old(page)@.invalid_body_range(
                        pointer as usize,
                        (pointer + CELL_POINTER_SIZE) as usize,
                    ),
                )
            } else {
                let pointed = splice(old(page)@.body, pointer, u16_bytes(layout.cell_start as u16));
                &&& (*final(page))@ == old(page)@.with_body(
                    splice(
                        pointed,
                        layout.cell_start as int,
                        internal_cell_bytes(old(page)@.order, cell),
                    ),
                )
                &&& r is Ok
            }
        }),
{
    page.write_body_u16(internal_cell_pointer_offset(index), layout.cell_start as u16)?;
    let ghost pointed = page@.body;
    let child_bytes = write_u32_in(page.order, child.0);
    page.write_body_bytes(layout.child_page_id_start..layout.key_len_start, &child_bytes)?;
    page.write_body_u16(layout.key_len_start, key_len)?;
    page.write_body_bytes(layout.key_start..layout.key_end, key)?;
    proof {
        let at = layout.cell_start as int;
        let a = u32_bytes_in(page.order, child.0);
        let b = u16_bytes(key_len);
        splice_twice(pointed, at, a, b);
        splice_twice(pointed, at, a + b, key@);
    }
    Ok(())
}

/// Appends a record to a leaf page, behind the others.
pub fn append_leaf_entry(page: &mut Page, key: &[u8], value: &[u8]) -> (r: Result<(), ShuError>)
    ensures
        (*final(page))@ == old(page)@.append_leaf_entry(LeafCell { key: key@, value: value@ }).0,
        r == old(page)@.append_leaf_entry(LeafCell { key: key@, value: value@ }).1,
{
    proof {
        reveal(PageModel::append_leaf_entry);
    }
    let mut header = read_leaf_header(page)?;
    let (key_len, value_len) = checked_leaf_entry_lens(page.id(), key.len(), value.len())?;
    let position = LeafInsertPosition { index: header.record_count };
    let cell_start = allocate_leaf_cell_start(page.id(), &header, key_len, value_len)?;
    let layout = LeafCellLayout::new(cell_start, key_len, value_len);
    write_leaf_cell(page, position, &layout, key_len, value_len, key, value)?;
    header.record_count = header.record_count + 1;
    header.record_content_start = layout.cell_start as u16;
    page.write_body_prefix(&header)
}

/// Appends a record to an internal page, behind the others.
pub fn append_internal_cell(page: &mut Page, child: PageId, key: &[u8]) -> (r: Result<
    (),
    ShuError,
>)
    ensures
        (*final(page))@ == old(page)@.append_internal_entry(
            InternalCell { child, separator: key@ },
        ).0,
        r == old(page)@.append_internal_entry(InternalCell { child, separator: key@ }).1,
{
    proof {
        reveal(PageModel::append_internal_entry);
    }
    let mut header = read_internal_header(page)?;
    let key_len = checked_internal_key_len(page.id(), key.len())?;
    let cell_start = allocate_internal_cell_start(page.id(), &header, key_len)?;
    let layout = InternalCellLayout::new(cell_start, key_len);
    write_internal_cell(page, header.record_count, &layout, child, key_len, key)?;
    header.record_count = header.record_count + 1;
    header.record_content_start = layout.cell_start as u16;
    write_internal_header(page, &header)
}

/// Moves the cell pointers from an index on by one place.
fn shift_internal_pointers(page: &mut Page, start_index: u16, record_count: u16) -> (r: Result<
    (),
    ShuError,
>)
    ensures
        ({
            let shifted = old(page)@.copy_body_within(
                internal_pointer(start_index as int) as usize,
                internal_pointer(record_count as int) as usize,
                internal_pointer(start_index + 1) as usize,
            );
            &&& (*final(page))@ == shifted.0
            &&& r == shifted.1
        }),
{
    let start = internal_cell_pointer_offset(start_index);
    let end = internal_cell_pointer_offset(record_count);
    let dst_start = start + CELL_POINTER_SIZE;
    page.copy_body_within(start..end, dst_start)
}

/// Inserts a record into an internal page, before the one at an index.
pub fn insert_internal_cell(page: &mut Page, index: u16, child: PageId, separator: &[u8]) -> (r:
    Result<(), ShuError>)
    ensures
        (*final(page))@ == old(page)@.insert_internal_entry(
            index,
            InternalCell { child, separator: separator@ },
        ).0,
        r == old(page)@.insert_internal_entry(
            index,
            InternalCell { child, separator: separator@ },
        ).1,
{
    let mut header = read_internal_header(page)?;
    if index > header.record_count {
        return Err(ShuError::IndexOutOfRange);
    }
    let key_len = checked_internal_key_len(page.id(), separator.len())?;
    let cell_start = allocate_internal_cell_start(page.id(), &header, key_len)?;
    shift_internal_pointers(page, index, header.record_count)?;
    let layout = InternalCellLayout::new(cell_start, key_len);
    write_internal_cell(page, index, &layout, child, key_len, separator)?;
    header.record_count = header.record_count + 1;
    header.record_content_start = layout.cell_start as u16;
    write_internal_header(page, &header)
}

/// Where a key is in a list of entries, or where it would be inserted.
fn search_entries(entries: &[LeafEntry], key: &[u8]) -> (r: Result<usize, usize>)
    ensures
        match r {
            Ok(i) => i < entries@.len() && search_cells(
                views(entries@),
                key@,
                0,
                entries@.len(),
            ) == KeyPosition::Found(i as nat),
            Err(i) => i <= entries@.len() && search_cells(
                views(entries@),
                key@,
                0,
                entries@.len(),
            ) == KeyPosition::Missing(i as nat),
        },
{
    let mut low: usize = 0;
    let mut high: usize = entries.len();
    while low < high
        invariant
            low <= high <= entries@.len(),
            search_cells(views(entries@), key@, 0, entries@.len()) == search_cells(
                views(entries@),
                key@,
                low as nat,
                high as nat,
            ),
        decreases high - low,
    {
        let mid = low + (high - low) / 2;
        assert(mid == (low + high) / 2);
        let entry_key = entries[mid].key.as_slice();
        if bytes_eq(entry_key, key) {
            return Ok(mid);
        } else if bytes_lt(key, entry_key) {
            high = mid;
        } else {
            low = mid + 1;
        }
    }
    Err(low)
}

/// Gives a key a value in a list of entries.
pub fn upsert_leaf_entry(entries: &mut Vec<LeafEntry>, key: &[u8], value: &[u8])
    ensures
        views(final(entries)@) == upsert(views(old(entries)@), key@, value@),
{
    match search_entries(entries, key) {
        Ok(index) => {
            let ghost before = entries@;
            let old_key = copy_bytes(&entries[index].key);
            entries[index] = LeafEntry::new(old_key, copy_bytes(value));
            assert(views(entries@) =~= upsert(views(before), key@, value@));
        },
        Err(index) => {
            let ghost before = entries@;
            entries.insert(index, LeafEntry::new(copy_bytes(key), copy_bytes(value)));
            assert(views(entries@) =~= upsert(views(before), key@, value@));
        },
    }
}

/// Gives a key a value in a leaf page. Records that do not fit go to the overflow.
pub fn insert_into_leaf(page: &mut Page, key: &[u8], value: &[u8]) -> (r: Result<(), ShuError>)
    ensures
        (*final(page))@ == old(page)@.insert_leaf_entry(key@, value@).0,
        r == old(page)@.insert_leaf_entry(key@, value@).1,
{
    page.assert_page_type(PageType::Leaf)?;
    let mut entries = page.leaf_entries()?;
    upsert_leaf_entry(&mut entries, key, value);
    if !leaf_entries_fit(&entries) {
        page.overflow = PageOverflow::Leaf(entries);
        return Ok(());
    }
    page.rewrite_leaf_entries(&entries)
}

impl Page {
    pub fn is_underflow(&self) -> (r: Result<bool, ShuError>)
        ensures
            r == self@.is_underflow(),
    {
        match self.page_type()? {
            PageType::Leaf => {
                if matches!(self.overflow, PageOverflow::Leaf(_)) {
                    return Ok(false);
                }
                let header = read_leaf_header(self)?;
                Ok(leaf_free_space(self.id(), &header)? > leaf_usable_space(self) / 2)
            },
            PageType::Internal => {
                if matches!(self.overflow, PageOverflow::Internal(_)) {
                    return Ok(false);
                }
                let header = read_internal_header(self)?;
                Ok(internal_free_space(self.id(), &header)? > internal_usable_space(self) / 2)
            },
            PageType::Meta => Err(ShuError::InvalidPageType),
        }
    }

    pub fn is_overflow(&self) -> (r: Result<bool, ShuError>)
        ensures
            r == self@.is_overflow(),
    {
        let page_type = self.page_type()?;
        match &self.overflow {
            PageOverflow::Empty => Ok(false),
            PageOverflow::Leaf(entries) => if page_type == PageType::Leaf {
                Ok(!entries.is_empty())
            } else {
                Err(ShuError::InvalidPageType)
            },
            PageOverflow::Internal(entries) => if page_type == PageType::Internal {
                Ok(!entries.entries.is_empty())
            } else {
                Err(ShuError::InvalidPageType)
            },
        }
    }

    pub fn leaf_entry(&self, index: u16) -> (r: Result<LeafEntryRef<'_>, ShuError>)
        ensures
            match self@.leaf_entry(index) {
                Ok(cell) => r matches Ok(found) && found@ == cell,
                Err(e) => r == Err::<LeafEntryRef<'_>, ShuError>(e),
            },
    {
        read_leaf_entry(self, index)
    }

    pub fn leaf_entries(&self) -> (r: Result<Vec<LeafEntry>, ShuError>)
        ensures
            match self@.leaf_entries() {
                Ok(cells) => r matches Ok(entries) && views(entries@) == cells,
                Err(e) => r == Err::<Vec<LeafEntry>, ShuError>(e),
            },
    {
        if let PageOverflow::Leaf(entries) = &self.overflow {
            return Ok(copy_leaf_entries(entries));
        }
        let header = read_leaf_header(self)?;
        let mut entries: Vec<LeafEntry> = Vec::new();
        let mut index: u16 = 0;
        assert(views(entries@) =~= Seq::<LeafCell>::empty());
        while index < header.record_count
            invariant
                index <= header.record_count,
                self@.read_leaf_header() == Ok::<LeafPageHeader, ShuError>(header),
                self@.overflow !is Leaf,
                self@.first_leaf_entries(index as nat) == Ok::<Seq<LeafCell>, ShuError>(
                    views(entries@),
                ),
            decreases header.record_count - index,
        {
            let ghost next = (index + 1) as nat;
            match self.leaf_entry(index) {
                Err(e) => {
                    proof {
                        first_leaf_error(self@, next, header.record_count as nat, e);
                    }
                    return Err(e);
                },
                Ok(entry) => {
                    entries.push(LeafEntry::new(copy_bytes(entry.key), copy_bytes(entry.value)));
                },
            }
            index = index + 1;
        }
        Ok(entries)
    }

    pub fn leaf_search(&self, key: &[u8]) -> (r: Result<LeafSearchResult, ShuError>)
        ensures
            r == self@.leaf_search(key@),
    {
        self.assert_page_type(PageType::Leaf)?;
        if let PageOverflow::Leaf(entries) = &self.overflow {
            return match search_entries(entries, key) {
                Ok(index) => Ok(LeafSearchResult::Found(index as u16)),
                Err(index) => Ok(LeafSearchResult::Missing(index as u16)),
            };
        }
        let mut low: u16 = 0;
        let header = read_leaf_header(self)?;
        let mut high: u16 = header.record_count;
        while low < high
            invariant
                low <= high <= header.record_count,
                self@.read_leaf_header() == Ok::<LeafPageHeader, ShuError>(header),
                self@.leaf_search(key@) == self@.leaf_search_between(key@, low, high),
            decreases high - low,
        {
            let mid = (low + high) / 2;
            let entry_key = self.leaf_entry(mid)?.key;
            if bytes_eq(entry_key, key) {
                return Ok(LeafSearchResult::Found(mid));
            } else if bytes_lt(key, entry_key) {
                high = mid;
            } else {
                low = mid + 1;
            }
        }
        Ok(LeafSearchResult::Missing(low))
    }

    pub fn insert_leaf_entry(&mut self, key: &[u8], value: &[u8]) -> (r: Result<(), ShuError>)
        ensures
            (*final(self))@ == old(self)@.insert_leaf_entry(key@, value@).0,
            r == old(self)@.insert_leaf_entry(key@, value@).1,
    {
        insert_into_leaf(self, key, value)
    }

    pub fn rewrite_leaf_entries(&mut self, entries: &[LeafEntry]) -> (r: Result<(), ShuError>)
        ensures
            (*final(self))@ == old(self)@.rewrite_leaf_entries(views(entries@)).0,
            r == old(self)@.rewrite_leaf_entries(views(entries@)).1,
    {
        if !entries_ascend(entries) {
            return Err(ShuError::CorruptedPage { page_id: self.id() });
        }
        if !leaf_entries_fit(entries) {
            return Err(
                page_full(self.id(), leaf_entries_space(entries), leaf_entries_capacity()),
            );
        }
        let ghost before = self@;
        self.overflow = PageOverflow::Empty;
        init_leaf_page(self)?;
        let ghost empty = self@;
        let mut i: usize = 0;
        while i < entries.len()
            invariant
                i <= entries@.len(),
                before == old(self)@,
                empty.append_leaf_entries(views(entries@), i as nat) == (
                    self@,
                    Ok::<(), ShuError>(()),
                ),
                before.rewrite_leaf_entries(views(entries@)) == empty.append_leaf_entries(
                    views(entries@),
                    entries@.len(),
                ),
            decreases entries@.len() - i,
        {
            assert(views(entries@)[i as int] == entries@[i as int]@);
            match append_leaf_entry(self, &entries[i].key, &entries[i].value) {
                Err(e) => {
                    proof {
                        append_leaf_error(empty, views(entries@), (i + 1) as nat, entries@.len());
                    }
                    return Err(e);
                },
                Ok(done) => {
                    assert(done == ());
                },
            }
            i = i + 1;
            assert(empty.append_leaf_entries(views(entries@), i as nat) == (
                self@,
                Ok::<(), ShuError>(()),
            ));
        }
        Ok(())
    }
}

impl Page {
    pub fn internal_entry(&self, index: u16) -> (r: Result<InternalEntryRef<'_>, ShuError>)
        ensures
            match self@.internal_entry(index) {
                Ok(cell) => r matches Ok(found) && found@ == cell,
                Err(e) => r == Err::<InternalEntryRef<'_>, ShuError>(e),
            },
    {
        read_internal_entry(self, index)
    }

    pub fn internal_entries(&self) -> (r: Result<InternalEntries, ShuError>)
        ensures
            match self@.internal_entries() {
                Ok(node) => r matches Ok(entries) && entries@ == node,
                Err(e) => r == Err::<InternalEntries, ShuError>(e),
            },
    {
        if let PageOverflow::Internal(entries) = &self.overflow {
            return Ok(entries.duplicate());
        }
        let header = read_internal_header(self)?;
        let mut entries: Vec<InternalEntry> = Vec::new();
        let mut index: u16 = 0;
        assert(views(entries@) =~= Seq::<InternalCell>::empty());
        while index < header.record_count
            invariant
                index <= header.record_count,
                self@.read_internal_header() == Ok::<InternalPageHeader, ShuError>(header),
                self@.overflow !is Internal,
                self@.first_internal_entries(index as nat) == Ok::<Seq<InternalCell>, ShuError>(
                    views(entries@),
                ),
            decreases header.record_count - index,
        {
            let ghost next = (index + 1) as nat;
            match self.internal_entry(index) {
                Err(e) => {
                    proof {
                        first_internal_error(self@, next, header.record_count as nat, e);
                    }
                    return Err(e);
                },
                Ok(entry) => {
                    entries.push(InternalEntry::new(entry.child, copy_bytes(entry.separator)));
                },
            }
            index = index + 1;
        }
        Ok(InternalEntries::new(entries, header.right_child))
    }

    pub fn append_internal_entry(&mut self, entry: &InternalEntry) -> (r: Result<(), ShuError>)
        ensures
            (*final(self))@ == old(self)@.append_internal_entry(entry@).0,
            r == old(self)@.append_internal_entry(entry@).1,
    {
        append_internal_cell(self, entry.child, &entry.separator)
    }

    pub fn insert_internal_entry(&mut self, index: u16, entry: &InternalEntry) -> (r: Result<
        (),
        ShuError,
    >)
        ensures
            (*final(self))@ == old(self)@.insert_internal_entry(index, entry@).0,
            r == old(self)@.insert_internal_entry(index, entry@).1,
    {
        insert_internal_cell(self, index, entry.child, &entry.separator)
    }

    pub fn rewrite_internal_entries(&mut self, entries: &InternalEntries) -> (r: Result<
        (),
        ShuError,
    >)
        ensures
            (*final(self))@ == old(self)@.rewrite_internal_entries(entries@).0,
            r == old(self)@.rewrite_internal_entries(entries@).1,
    {
        if !internal_entries_fit(entries) {
            self.overflow = PageOverflow::Internal(entries.duplicate());
            return Ok(());
        }
        let ghost before = self@;
        let ghost cells = entries@.cells;
        self.overflow = PageOverflow::Empty;
        init_internal_page(self)?;
        let ghost empty = self@;
        let mut i: usize = 0;
        while i < entries.entries.len()
            invariant
                i <= entries.entries@.len(),
                before == old(self)@,
                cells == entries@.cells,
                empty.append_internal_entries(cells, i as nat) == (self@, Ok::<(), ShuError>(())),
                before.rewrite_internal_entries(entries@) == ({
                    let (page, result) = empty.append_internal_entries(cells, cells.len());
                    if result is Err {
                        (page, result)
                    } else {
                        page.set_right_child(entries.right_child)
                    }
                }),
            decreases entries.entries@.len() - i,
        {
            assert(cells[i as int] == entries.entries@[i as int]@);
            match self.append_internal_entry(&entries.entries[i]) {
                Err(e) => {
                    proof {
                        append_internal_error(empty, cells, (i + 1) as nat, cells.len());
                    }
                    return Err(e);
                },
                Ok(done) => {
                    assert(done == ());
                },
            }
            i = i + 1;
            assert(empty.append_internal_entries(cells, i as nat) == (
                self@,
                Ok::<(), ShuError>(()),
            ));
        }
        self.set_right_child(entries.right_child)
    }

    pub fn child_index_for_key(&self, key: &[u8]) -> (r: Result<u16, ShuError>)
        ensures
            r == self@.child_index_for_key(key@),
    {
        let mut low: u16 = 0;
        let header = read_internal_header(self)?;
        let mut high: u16 = header.record_count;
        while low < high
            invariant
                low <= high <= header.record_count,
                self@.read_internal_header() == Ok::<InternalPageHeader, ShuError>(header),
                self@.child_index_for_key(key@) == self@.child_index_between(key@, low, high),
            decreases high - low,
        {
            let mid = low + (high - low) / 2;
            let separator = self.internal_entry(mid)?.separator;
            proof {
                lex_lt_total(key@, separator@);
            }
            if !bytes_lt(separator, key) {
                high = mid;
            } else {
                low = mid + 1;
            }
        }
        Ok(low)
    }

    pub fn child_at(&self, child_index: u16) -> (r: Result<PageId, ShuError>)
        ensures
            r == self@.child_at(child_index),
    {
        let header = read_internal_header(self)?;
        if child_index < header.record_count {
            return Ok(self.internal_entry(child_index)?.child);
        }
        if child_index == header.record_count {
            return Ok(header.right_child);
        }
        Err(ShuError::IndexOutOfRange)
    }

    pub fn set_right_child(&mut self, child: PageId) -> (r: Result<(), ShuError>)
        ensures
            (*final(self))@ == old(self)@.set_right_child(child).0,
            r == old(self)@.set_right_child(child).1,
    {
        let mut header = read_internal_header(self)?;
        header.right_child = child;
        write_internal_header(self, &header)
    }
}

/// Whether no entry comes after one with a smaller key.
fn entries_ascend(entries: &[LeafEntry]) -> (r: bool)
    ensures
        r == keys_ascend(views(entries@)),
{
    let ghost cells = views(entries@);
    if entries.len() == 0 {
        return true;
    }
    let mut i: usize = 1;
    while i < entries.len()
        invariant
            1 <= i <= entries@.len(),
            cells == views(entries@),
            forall|a: int, b: int|
                0 <= a < b < i ==> lex_le(#[trigger] cells[a].key, #[trigger] cells[b].key),
        decreases entries@.len() - i,
    {
        proof {
            lex_lt_total(cells[i as int].key, cells[i - 1].key);
        }
        if bytes_lt(&entries[i].key, &entries[i - 1].key) {
            return false;
        }
        assert forall|a: int| 0 <= a < i implies lex_le(
            #[trigger] cells[a].key,
            cells[i as int].key,
        ) by {
            if a < i - 1 && lex_lt(cells[a].key, cells[i - 1].key) && lex_lt(
                cells[i - 1].key,
                cells[i as int].key,
            ) {
                lex_lt_transitive(
                    cells[a].key,
                    cells[i - 1].key,
                    cells[i as int].key,
                );
            }
        }
        i = i + 1;
    }
    true
}

/// An error among the first records is the error of reading all of them.
proof fn first_leaf_error(page: PageModel, m: nat, n: nat, e: ShuError)
    requires
        m <= n,
        page.first_leaf_entries(m) == Err::<Seq<LeafCell>, ShuError>(e),
    ensures
        page.first_leaf_entries(n) == Err::<Seq<LeafCell>, ShuError>(e),
    decreases n,
{
    if m < n {
        first_leaf_error(page, m, (n - 1) as nat, e);
    }
}

/// Where one of the first records cannot be appended, none behind it is.
proof fn append_leaf_error(page: PageModel, cells: Seq<LeafCell>, m: nat, n: nat)
    requires
        m <= n,
        page.append_leaf_entries(cells, m).1 is Err,
    ensures
        page.append_leaf_entries(cells, n) == page.append_leaf_entries(cells, m),
    decreases n,
{
    if m < n {
        append_leaf_error(page, cells, m, (n - 1) as nat);
    }
}

/// An error among the first records is the error of reading all of them.
proof fn first_internal_error(page: PageModel, m: nat, n: nat, e: ShuError)
    requires
        m <= n,
        page.first_internal_entries(m) == Err::<Seq<InternalCell>, ShuError>(e),
    ensures
        page.first_internal_entries(n) == Err::<Seq<InternalCell>, ShuError>(e),
    decreases n,
{
    if m < n {
        first_internal_error(page, m, (n - 1) as nat, e);
    }
}

/// Where one of the first records cannot be appended, none behind it is.
proof fn append_internal_error(page: PageModel, cells: Seq<InternalCell>, m: nat, n: nat)
    requires
        m <= n,
        page.append_internal_entries(cells, m).1 is Err,
    ensures
        page.append_internal_entries(cells, n) == page.append_internal_entries(cells, m),
    decreases n,
{
    if m < n {
        append_internal_error(page, cells, m, (n - 1) as nat);
    }
}

} // verus!
