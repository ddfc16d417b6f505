//! Pages: a header and a body of bytes, with bounds-checked access to the body.
use std::ops::Range;

use crate::error::ShuError;
use crate::storage::btree_page::{copy_leaf_entries, InternalEntries, LeafEntry};
use crate::storage::codec::{le_u16, machine_order, read_u16, read_u32_in, u16_bytes, u32_bytes_in};
use crate::storage::codec::{u32_in, u32_round_trip_in, write_u16, write_u32_in, ByteOrder, Record};
use crate::storage::model::{views, InternalNode, LeafCell};
use vstd::prelude::*;
use vstd::slice::slice_subrange;

verus! {

/// The bytes of a page.
pub const PAGE_SIZE: usize = 4096;

/// The bytes of a page that its header takes.
pub const HEADER_SIZE: usize = 16;

/// The bytes of a page that are left for its body.
pub const BODY_SIZE: usize = PAGE_SIZE - HEADER_SIZE;

/// The number of a page.
#[derive(Clone, Copy, Debug, Default, PartialEq, Eq, PartialOrd, Ord, Hash, Structural)]
pub struct PageId(pub u32);

impl PageId {
    pub fn new(value: u32) -> (r: Self)
        ensures
            r == PageId(value),
    {
        PageId(value)
    }

    pub fn get(self) -> (r: u32)
        ensures
            r == self.0,
    {
        self.0
    }

    pub fn as_u64(self) -> (r: u64)
        ensures
            r == self.0,
    {
        self.0 as u64
    }
}

/// What a page is used for.
#[derive(Clone, Copy, Debug, PartialEq, Eq, Structural)]
pub enum PageType {
    /// The page that describes the database.
    Meta,
    /// A page of separator keys and child pages.
    Internal,
    /// A page of keys and values.
    Leaf,
}

impl PageType {
    /// The byte that stands for a page type.
    pub open spec fn byte(self) -> u8 {
        match self {
            PageType::Meta => 1,
            PageType::Internal => 2,
            PageType::Leaf => 3,
        }
    }

    /// The page type that a byte stands for.
    pub open spec fn of_byte(b: u8) -> Result<PageType, ShuError> {
        if b == 1 {
            Ok(PageType::Meta)
        } else if b == 2 {
            Ok(PageType::Internal)
        } else if b == 3 {
            Ok(PageType::Leaf)
        } else {
            Err(ShuError::InvalidPageType)
        }
    }
}

impl TryFrom<u8> for PageType {
    type Error = ShuError;

    fn try_from(value: u8) -> (r: Result<Self, ShuError>) {
        match value {
            1 => Ok(PageType::Meta),
            2 => Ok(PageType::Internal),
            3 => Ok(PageType::Leaf),
            _ => Err(ShuError::InvalidPageType),
        }
    }
}

impl vstd::std_specs::convert::TryFromSpecImpl<u8> for PageType {
    open spec fn obeys_try_from_spec() -> bool {
        true
    }

    open spec fn try_from_spec(v: u8) -> Result<Self, ShuError> {
        PageType::of_byte(v)
    }
}

impl From<PageType> for u8 {
    fn from(value: PageType) -> (r: Self) {
        match value {
            PageType::Meta => 1,
            PageType::Internal => 2,
            PageType::Leaf => 3,
        }
    }
}

impl vstd::std_specs::convert::FromSpecImpl<PageType> for u8 {
    open spec fn obeys_from_spec() -> bool {
        true
    }

    open spec fn from_spec(v: PageType) -> Self {
        v.byte()
    }
}

/// The header of a page.
#[derive(Clone, Copy, Debug)]
pub struct PageHeader {
    pub page_id: PageId,
    pub page_type: u8,
    pub _reserved: [u8; 3],
    pub checksum: u32,
    pub _reserved2: [u8; 4],
}

impl Record for PageHeader {
    open spec fn spec_len() -> nat {
        HEADER_SIZE as nat
    }

    open spec fn to_bytes(&self, order: ByteOrder) -> Seq<u8> {
        u32_bytes_in(order, self.page_id.0) + seq![self.page_type] + self._reserved@
            + u32_bytes_in(order, self.checksum) + self._reserved2@
    }

    open spec fn from_bytes(order: ByteOrder, b: Seq<u8>) -> Self {
        PageHeader {
            page_id: PageId(u32_in(order, b.subrange(0, 4))),
            page_type: b[4],
            _reserved: [b[5], b[6], b[7]],
            checksum: u32_in(order, b.subrange(8, 12)),
            _reserved2: [b[12], b[13], b[14], b[15]],
        }
    }

    proof fn round_trip(&self, order: ByteOrder) {
        let b = self.to_bytes(order);
        u32_round_trip_in(order, self.page_id.0, b);
        u32_round_trip_in(order, self.checksum, b);
        assert(b.subrange(0, 4) =~= u32_bytes_in(order, self.page_id.0));
        assert(b.subrange(8, 12) =~= u32_bytes_in(order, self.checksum));
        let r = Self::from_bytes(order, b);
        assert(r._reserved =~= self._reserved);
        assert(r._reserved2 =~= self._reserved2);
    }

    fn record_len() -> (n: usize) {
        HEADER_SIZE
    }

    fn encode(&self, order: ByteOrder) -> (b: Vec<u8>) {
        let mut b = write_u32_in(order, self.page_id.0);
        b.push(self.page_type);
        b.extend_from_slice(&self._reserved);
        let mut checksum = write_u32_in(order, self.checksum);
        b.append(&mut checksum);
        b.extend_from_slice(&self._reserved2);
        assert(b@ =~= self.to_bytes(order));
        b
    }

    fn decode(order: ByteOrder, b: &[u8]) -> (r: Self) {
        let r = PageHeader {
            page_id: PageId(read_u32_in(order, b, 0)),
            page_type: b[4],
            _reserved: [b[5], b[6], b[7]],
            checksum: read_u32_in(order, b, 8),
            _reserved2: [b[12], b[13], b[14], b[15]],
        };
        assert(r._reserved =~= Self::from_bytes(order, b@)._reserved);
        assert(r._reserved2 =~= Self::from_bytes(order, b@)._reserved2);
        r
    }
}

/// Records that were given to a page and do not fit its body.
#[derive(Debug)]
pub enum PageOverflow {
    Empty,
    Leaf(Vec<LeafEntry>),
    Internal(InternalEntries),
}

/// What an overflow holds.
#[verifier::ext_equal]
pub enum Overflow {
    Empty,
    Leaf(Seq<LeafCell>),
    Internal(InternalNode),
}

impl View for PageOverflow {
    type V = Overflow;

    open spec fn view(&self) -> Overflow {
        match self {
            PageOverflow::Empty => Overflow::Empty,
            PageOverflow::Leaf(entries) => Overflow::Leaf(views(entries@)),
            PageOverflow::Internal(entries) => Overflow::Internal(entries@),
        }
    }
}

impl PageOverflow {
    /// A copy.
    pub fn duplicate(&self) -> (r: Self)
        ensures
            r@ == self@,
    {
        match self {
            PageOverflow::Empty => PageOverflow::Empty,
            PageOverflow::Leaf(entries) => PageOverflow::Leaf(copy_leaf_entries(entries)),
            PageOverflow::Internal(entries) => PageOverflow::Internal(entries.duplicate()),
        }
    }
}

/// A page in memory: the header, the body, and what does not fit the body. The numbers of the
/// headers and the child ids stand in the body in the page's byte order.
pub struct Page {
    pub order: ByteOrder,
    pub header: PageHeader,
    pub body: [u8; BODY_SIZE],
    pub overflow: PageOverflow,
}

/// What a page holds.
#[verifier::ext_equal]
pub struct PageModel {
    pub order: ByteOrder,
    pub header: PageHeader,
    pub body: Seq<u8>,
    pub overflow: Overflow,
}

impl View for Page {
    type V = PageModel;

    open spec fn view(&self) -> PageModel {
        PageModel {
            order: self.order,
            header: self.header,
            body: self.body@,
            overflow: self.overflow@,
        }
    }
}

/// `body` with `bytes` written at `at`.
pub open spec fn splice(body: Seq<u8>, at: int, bytes: Seq<u8>) -> Seq<u8> {
    Seq::new(
        body.len(),
        |i: int|
            if at <= i < at + bytes.len() {
                bytes[i - at]
            } else {
                body[i]
            },
    )
}

/// A page of zeros but for its type and id.
pub open spec fn blank_page(order: ByteOrder, page_type: PageType, page_id: PageId) -> PageModel {
    PageModel {
        order,
        header: PageHeader {
            page_id,
            page_type: page_type.byte(),
            _reserved: [0u8, 0u8, 0u8],
            checksum: 0,
            _reserved2: [0u8, 0u8, 0u8, 0u8],
        },
        body: Seq::new(BODY_SIZE as nat, |i: int| 0u8),
        overflow: Overflow::Empty,
    }
}

impl PageModel {
    /// The page with another body.
    pub open spec fn with_body(self, body: Seq<u8>) -> PageModel {
        PageModel { body, ..self }
    }

    /// The page with another page type.
    pub open spec fn with_page_type(self, page_type: PageType) -> PageModel {
        PageModel { header: PageHeader { page_type: page_type.byte(), ..self.header }, ..self }
    }

    /// The page id in the header.
    pub open spec fn id(self) -> PageId {
        self.header.page_id
    }

    /// The page type in the header.
    pub open spec fn page_type(self) -> Result<PageType, ShuError> {
        PageType::of_byte(self.header.page_type)
    }

    /// Whether the page is of the expected type; an error if not.
    pub open spec fn assert_page_type(self, expected: PageType) -> Result<(), ShuError> {
        if self.page_type() == Ok::<PageType, ShuError>(expected) {
            Ok(())
        } else {
            Err(ShuError::InvalidPageType)
        }
    }

    /// The error for a range outside the body.
    pub open spec fn invalid_body_range(self, start: usize, end: usize) -> ShuError {
        ShuError::InvalidBodyRange {
            page_id: self.id(),
            start,
            end,
            body_len: BODY_SIZE,
        }
    }

    /// The bytes from `start` to `end`, or an error if that is no range of the body.
    pub open spec fn read_body_bytes(self, start: usize, end: usize) -> Result<Seq<u8>, ShuError> {
        if start > end || end > BODY_SIZE {
            Err(self.invalid_body_range(start, end))
        } else {
            Ok(self.body.subrange(start as int, end as int))
        }
    }

    /// The number in the two bytes at `offset`, or an error if they are not in the body.
    pub open spec fn read_body_u16(self, offset: usize) -> Result<u16, ShuError> {
        if offset + 2 > usize::MAX {
            Err(self.invalid_body_range(offset, usize::MAX))
        } else if offset + 2 > BODY_SIZE {
            Err(self.invalid_body_range(offset, (offset + 2) as usize))
        } else {
            Ok(le_u16(self.body.subrange(offset as int, offset + 2)))
        }
    }

    /// The page after `bytes` are written to a range of the body, and whether they were.
    pub open spec fn write_body_bytes(self, start: usize, end: usize, bytes: Seq<u8>) -> (
        PageModel,
        Result<(), ShuError>,
    ) {
        if start > end || end > BODY_SIZE {
            (self, Err(self.invalid_body_range(start, end)))
        } else if end - start != bytes.len() {
            (
                self,
                Err(
                    ShuError::BodyWriteLengthMismatch {
                        page_id: self.id(),
                        range_len: (end - start) as usize,
                        bytes_len: bytes.len() as usize,
                    },
                ),
            )
        } else {
            (self.with_body(splice(self.body, start as int, bytes)), Ok(()))
        }
    }

    /// The page after a number is written to the two bytes at `offset`, and whether it was.
    pub open spec fn write_body_u16(self, offset: usize, value: u16) -> (
        PageModel,
        Result<(), ShuError>,
    ) {
        if offset + 2 > usize::MAX {
            (self, Err(self.invalid_body_range(offset, usize::MAX)))
        } else {
            self.write_body_bytes(
                offset,
                (offset + 2) as usize,
                u16_bytes(value),
            )
        }
    }

    /// The page after a range of its body is copied to `dst_start`, and whether it was.
    pub open spec fn copy_body_within(self, start: usize, end: usize, dst_start: usize) -> (
        PageModel,
        Result<(), ShuError>,
    ) {
        if start > end || end > BODY_SIZE || end - start + dst_start > usize::MAX {
            (self, Err(self.invalid_body_range(start, end)))
        } else if end - start + dst_start > BODY_SIZE {
            (
                self,
                Err(
                    ShuError::BodyWriteLengthMismatch {
                        page_id: self.id(),
                        range_len: (end - start) as usize,
                        bytes_len: dst_start,
                    },
                ),
            )
        } else {
            (
                self.with_body(
                    splice(
                        self.body,
                        dst_start as int,
                        self.body.subrange(start as int, end as int),
                    ),
                ),
                Ok(()),
            )
        }
    }

    /// The record that the first bytes of the body describe, or an error if the
    /// body is too short for one.
    pub open spec fn read_body_prefix<T: Record>(self) -> Result<T, ShuError> {
        if T::spec_len() > BODY_SIZE {
            Err(ShuError::CorruptedPage { page_id: self.id() })
        } else {
            Ok(T::from_bytes(self.order, self.body.subrange(0, T::spec_len() as int)))
        }
    }

    /// The page after a record is written to the first bytes of the body, and
    /// whether it was.
    pub open spec fn write_body_prefix<T: Record>(self, value: T) -> (
        PageModel,
        Result<(), ShuError>,
    ) {
        if T::spec_len() > BODY_SIZE {
            (self, Err(ShuError::CorruptedPage { page_id: self.id() }))
        } else {
            (self.with_body(splice(self.body, 0, value.to_bytes(self.order))), Ok(()))
        }
    }
}

/// Writes `bytes` into a body at `at`.
fn copy_into(body: &mut [u8; BODY_SIZE], at: usize, bytes: &[u8])
    requires
        at + bytes@.len() <= BODY_SIZE,
    ensures
        final(body)@ == splice(old(body)@, at as int, bytes@),
{
    let mut i: usize = 0;
    assert(body@ =~= splice(old(body)@, at as int, bytes@.take(0)));
    while i < bytes.len()
        invariant
            i <= bytes@.len(),
            at + bytes@.len() <= BODY_SIZE,
            body@ == splice(old(body)@, at as int, bytes@.take(i as int)),
        decreases bytes@.len() - i,
    {
        body[at + i] = bytes[i];
        i = i + 1;
        assert(body@ =~= splice(old(body)@, at as int, bytes@.take(i as int)));
    }
    assert(bytes@.take(i as int) =~= bytes@);
}

/// A page as it is saved: its header and its body. An overflow is not saved.
pub open spec fn page_bytes(page: PageModel) -> Seq<u8> {
    page.header.to_bytes(page.order) + page.body
}

/// The page that was saved as these bytes, in this byte order.
pub open spec fn page_of_bytes(order: ByteOrder, b: Seq<u8>) -> PageModel {
    PageModel {
        order,
        header: PageHeader::from_bytes(order, b.subrange(0, HEADER_SIZE as int)),
        body: b.subrange(HEADER_SIZE as int, PAGE_SIZE as int),
        overflow: Overflow::Empty,
    }
}

/// A page without overflow is what its bytes say in its byte order.
pub proof fn saved_page_reads_back(page: PageModel)
    requires
        page.body.len() == BODY_SIZE,
        page.overflow is Empty,
    ensures
        page_bytes(page).len() == PAGE_SIZE,
        page_of_bytes(page.order, page_bytes(page)) == page,
{
    page.header.round_trip(page.order);
    let b = page_bytes(page);
    assert(b.subrange(0, HEADER_SIZE as int) =~= page.header.to_bytes(page.order));
    assert(b.subrange(HEADER_SIZE as int, PAGE_SIZE as int) =~= page.body);
}

impl Page {
    /// The bytes to be saved.
    pub fn to_bytes(&self) -> (r: Vec<u8>)
        ensures
            r@ == page_bytes(self@),
            r@.len() == PAGE_SIZE,
    {
        let mut r = self.header.encode(self.order);
        proof {
            self.header.round_trip(self.order);
        }
        r.extend_from_slice(&self.body);
        assert(r@ =~= page_bytes(self@));
        r
    }

    /// The page that was saved as these bytes, in the machine's byte order.
    pub fn from_bytes(bytes: &[u8; PAGE_SIZE]) -> (r: Self)
        ensures
            r@ == page_of_bytes(r@.order, bytes@),
    {
        Self::from_bytes_in(machine_order(), bytes)
    }

    /// The page that was saved as these bytes, in this byte order.
    pub fn from_bytes_in(order: ByteOrder, bytes: &[u8; PAGE_SIZE]) -> (r: Self)
        ensures
            r@ == page_of_bytes(order, bytes@),
    {
        let header = PageHeader::decode(order, slice_subrange(bytes, 0, HEADER_SIZE));
        let mut body = [0u8; BODY_SIZE];
        copy_into(&mut body, 0, slice_subrange(bytes, HEADER_SIZE, PAGE_SIZE));
        let r = Page { order, header, body, overflow: PageOverflow::Empty };
        assert(r.body@ =~= bytes@.subrange(HEADER_SIZE as int, PAGE_SIZE as int));
        r
    }

    /// A page of zeros but for its type and id, in the machine's byte order.
    pub fn new(page_type: PageType, page_id: PageId) -> (r: Self)
        ensures
            r@ == blank_page(r@.order, page_type, page_id),
    {
        Self::new_in(machine_order(), page_type, page_id)
    }

    /// A page of zeros but for its type and id, in this byte order.
    pub fn new_in(order: ByteOrder, page_type: PageType, page_id: PageId) -> (r: Self)
        ensures
            r@ == blank_page(order, page_type, page_id),
    {
        let page_type: u8 = page_type.into();
        let r = Page {
            order,
            header: PageHeader {
                page_id,
                page_type,
                _reserved: [0u8, 0u8, 0u8],
                checksum: 0,
                _reserved2: [0u8, 0u8, 0u8, 0u8],
            },
            body: [0u8; BODY_SIZE],
            overflow: PageOverflow::Empty,
        };
        assert(r.body@ =~= Seq::new(BODY_SIZE as nat, |i: int| 0u8));
        r
    }

    /// A copy.
    pub fn duplicate(&self) -> (r: Self)
        ensures
            r@ == self@,
    {
        Page {
            order: self.order,
            header: self.header,
            body: self.body,
            overflow: self.overflow.duplicate(),
        }
    }

    pub fn header(&self) -> (r: &PageHeader)
        ensures
            *r == self@.header,
    {
        &self.header
    }

    pub fn header_mut(&mut self) -> (r: &mut PageHeader)
        ensures
            *r == old(self)@.header,
            final(self)@ == (PageModel { header: *final(r), ..old(self)@ }),
    {
        &mut self.header
    }

    pub fn id(&self) -> (r: PageId)
        ensures
            r == self@.id(),
    {
        self.header.page_id
    }

    pub fn page_type(&self) -> (r: Result<PageType, ShuError>)
        ensures
            r == self@.page_type(),
    {
        PageType::try_from(self.header.page_type)
    }

    /// Makes the page one of another type.
    pub fn set_page_type(&mut self, page_type: PageType)
        ensures
            final(self)@ == old(self)@.with_page_type(page_type),
    {
        self.header.page_type = page_type.into();
    }

    pub fn assert_page_type(&self, expected: PageType) -> (r: Result<(), ShuError>)
        ensures
            r == self@.assert_page_type(expected),
    {
        if self.page_type()? != expected {
            return Err(ShuError::InvalidPageType);
        }
        Ok(())
    }

    pub fn body(&self) -> (r: &[u8])
        ensures
            r@ == self@.body,
            r@.len() == BODY_SIZE,
    {
        &self.body
    }

    pub fn body_mut(&mut self) -> (r: &mut [u8])
        ensures
            r@ == old(self)@.body,
            r@.len() == BODY_SIZE,
            final(r)@.len() == BODY_SIZE,
            final(self)@ == old(self)@.with_body(final(r)@),
    {
        &mut self.body
    }

    pub fn write_body_u16(&mut self, offset: usize, value: u16) -> (r: Result<(), ShuError>)
        ensures
            (*final(self))@ == old(self)@.write_body_u16(offset, value).0,
            r == old(self)@.write_body_u16(offset, value).1,
    {
        match offset.checked_add(2) {
            Some(end) => self.write_body_bytes(offset..end, &write_u16(value)),
            None => Err(self.invalid_body_range(offset, usize::MAX)),
        }
    }

    pub fn copy_body_within(&mut self, range: Range<usize>, dst_start: usize) -> (r: Result<
        (),
        ShuError,
    >)
        ensures
            (*final(self))@ == old(self)@.copy_body_within(range.start, range.end, dst_start).0,
            r == old(self)@.copy_body_within(range.start, range.end, dst_start).1,
    {
        self.validate_body_range(&range)?;
        let range_len = range.end - range.start;
        let dst_end = match range_len.checked_add(dst_start) {
            Some(end) => end,
            None => return Err(self.invalid_body_range(range.start, range.end)),
        };
        if dst_end > self.body.len() {
            return Err(
                ShuError::BodyWriteLengthMismatch {
                    page_id: self.id(),
                    range_len,
                    bytes_len: dst_start,
                },
            );
        }
        let source = self.body;
        copy_into(&mut self.body, dst_start, &source[range.start..range.end]);
        Ok(())
    }

    pub fn write_body_bytes(&mut self, range: Range<usize>, bytes: &[u8]) -> (r: Result<
        (),
        ShuError,
    >)
        ensures
            (*final(self))@ == old(self)@.write_body_bytes(range.start, range.end, bytes@).0,
            r == old(self)@.write_body_bytes(range.start, range.end, bytes@).1,
    {
        self.validate_body_range(&range)?;
        let range_len = range.end - range.start;
        if range_len != bytes.len() {
            return Err(
                ShuError::BodyWriteLengthMismatch {
                    page_id: self.id(),
                    range_len,
                    bytes_len: bytes.len(),
                },
            );
        }
        copy_into(&mut self.body, range.start, bytes);
        Ok(())
    }

    pub fn read_body_u16(&self, offset: usize) -> (r: Result<u16, ShuError>)
        ensures
            r == self@.read_body_u16(offset),
    {
        let end = match offset.checked_add(2) {
            Some(end) => end,
            None => return Err(self.invalid_body_range(offset, usize::MAX)),
        };
        if end > self.body.len() {
            return Err(self.invalid_body_range(offset, end));
        }
        Ok(read_u16(&self.body, offset))
    }

    pub fn read_body_bytes(&self, range: Range<usize>) -> (r: Result<&[u8], ShuError>)
        ensures
            match self@.read_body_bytes(range.start, range.end) {
                Ok(bytes) => r matches Ok(found) && found@ == bytes,
                Err(e) => r == Err::<&[u8], ShuError>(e),
            },
    {
        self.validate_body_range(&range)?;
        Ok(&self.body[range.start..range.end])
    }

    pub fn validate_body_range(&self, range: &Range<usize>) -> (r: Result<(), ShuError>)
        ensures
            r == if range.start > range.end || range.end > BODY_SIZE {
                Err(self@.invalid_body_range(range.start, range.end))
            } else {
                Ok::<(), ShuError>(())
            },
    {
        if range.start > range.end || range.end > self.body.len() {
            return Err(self.invalid_body_range(range.start, range.end));
        }
        Ok(())
    }

    pub fn invalid_body_range(&self, start: usize, end: usize) -> (r: ShuError)
        ensures
            r == self@.invalid_body_range(start, end),
    {
        ShuError::InvalidBodyRange {
            page_id: self.id(),
            start,
            end,
            body_len: self.body.len(),
        }
    }

    pub fn read_body_prefix<T: Record>(&self) -> (r: Result<T, ShuError>)
        ensures
            r == self@.read_body_prefix::<T>(),
    {
        let len = T::record_len();
        if len > self.body.len() {
            return Err(ShuError::CorruptedPage { page_id: self.id() });
        }
        Ok(T::decode(self.order, &self.body[0..len]))
    }

    pub fn write_body_prefix<T: Record>(&mut self, value: &T) -> (r: Result<(), ShuError>)
        ensures
            (*final(self))@ == old(self)@.write_body_prefix(*value).0,
            r == old(self)@.write_body_prefix(*value).1,
    {
        let len = T::record_len();
        if len > self.body.len() {
            return Err(ShuError::CorruptedPage { page_id: self.id() });
        }
        proof {
            value.round_trip(self.order);
        }
        let bytes = value.encode(self.order);
        copy_into(&mut self.body, 0, &bytes);
        Ok(())
    }
}

} // verus!
