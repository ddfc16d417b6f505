//! The record on the meta page that describes the database.
use crate::error::ShuError;
use crate::storage::codec::{read_u32_in, u32_bytes_in, u32_in, u32_round_trip_in, write_u32_in};
use crate::storage::codec::{ByteOrder, Record};
use crate::storage::page::{splice, Page, PageId, PageModel, PageType, BODY_SIZE};
use vstd::prelude::*;

verus! {

/// The number of the root page of a new database.
pub const INITIAL_ROOT_PAGE_ID: u32 = 1;

/// The head of the list of free pages of a new database.
pub const FREELIST_DEFAULT: u32 = 0;

/// The bytes of a database header.
pub const DATABASE_HEADER_SIZE: usize = 16;

/// What the meta page says of the database.
#[derive(Clone, Copy, Debug, Default)]
pub struct DatabaseHeader {
    pub root_page_id: PageId,
    pub page_count: u32,
    pub freelist_head: u32,
    pub _reserved: [u8; 4],
}

impl Record for DatabaseHeader {
    open spec fn spec_len() -> nat {
        DATABASE_HEADER_SIZE as nat
    }

    open spec fn to_bytes(&self, order: ByteOrder) -> Seq<u8> {
        u32_bytes_in(order, self.root_page_id.0) + u32_bytes_in(order, self.page_count)
            + u32_bytes_in(order, self.freelist_head) + self._reserved@
    }

    open spec fn from_bytes(order: ByteOrder, b: Seq<u8>) -> Self {
        DatabaseHeader {
            root_page_id: PageId(u32_in(order, b.subrange(0, 4))),
            page_count: u32_in(order, b.subrange(4, 8)),
            freelist_head: u32_in(order, b.subrange(8, 12)),
            _reserved: [b[12], b[13], b[14], b[15]],
        }
    }

    proof fn round_trip(&self, order: ByteOrder) {
        let b = self.to_bytes(order);
        u32_round_trip_in(order, self.root_page_id.0, b);
        u32_round_trip_in(order, self.page_count, b);
        u32_round_trip_in(order, self.freelist_head, b);
        assert(b.subrange(0, 4) =~= u32_bytes_in(order, self.root_page_id.0));
        assert(b.subrange(4, 8) =~= u32_bytes_in(order, self.page_count));
        assert(b.subrange(8, 12) =~= u32_bytes_in(order, self.freelist_head));
        assert(Self::from_bytes(order, b)._reserved =~= self._reserved);
    }

    fn record_len() -> (n: usize) {
        DATABASE_HEADER_SIZE
    }

    fn encode(&self, order: ByteOrder) -> (b: Vec<u8>) {
        let mut b = write_u32_in(order, self.root_page_id.0);
        let mut count = write_u32_in(order, self.page_count);
        b.append(&mut count);
        let mut freelist = write_u32_in(order, self.freelist_head);
        b.append(&mut freelist);
        b.extend_from_slice(&self._reserved);
        assert(b@ =~= self.to_bytes(order));
        b
    }

    fn decode(order: ByteOrder, b: &[u8]) -> (r: Self) {
        let r = DatabaseHeader {
            root_page_id: PageId(read_u32_in(order, b, 0)),
            page_count: read_u32_in(order, b, 4),
            freelist_head: read_u32_in(order, b, 8),
            _reserved: [b[12], b[13], b[14], b[15]],
        };
        assert(r._reserved =~= Self::from_bytes(order, b@)._reserved);
        r
    }
}

impl DatabaseHeader {
    /// The header is one that the meta page `page_id` can hold: there are a meta and a root
    /// page, and the root is a page of the database but not the meta page.
    pub open spec fn valid(self, page_id: PageId) -> bool {
        &&& self.page_count >= 2
        &&& self.root_page_id != page_id
        &&& self.root_page_id.0 < self.page_count
    }

    pub fn read_from(page: &Page) -> (r: Result<Self, ShuError>)
        ensures
            r == page@.database_header(),
    {
        let page_id = page.id();
        if page.page_type()? != PageType::Meta {
            return Err(ShuError::CorruptedPage { page_id });
        }
        let header = page.read_body_prefix::<Self>()?;
        header.validate(page_id)?;
        Ok(header)
    }

    pub fn write_to(&self, page: &mut Page) -> (r: Result<(), ShuError>)
        ensures
            (*final(page))@ == old(page)@.write_database_header(*self).0,
            r == old(page)@.write_database_header(*self).1,
    {
        let page_id = page.id();
        if page.page_type()? != PageType::Meta {
            return Err(ShuError::CorruptedPage { page_id });
        }
        self.validate(page_id)?;
        page.write_body_prefix(self)?;
        Ok(())
    }

    pub fn validate(&self, page_id: PageId) -> (r: Result<(), ShuError>)
        ensures
            r == if self.valid(page_id) {
                Ok(())
            } else {
                Err::<(), ShuError>(ShuError::CorruptedPage { page_id })
            },
    {
        if self.page_count < 2 {
            return Err(ShuError::CorruptedPage { page_id });
        }
        if self.root_page_id == page_id {
            return Err(ShuError::CorruptedPage { page_id });
        }
        if self.root_page_id.get() >= self.page_count {
            return Err(ShuError::CorruptedPage { page_id });
        }
        Ok(())
    }
}

impl PageModel {
    /// The database header that a meta page holds.
    pub open spec fn database_header(self) -> Result<DatabaseHeader, ShuError> {
        let header = DatabaseHeader::from_bytes(
            self.order,
            self.body.subrange(0, DATABASE_HEADER_SIZE as int),
        );
        match self.page_type() {
            Err(e) => Err(e),
            Ok(page_type) => if page_type == PageType::Meta && header.valid(self.id()) {
                Ok(header)
            } else {
                Err(ShuError::CorruptedPage { page_id: self.id() })
            },
        }
    }

    /// A meta page after a database header is written to it, and whether it was.
    pub open spec fn write_database_header(self, header: DatabaseHeader) -> (
        PageModel,
        Result<(), ShuError>,
    ) {
        match self.page_type() {
            Err(e) => (self, Err(e)),
            Ok(page_type) => if page_type == PageType::Meta && header.valid(self.id()) {
                (self.with_body(splice(self.body, 0, header.to_bytes(self.order))), Ok(()))
            } else {
                (self, Err(ShuError::CorruptedPage { page_id: self.id() }))
            },
        }
    }
}

/// A header that was written to a meta page is the one read from it.
pub proof fn written_header_reads_back(page: PageModel, header: DatabaseHeader)
    requires
        page.body.len() == BODY_SIZE,
        page.write_database_header(header).1 is Ok,
    ensures
        page.write_database_header(header).0.database_header() == Ok::<DatabaseHeader, ShuError>(
            header,
        ),
{
    header.round_trip(page.order);
    let bytes = header.to_bytes(page.order);
    assert(splice(page.body, 0, bytes).subrange(0, DATABASE_HEADER_SIZE as int) =~= bytes);
}

} // verus!
