//! The pages of a database that are in memory, and the meta page that counts them.
use std::collections::HashMap;

use crate::error::ShuError;
use crate::storage::btree_page::init_leaf_page;
use crate::storage::codec::{machine_order, ByteOrder};
use crate::storage::database_laws::marked;
use crate::storage::header::{DatabaseHeader, FREELIST_DEFAULT, INITIAL_ROOT_PAGE_ID};
use crate::storage::page::{blank_page, Page, PageId, PageModel, PageType};
use crate::storage::pager_laws::same_counts;
use crate::storage::steady_laws::{added_page_is_in_order, in_one_order, steady};
use vstd::prelude::*;

verus! {

broadcast use vstd::std_specs::hash::group_hash_axioms;

/// The number of the page that holds the database header.
pub const META_PAGE_ID: u32 = 0;

/// A page in memory, and whether it was changed since it was last saved.
pub struct CachedPage {
    pub page: Page,
    pub dirty: bool,
}

/// The pages of a database that are in memory, and the byte order of new ones.
pub struct Pager {
    pub order: ByteOrder,
    pub page_count: u32,
    pub root_page_id: PageId,
    pub freelist_head: u32,
    pub pages: HashMap<u32, CachedPage>,
}

/// What a pager holds.
#[verifier::ext_equal]
pub struct PagerModel {
    pub order: ByteOrder,
    pub page_count: u32,
    pub root_page_id: PageId,
    pub freelist_head: u32,
    pub pages: Map<u32, PageModel>,
    pub dirty: Set<u32>,
}

impl View for Pager {
    type V = PagerModel;

    open spec fn view(&self) -> PagerModel {
        PagerModel {
            order: self.order,
            page_count: self.page_count,
            root_page_id: self.root_page_id,
            freelist_head: self.freelist_head,
            pages: Map::new(
                |id: u32| self.pages@.contains_key(id),
                |id: u32| self.pages@[id].page@,
            ),
            dirty: Set::new(|id: u32| self.pages@.contains_key(id) && self.pages@[id].dirty),
        }
    }
}

impl PagerModel {
    /// The page with this id: an error if there is none, or if it is not in memory.
    pub open spec fn read_page(self, page_id: PageId) -> Result<PageModel, ShuError> {
        if page_id.0 >= self.page_count {
            Err(ShuError::PageNotFound { page_id })
        } else {
            self.cached(page_id)
        }
    }

    /// The page with this id, if it is in memory.
    pub open spec fn cached(self, page_id: PageId) -> Result<PageModel, ShuError> {
        if self.pages.contains_key(page_id.0) {
            Ok(self.pages[page_id.0])
        } else {
            Err(ShuError::Io { page_id })
        }
    }

    /// The pager after a page is put into memory to be saved.
    pub open spec fn store(self, page_id: PageId, page: PageModel) -> PagerModel {
        PagerModel {
            pages: self.pages.insert(page_id.0, page),
            dirty: self.dirty.insert(page_id.0),
            ..self
        }
    }

    /// The pager after a page that is saved is put into memory.
    pub open spec fn supply(self, page_id: PageId, page: PageModel) -> PagerModel {
        PagerModel {
            pages: self.pages.insert(page_id.0, page),
            dirty: self.dirty.remove(page_id.0),
            ..self
        }
    }

    /// The pager after a page was saved.
    pub open spec fn saved(self, page_id: PageId) -> PagerModel {
        PagerModel { dirty: self.dirty.remove(page_id.0), ..self }
    }

    /// The pager after a page is written, and whether it was.
    pub open spec fn write_page(self, page_id: PageId, page: PageModel) -> (
        PagerModel,
        Result<(), ShuError>,
    ) {
        if page_id.0 >= self.page_count {
            (self, Err(ShuError::PageNotFound { page_id }))
        } else {
            (self.store(page_id, page), Ok(()))
        }
    }

    /// The pager after its counts are written to the meta page, and whether they were.
    pub open spec fn flush_meta(self) -> (PagerModel, Result<(), ShuError>) {
        match self.cached(PageId(META_PAGE_ID)) {
            Err(e) => (self, Err(e)),
            Ok(meta) => match meta.database_header() {
                Err(e) => (self, Err(e)),
                Ok(header) => {
                    let (written, result) = meta.write_database_header(
                        DatabaseHeader {
                            page_count: self.page_count,
                            root_page_id: self.root_page_id,
                            freelist_head: self.freelist_head,
                            ..header
                        },
                    );
                    if result is Err {
                        (self, result)
                    } else {
                        (self.store(PageId(META_PAGE_ID), written), Ok(()))
                    }
                },
            },
        }
    }

    /// A new page.
    pub open spec fn new_page(self, page_type: PageType) -> PageModel {
        let page = blank_page(self.order, page_type, PageId(self.page_count));
        if page_type == PageType::Leaf {
            page.init_leaf_page().0
        } else {
            page
        }
    }

    /// The pager after a page is added behind the others, and the id of the page.
    pub open spec fn allocate(self, page_type: PageType) -> (PagerModel, Result<PageId, ShuError>) {
        let page_id = PageId(self.page_count);
        let added = PagerModel {
            page_count: (self.page_count + 1) as u32,
            ..self.store(page_id, self.new_page(page_type))
        };
        let (flushed, result) = added.flush_meta();
        match result {
            Err(e) => (flushed, Err(e)),
            Ok(_) => (flushed, Ok(page_id)),
        }
    }
}

/// The header of a new database.
pub open spec fn initial_header() -> DatabaseHeader {
    DatabaseHeader {
        root_page_id: PageId(INITIAL_ROOT_PAGE_ID),
        page_count: 2,
        freelist_head: FREELIST_DEFAULT,
        _reserved: [0u8, 0u8, 0u8, 0u8],
    }
}

/// The pager of a new database in this byte order: a meta page and an empty root page, both to
/// be saved.
pub open spec fn new_database(order: ByteOrder) -> PagerModel {
    let meta = blank_page(order, PageType::Meta, PageId(META_PAGE_ID));
    let root = blank_page(order, PageType::Leaf, PageId(INITIAL_ROOT_PAGE_ID));
    PagerModel {
        order,
        page_count: 2,
        root_page_id: PageId(INITIAL_ROOT_PAGE_ID),
        freelist_head: FREELIST_DEFAULT,
        pages: map![
            META_PAGE_ID => meta.write_database_header(initial_header()).0,
            INITIAL_ROOT_PAGE_ID => root.init_leaf_page().0,
        ],
        dirty: set![META_PAGE_ID, INITIAL_ROOT_PAGE_ID],
    }
}

/// The pager of the database that a meta page describes. Only the meta page is in memory at
/// first.
pub open spec fn described(meta: PageModel) -> Result<PagerModel, ShuError> {
    match meta.database_header() {
        Err(e) => Err(e),
        Ok(header) => Ok(
            PagerModel {
                order: meta.order,
                page_count: header.page_count,
                root_page_id: header.root_page_id,
                freelist_head: header.freelist_head,
                pages: map![META_PAGE_ID => meta],
                dirty: Set::empty(),
            },
        ),
    }
}

/// The pager of the database that a meta page describes, or of a new one in this byte order if
/// there is none.
pub open spec fn opened(order: ByteOrder, meta: Option<Page>) -> Result<PagerModel, ShuError> {
    match meta {
        None => Ok(new_database(order)),
        Some(page) => described(page@),
    }
}

impl Pager {
    /// Opens the database that a meta page describes, or a new one in the machine's byte order
    /// if there is none.
    pub fn open(meta: Option<Page>) -> (r: Result<Self, ShuError>)
        ensures
            match meta {
                None => r matches Ok(found) && found@ == new_database(found@.order),
                Some(page) => match described(page@) {
                    Ok(pager) => r matches Ok(found) && found@ == pager,
                    Err(e) => r == Err::<Self, ShuError>(e),
                },
            },
            r matches Ok(found) ==> in_one_order(found@),
    {
        Self::open_in(machine_order(), meta)
    }

    /// Opens the database that a meta page describes, or a new one in this byte order if there
    /// is none.
    pub fn open_in(order: ByteOrder, meta: Option<Page>) -> (r: Result<Self, ShuError>)
        ensures
            match opened(order, meta) {
                Ok(pager) => r matches Ok(found) && found@ == pager,
                Err(e) => r == Err::<Self, ShuError>(e),
            },
            r matches Ok(found) ==> in_one_order(found@),
    {
        let mut pages: HashMap<u32, CachedPage> = HashMap::new();
        match meta {
            Some(page) => {
                let header = DatabaseHeader::read_from(&page)?;
                let order = page.order;
                let ghost meta = page@;
                pages.insert(META_PAGE_ID, CachedPage { page, dirty: false });
                let pager = Pager {
                    order,
                    page_count: header.page_count,
                    root_page_id: header.root_page_id,
                    freelist_head: header.freelist_head,
                    pages,
                };
                assert(pager@.pages =~= map![META_PAGE_ID => meta]);
                assert(pager@.dirty =~= Set::empty());
                Ok(pager)
            },
            None => {
                let mut meta_page = Page::new_in(order, PageType::Meta, PageId(META_PAGE_ID));
                let header = DatabaseHeader {
                    root_page_id: PageId(INITIAL_ROOT_PAGE_ID),
                    page_count: 2,
                    freelist_head: FREELIST_DEFAULT,
                    _reserved: [0u8, 0u8, 0u8, 0u8],
                };
                header.write_to(&mut meta_page)?;
                let ghost meta = meta_page@;
                pages.insert(META_PAGE_ID, CachedPage { page: meta_page, dirty: true });
                let root_id = PageId(INITIAL_ROOT_PAGE_ID);
                let mut root_page = Page::new_in(order, PageType::Leaf, root_id);
                init_leaf_page(&mut root_page)?;
                let ghost root = root_page@;
                pages.insert(INITIAL_ROOT_PAGE_ID, CachedPage { page: root_page, dirty: true });
                let pager = Pager {
                    order,
                    page_count: 2,
                    root_page_id: root_id,
                    freelist_head: FREELIST_DEFAULT,
                    pages,
                };
                assert(pager@.pages =~= new_database(order).pages);
                assert(pager@.dirty =~= new_database(order).dirty);
                Ok(pager)
            },
        }
    }

    pub fn root_page_id(&self) -> (r: PageId)
        ensures
            r == self@.root_page_id,
    {
        self.root_page_id
    }

    pub fn read_page(&self, page_id: PageId) -> (r: Result<Page, ShuError>)
        ensures
            match self@.read_page(page_id) {
                Ok(page) => r matches Ok(found) && found@ == page,
                Err(e) => r == Err::<Page, ShuError>(e),
            },
            page_id.0 >= self@.page_count ==> r == Err::<Page, ShuError>(
                ShuError::PageNotFound { page_id },
            ),
            page_id.0 < self@.page_count && self@.pages.contains_key(page_id.0) ==> (r matches Ok(
                found,
            ) && found@ == self@.pages[page_id.0]),
            page_id.0 < self@.page_count && !self@.pages.contains_key(page_id.0) ==> r == Err::<
                Page,
                ShuError,
            >(ShuError::Io { page_id }),
    {
        if page_id.get() >= self.page_count {
            return Err(ShuError::PageNotFound { page_id });
        }
        self.read_cached(page_id)
    }

    /// A copy of a page in memory.
    fn read_cached(&self, page_id: PageId) -> (r: Result<Page, ShuError>)
        ensures
            match self@.cached(page_id) {
                Ok(page) => r matches Ok(found) && found@ == page,
                Err(e) => r == Err::<Page, ShuError>(e),
            },
    {
        match self.pages.get(&page_id.0) {
            Some(cached) => Ok(cached.page.duplicate()),
            None => Err(ShuError::Io { page_id }),
        }
    }

    /// Puts a page into memory, to be saved.
    pub fn store(&mut self, page_id: PageId, page: Page)
        ensures
            final(self)@ == old(self)@.store(page_id, page@),
            same_counts(old(self)@, final(self)@),
            final(self)@.pages == old(self)@.pages.insert(page_id.0, page@),
            final(self)@.dirty == old(self)@.dirty.insert(page_id.0),
    {
        let ghost goal = self@.store(page_id, page@);
        self.pages.insert(page_id.0, CachedPage { page, dirty: true });
        assert(self@.pages =~= goal.pages);
        assert(self@.dirty =~= goal.dirty);
    }

    /// Puts a page into memory that was read from where it is saved.
    pub fn supply(&mut self, page_id: PageId, page: Page)
        ensures
            final(self)@ == old(self)@.supply(page_id, page@),
            same_counts(old(self)@, final(self)@),
            final(self)@.pages == old(self)@.pages.insert(page_id.0, page@),
            final(self)@.dirty == old(self)@.dirty.remove(page_id.0),
    {
        let ghost goal = self@.supply(page_id, page@);
        self.pages.insert(page_id.0, CachedPage { page, dirty: false });
        assert(self@.pages =~= goal.pages);
        assert(self@.dirty =~= goal.dirty);
    }

    /// The next page, from `from` on, that is to be saved.
    pub fn next_dirty(&self, from: PageId) -> (r: Option<PageId>)
        ensures
            match r {
                Some(id) => {
                    &&& from.0 <= id.0 < self@.page_count
                    &&& self@.dirty.contains(id.0)
                    &&& forall|k: u32| from.0 <= k < id.0 ==> !#[trigger] self@.dirty.contains(k)
                },
                None => forall|k: u32|
                    from.0 <= k < self@.page_count ==> !#[trigger] self@.dirty.contains(k),
            },
    {
        let mut id: u32 = from.0;
        while id < self.page_count
            invariant
                from.0 <= id,
                from.0 <= self.page_count ==> id <= self.page_count,
                forall|k: u32| from.0 <= k < id ==> !#[trigger] self@.dirty.contains(k),
            decreases self.page_count - id,
        {
            match self.pages.get(&id) {
                Some(cached) => {
                    if cached.dirty {
                        return Some(PageId(id));
                    }
                },
                None => {},
            }
            id = id + 1;
        }
        None
    }

    /// Notes that a page was saved.
    pub fn mark_saved(&mut self, page_id: PageId)
        ensures
            final(self)@ == old(self)@.saved(page_id),
            same_counts(old(self)@, final(self)@),
            final(self)@.pages == old(self)@.pages,
            final(self)@.dirty == old(self)@.dirty.remove(page_id.0),
    {
        let ghost goal = self@.saved(page_id);
        match self.pages.remove(&page_id.0) {
            Some(cached) => {
                self.pages.insert(page_id.0, CachedPage { page: cached.page, dirty: false });
            },
            None => {},
        }
        assert(self@.pages =~= goal.pages);
        assert(self@.dirty =~= goal.dirty);
    }

    pub fn write_page(&mut self, page_id: PageId, page: &Page) -> (r: Result<(), ShuError>)
        ensures
            final(self)@ == old(self)@.write_page(page_id, page@).0,
            r == old(self)@.write_page(page_id, page@).1,
            same_counts(old(self)@, final(self)@),
            page_id.0 < old(self)@.page_count ==> {
                &&& r == Ok::<(), ShuError>(())
                &&& final(self)@.pages == old(self)@.pages.insert(page_id.0, page@)
                &&& final(self)@.dirty == old(self)@.dirty.insert(page_id.0)
            },
            page_id.0 >= old(self)@.page_count ==> {
                &&& r == Err::<(), ShuError>(ShuError::PageNotFound { page_id })
                &&& final(self)@ == old(self)@
            },
    {
        if page_id.get() >= self.page_count {
            return Err(ShuError::PageNotFound { page_id });
        }
        self.store(page_id, page.duplicate());
        Ok(())
    }

    /// Adds a page behind the others.
    pub fn allocate(&mut self, page_type: PageType) -> (r: Result<PageId, ShuError>)
        requires
            old(self)@.page_count < u32::MAX,
        ensures
            final(self)@ == old(self)@.allocate(page_type).0,
            r == old(self)@.allocate(page_type).1,
            steady(old(self)@, final(self)@),
            marked(old(self)@, final(self)@),
            final(self)@.page_count == old(self)@.page_count + 1,
            r matches Ok(page_id) ==> page_id == PageId(old(self)@.page_count),
    {
        proof {
            added_page_is_in_order(self@, page_type);
        }
        let page_id = PageId::new(self.page_count);
        let mut page = Page::new_in(self.order, page_type, page_id);
        if page_type == PageType::Leaf {
            init_leaf_page(&mut page)?;
        }
        self.store(page_id, page);
        self.page_count = self.page_count + 1;
        self.flush_meta()?;
        Ok(page_id)
    }

    /// Writes the counts to the meta page.
    pub fn flush_meta(&mut self) -> (r: Result<(), ShuError>)
        ensures
            final(self)@ == old(self)@.flush_meta().0,
            r == old(self)@.flush_meta().1,
    {
        let mut meta_page = self.read_cached(PageId(META_PAGE_ID))?;
        let mut header = DatabaseHeader::read_from(&meta_page)?;
        header.page_count = self.page_count;
        header.root_page_id = self.root_page_id;
        header.freelist_head = self.freelist_head;
        header.write_to(&mut meta_page)?;
        self.store(PageId(META_PAGE_ID), meta_page);
        Ok(())
    }
}

} // verus!
