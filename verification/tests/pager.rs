use shudb::error::ShuError;
use shudb::storage::btree_page::init_leaf_page;
use shudb::storage::header::{DatabaseHeader, FREELIST_DEFAULT, INITIAL_ROOT_PAGE_ID};
use shudb::storage::page::{Page, PageId, PageType, PAGE_SIZE};
use shudb::storage::pager::{Pager, META_PAGE_ID};

fn saved(page: &Page) -> Page {
    let bytes: [u8; PAGE_SIZE] = page.to_bytes().try_into().unwrap();
    Page::from_bytes(&bytes)
}

#[test]
fn new_database_has_meta_and_root_pages() {
    let pager = Pager::open(None).unwrap();
    assert_eq!(pager.page_count, 2);
}

#[test]
fn meta_page_has_correct_type() {
    let pager = Pager::open(None).unwrap();
    let meta = pager.read_page(PageId::new(0)).unwrap();
    assert_eq!(meta.header().page_id, PageId::new(0));
    assert_eq!(meta.header().page_type, u8::from(PageType::Meta));
}

#[test]
fn root_page_has_correct_type() {
    let pager = Pager::open(None).unwrap();
    let root = pager
        .read_page(PageId::new(INITIAL_ROOT_PAGE_ID))
        .unwrap();
    assert_eq!(root.header().page_id, PageId::new(INITIAL_ROOT_PAGE_ID));
    assert_eq!(root.header().page_type, u8::from(PageType::Leaf));
}

#[test]
fn meta_page_stores_root_page_id() {
    let pager = Pager::open(None).unwrap();
    let meta = pager.read_page(PageId::new(META_PAGE_ID)).unwrap();
    let header = DatabaseHeader::read_from(&meta).unwrap();

    assert_eq!(header.root_page_id, PageId::new(INITIAL_ROOT_PAGE_ID));
    assert_eq!(header.page_count, 2);
}

#[test]
fn allocate_increments_page_count() {
    let mut pager = Pager::open(None).unwrap();
    let id1 = pager.allocate(PageType::Leaf).unwrap();
    let id2 = pager.allocate(PageType::Leaf).unwrap();

    assert_eq!(id1, PageId::new(2));
    assert_eq!(id2, PageId::new(3));
    assert_eq!(pager.page_count, 4);

    let page = pager.read_page(id2).unwrap();
    assert_eq!(page.header().page_id, id2);
}

#[test]
fn write_and_read_back() {
    let mut pager = Pager::open(None).unwrap();
    let id = pager.allocate(PageType::Leaf).unwrap();

    let mut page = pager.read_page(id).unwrap();
    page.body_mut()[..5].copy_from_slice(b"hello");
    pager.write_page(id, &page).unwrap();

    let page2 = pager.read_page(id).unwrap();
    assert_eq!(&page2.body()[..5], b"hello");
}

#[test]
fn reopen_preserves_state() {
    let meta = {
        let mut pager = Pager::open(None).unwrap();
        pager.allocate(PageType::Leaf).unwrap();
        pager.allocate(PageType::Internal).unwrap();
        saved(&pager.read_page(PageId::new(META_PAGE_ID)).unwrap())
    };

    let pager = Pager::open(Some(meta)).unwrap();
    assert_eq!(pager.page_count, 4); // meta + root + 2 allocated
}

#[test]
fn new_database_has_an_empty_freelist() {
    let pager = Pager::open(None).unwrap();
    let meta = pager.read_page(PageId::new(META_PAGE_ID)).unwrap();
    let header = DatabaseHeader::read_from(&meta).unwrap();
    assert_eq!(header.freelist_head, FREELIST_DEFAULT);
    assert_eq!(pager.root_page_id(), PageId::new(1));
}

#[test]
fn reopened_pager_has_only_the_meta_page_in_memory() {
    let first = Pager::open(None).unwrap();
    let meta = saved(&first.read_page(PageId::new(0)).unwrap());
    let mut pager = Pager::open(Some(meta)).unwrap();

    assert!(pager.read_page(PageId::new(0)).is_ok());
    assert_eq!(
        pager.read_page(PageId::new(1)).err(),
        Some(ShuError::Io {
            page_id: PageId::new(1)
        })
    );

    pager.supply(PageId::new(1), first.read_page(PageId::new(1)).unwrap());
    assert_eq!(
        pager.read_page(PageId::new(1)).unwrap().page_type(),
        Ok(PageType::Leaf)
    );
}

#[test]
fn pages_past_the_count_are_not_found() {
    let mut pager = Pager::open(None).unwrap();
    let id = PageId::new(2);
    let page = Page::new(PageType::Leaf, id);

    assert_eq!(
        pager.read_page(id).err(),
        Some(ShuError::PageNotFound { page_id: id })
    );
    assert_eq!(
        pager.write_page(id, &page),
        Err(ShuError::PageNotFound { page_id: id })
    );
}

#[test]
fn open_rejects_a_page_that_is_no_meta_page() {
    let page = Page::new(PageType::Leaf, PageId::new(0));
    assert_eq!(
        Pager::open(Some(page)).err(),
        Some(ShuError::CorruptedPage {
            page_id: PageId::new(0)
        })
    );
}

#[test]
fn allocated_leaf_page_is_initialized_and_internal_page_is_blank() {
    let mut pager = Pager::open(None).unwrap();
    let leaf = pager.allocate(PageType::Leaf).unwrap();
    let internal = pager.allocate(PageType::Internal).unwrap();

    let leaf = pager.read_page(leaf).unwrap();
    assert_eq!(leaf.leaf_entries().unwrap().len(), 0);
    let mut expected = Page::new(PageType::Leaf, PageId::new(2));
    init_leaf_page(&mut expected).unwrap();
    assert_eq!(leaf.to_bytes(), expected.to_bytes());

    let internal = pager.read_page(internal).unwrap();
    assert!(internal.body().iter().all(|byte| *byte == 0));
    assert_eq!(
        internal.internal_entries().err(),
        Some(ShuError::CorruptedPage {
            page_id: PageId::new(3)
        })
    );
}

#[test]
fn flush_meta_fails_without_a_meta_page() {
    let mut pager = Pager::open(None).unwrap();
    pager.pages.clear();
    assert_eq!(
        pager.flush_meta(),
        Err(ShuError::Io {
            page_id: PageId::new(0)
        })
    );
}

#[test]
fn flushed_counts_are_those_of_the_reopened_pager() {
    let mut pager = Pager::open(None).unwrap();
    pager.page_count = 77;
    pager.freelist_head = 5;
    pager.root_page_id = PageId::new(9);
    pager.flush_meta().unwrap();

    let meta = saved(&pager.read_page(PageId::new(0)).unwrap());
    let again = Pager::open(Some(meta)).unwrap();
    assert_eq!(again.page_count, 77);
    assert_eq!(again.freelist_head, 5);
    assert_eq!(again.root_page_id(), PageId::new(9));
}

#[test]
fn dirty_pages_are_listed_until_they_are_saved() {
    let mut pager = Pager::open(None).unwrap();
    assert_eq!(pager.next_dirty(PageId::new(0)), Some(PageId::new(0)));
    assert_eq!(pager.next_dirty(PageId::new(1)), Some(PageId::new(1)));
    assert_eq!(pager.next_dirty(PageId::new(2)), None);

    pager.mark_saved(PageId::new(0));
    pager.mark_saved(PageId::new(1));
    assert_eq!(pager.next_dirty(PageId::new(0)), None);

    let page = pager.read_page(PageId::new(1)).unwrap();
    pager.write_page(PageId::new(1), &page).unwrap();
    assert_eq!(pager.next_dirty(PageId::new(0)), Some(PageId::new(1)));

    pager.supply(PageId::new(1), page);
    assert_eq!(pager.next_dirty(PageId::new(0)), None);

    pager.allocate(PageType::Internal).unwrap();
    assert_eq!(pager.next_dirty(PageId::new(0)), Some(PageId::new(0)));
    assert_eq!(pager.next_dirty(PageId::new(1)), Some(PageId::new(2)));
}

#[test]
fn marking_an_absent_page_as_saved_changes_nothing() {
    let mut pager = Pager::open(None).unwrap();
    pager.mark_saved(PageId::new(40));
    assert_eq!(pager.next_dirty(PageId::new(0)), Some(PageId::new(0)));
    assert_eq!(pager.pages.len(), 2);
}

#[test]
fn write_leaves_other_pages_as_they_were() {
    let mut pager = Pager::open(None).unwrap();
    let a = pager.allocate(PageType::Leaf).unwrap();
    let b = pager.allocate(PageType::Leaf).unwrap();
    let before = pager.read_page(b).unwrap().to_bytes();

    let mut page = pager.read_page(a).unwrap();
    page.insert_leaf_entry(b"k", b"v").unwrap();
    pager.write_page(a, &page).unwrap();

    assert_eq!(pager.read_page(b).unwrap().to_bytes(), before);
    assert_eq!(pager.read_page(a).unwrap().to_bytes(), page.to_bytes());
}
