use shudb::error::ShuError;
use shudb::storage::btree::find_child_for_key;
use shudb::storage::btree_page::{
    init_internal_page, init_leaf_page, InternalEntries, InternalEntry,
};
use shudb::storage::page::{Page, PageId, PageType};
use shudb::storage::slotted::LeafSearchResult;

#[test]
fn leaf_entry_rejects_index_past_record_count() {
    let mut page = Page::new(PageType::Leaf, PageId::new(1));
    init_leaf_page(&mut page).unwrap();

    let result = page.leaf_entry(0);

    assert!(matches!(result, Err(ShuError::IndexOutOfRange)));
}

#[test]
fn init_internal_page_writes_empty_entries() {
    let mut page = Page::new(PageType::Internal, PageId::new(2));

    init_internal_page(&mut page).unwrap();

    let entries = page.internal_entries().unwrap();
    assert!(entries.entries.is_empty());
    assert_eq!(entries.right_child, PageId::new(0));
}

#[test]
fn leaf_page_underflow_tracks_half_full_occupancy() {
    let mut page = Page::new(PageType::Leaf, PageId::new(1));
    init_leaf_page(&mut page).unwrap();

    assert!(page.is_underflow().unwrap());

    page.insert_leaf_entry(b"k", &vec![0u8; 2200]).unwrap();

    assert!(!page.is_underflow().unwrap());
}

#[test]
fn internal_page_underflow_tracks_half_full_occupancy() {
    let mut page = Page::new(PageType::Internal, PageId::new(2));
    init_internal_page(&mut page).unwrap();

    assert!(page.is_underflow().unwrap());

    page.append_internal_entry(&InternalEntry::new(PageId::new(7), vec![0u8; 2200]))
        .unwrap();

    assert!(!page.is_underflow().unwrap());
}

#[test]
fn append_internal_entry_writes_child_and_separator_key() {
    let mut page = Page::new(PageType::Internal, PageId::new(2));
    init_internal_page(&mut page).unwrap();

    page.append_internal_entry(&InternalEntry::new(PageId::new(7), b"cat".to_vec()))
        .unwrap();
    page.append_internal_entry(&InternalEntry::new(PageId::new(8), b"dog".to_vec()))
        .unwrap();

    let entries = page.internal_entries().unwrap();
    assert_eq!(entries.entries.len(), 2);

    let first = page.internal_entry(0).unwrap();
    assert_eq!(first.child, PageId::new(7));
    assert_eq!(first.separator, b"cat");

    let second = page.internal_entry(1).unwrap();
    assert_eq!(second.child, PageId::new(8));
    assert_eq!(second.separator, b"dog");
}

#[test]
fn append_internal_entry_supports_empty_separator_key_at_body_tail() {
    let mut page = Page::new(PageType::Internal, PageId::new(2));
    init_internal_page(&mut page).unwrap();

    page.append_internal_entry(&InternalEntry::new(PageId::new(7), b"".to_vec()))
        .unwrap();

    let entry = page.internal_entry(0).unwrap();
    assert_eq!(entry.child, PageId::new(7));
    assert_eq!(entry.separator, b"");
}

#[test]
fn rewrite_internal_entries_rewrites_entries_and_right_child() {
    let mut page = Page::new(PageType::Internal, PageId::new(2));
    init_internal_page(&mut page).unwrap();
    page.append_internal_entry(&InternalEntry::new(PageId::new(99), b"stale".to_vec()))
        .unwrap();

    let entries = InternalEntries::new(
        vec![
            InternalEntry::new(PageId::new(10), b"cat".to_vec()),
            InternalEntry::new(PageId::new(11), b"dog".to_vec()),
        ],
        PageId::new(12),
    );

    page.rewrite_internal_entries(&entries).unwrap();

    let rewritten = page.internal_entries().unwrap();
    assert_eq!(rewritten.entries.len(), 2);
    assert_eq!(rewritten.right_child, PageId::new(12));

    let first = page.internal_entry(0).unwrap();
    assert_eq!(first.child, PageId::new(10));
    assert_eq!(first.separator, b"cat");

    let second = page.internal_entry(1).unwrap();
    assert_eq!(second.child, PageId::new(11));
    assert_eq!(second.separator, b"dog");
}

#[test]
fn insert_internal_entry_rejects_index_past_record_count() {
    let mut page = Page::new(PageType::Internal, PageId::new(2));
    init_internal_page(&mut page).unwrap();

    let result = page.insert_internal_entry(1, &InternalEntry::new(PageId::new(10), b"cat".to_vec()));

    assert!(matches!(result, Err(ShuError::IndexOutOfRange)));
}

#[test]
fn find_child_for_key_routes_internal_boundaries() {
    let mut page = Page::new(PageType::Internal, PageId::new(2));
    init_internal_page(&mut page).unwrap();
    page.append_internal_entry(&InternalEntry::new(PageId::new(10), b"cat".to_vec()))
        .unwrap();
    page.append_internal_entry(&InternalEntry::new(PageId::new(11), b"dog".to_vec()))
        .unwrap();
    page.append_internal_entry(&InternalEntry::new(PageId::new(12), b"fox".to_vec()))
        .unwrap();
    page.set_right_child(PageId::new(13)).unwrap();

    assert_eq!(find_child_for_key(&page, b"ant").unwrap(), PageId::new(10));
    assert_eq!(find_child_for_key(&page, b"cat").unwrap(), PageId::new(10));
    assert_eq!(find_child_for_key(&page, b"cow").unwrap(), PageId::new(11));
    assert_eq!(find_child_for_key(&page, b"dog").unwrap(), PageId::new(11));
    assert_eq!(find_child_for_key(&page, b"elk").unwrap(), PageId::new(12));
    assert_eq!(find_child_for_key(&page, b"fox").unwrap(), PageId::new(12));
    assert_eq!(find_child_for_key(&page, b"zoo").unwrap(), PageId::new(13));
}

#[test]
fn find_child_for_key_uses_right_child_for_empty_internal_page() {
    let mut page = Page::new(PageType::Internal, PageId::new(2));
    init_internal_page(&mut page).unwrap();

    page.set_right_child(PageId::new(9)).unwrap();

    assert_eq!(find_child_for_key(&page, b"cat").unwrap(), PageId::new(9));
}

#[test]
fn insert_leaf_entry_appends_two_entries() {
    let mut page = Page::new(PageType::Leaf, PageId::new(1));
    init_leaf_page(&mut page).unwrap();

    page.insert_leaf_entry(b"a", b"first").unwrap();
    page.insert_leaf_entry(b"b", b"second").unwrap();

    let entries = page.leaf_entries().unwrap();
    assert_eq!(entries.len(), 2);

    let first = page.leaf_entry(0).unwrap();
    assert_eq!(first.key, b"a");
    assert_eq!(first.value, b"first");

    let second = page.leaf_entry(1).unwrap();
    assert_eq!(second.key, b"b");
    assert_eq!(second.value, b"second");
}

#[test]
fn insert_leaf_entry_keeps_entries_sorted_by_key() {
    let mut page = Page::new(PageType::Leaf, PageId::new(1));
    init_leaf_page(&mut page).unwrap();

    page.insert_leaf_entry(b"z", b"last").unwrap();
    page.insert_leaf_entry(b"a", b"first").unwrap();

    let entries = page.leaf_entries().unwrap();
    assert_eq!(entries.len(), 2);

    let first = page.leaf_entry(0).unwrap();
    assert_eq!(first.key, b"a");
    assert_eq!(first.value, b"first");

    let second = page.leaf_entry(1).unwrap();
    assert_eq!(second.key, b"z");
    assert_eq!(second.value, b"last");
}

#[test]
fn search_leaf_finds_existing_keys() {
    let mut page = Page::new(PageType::Leaf, PageId::new(1));
    init_leaf_page(&mut page).unwrap();

    page.insert_leaf_entry(b"a", b"first").unwrap();
    page.insert_leaf_entry(b"c", b"middle").unwrap();
    page.insert_leaf_entry(b"z", b"last").unwrap();

    assert_eq!(page.leaf_search(b"a").unwrap(), LeafSearchResult::Found(0));
    assert_eq!(page.leaf_search(b"c").unwrap(), LeafSearchResult::Found(1));
    assert_eq!(page.leaf_search(b"z").unwrap(), LeafSearchResult::Found(2));
}

#[test]
fn search_leaf_returns_missing_insert_positions() {
    let mut page = Page::new(PageType::Leaf, PageId::new(1));
    init_leaf_page(&mut page).unwrap();

    page.insert_leaf_entry(b"a", b"first").unwrap();
    page.insert_leaf_entry(b"c", b"middle").unwrap();
    page.insert_leaf_entry(b"z", b"last").unwrap();

    assert_eq!(
        page.leaf_search(b"0").unwrap(),
        LeafSearchResult::Missing(0)
    );
    assert_eq!(
        page.leaf_search(b"b").unwrap(),
        LeafSearchResult::Missing(1)
    );
    assert_eq!(
        page.leaf_search(b"d").unwrap(),
        LeafSearchResult::Missing(2)
    );
    assert_eq!(
        page.leaf_search(b"zz").unwrap(),
        LeafSearchResult::Missing(3)
    );
}
