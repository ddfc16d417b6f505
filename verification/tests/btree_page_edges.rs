use shudb::error::ShuError;
use shudb::storage::btree_page::{
    append_internal_cell, append_leaf_entry, init_internal_page, init_leaf_page,
    internal_entries_capacity, internal_entries_fit, internal_entries_space, internal_entry_space,
    leaf_entries_capacity, leaf_entries_fit, leaf_entries_space, leaf_entry_space,
    upsert_leaf_entry, InternalEntries, InternalEntry, LeafEntry,
};
use shudb::storage::codec::ByteOrder;
use shudb::storage::page::{Page, PageId, PageType, BODY_SIZE};
use shudb::storage::slotted::LeafSearchResult;

fn leaf() -> Page {
    let mut page = Page::new(PageType::Leaf, PageId::new(5));
    init_leaf_page(&mut page).unwrap();
    page
}

fn internal() -> Page {
    let mut page = Page::new(PageType::Internal, PageId::new(6));
    init_internal_page(&mut page).unwrap();
    page
}

fn entry(key: &[u8], len: usize) -> LeafEntry {
    LeafEntry::new(key.to_vec(), vec![7; len])
}

#[test]
fn capacities_and_spaces_have_these_sizes() {
    assert_eq!(leaf_entries_capacity(), 4068);
    assert_eq!(internal_entries_capacity(), 4072);
    assert_eq!(leaf_entry_space(&entry(b"abc", 10)), 19);
    assert_eq!(entry(b"abc", 10).size(), 13);
    let separator = InternalEntry::new(PageId::new(1), b"abc".to_vec());
    assert_eq!(internal_entry_space(&separator), 11);
    assert_eq!(leaf_entries_space(&[entry(b"a", 1), entry(b"b", 2)]), 17);
    let entries = InternalEntries::new(
        vec![separator, InternalEntry::new(PageId::new(2), vec![])],
        PageId::new(3),
    );
    assert_eq!(internal_entries_space(&entries), 19);
    assert!(internal_entries_fit(&entries));
    assert!(leaf_entries_fit(&[entry(b"a", 4061)]));
    assert!(!leaf_entries_fit(&[entry(b"a", 4062)]));
}

#[test]
fn leaf_cells_lie_packed_at_the_end_of_the_body() {
    for (order, header) in [
        // Count, start of the cells, both siblings.
        (ByteOrder::Little, [2, 0, 0xe2, 0x0f, 0, 0, 0, 0, 0, 0, 0, 0]),
        (ByteOrder::Big, [0, 2, 0x0f, 0xe2, 0, 0, 0, 0, 0, 0, 0, 0]),
    ] {
        let mut page = Page::new_in(order, PageType::Leaf, PageId::new(5));
        init_leaf_page(&mut page).unwrap();
        append_leaf_entry(&mut page, b"ab", b"xyz").unwrap();
        append_leaf_entry(&mut page, b"c", b"").unwrap();

        assert_eq!(&page.body()[..12], &header);
        // The pointers.
        assert_eq!(&page.body()[12..18], &[0xe7, 0x0f, 0xe2, 0x0f, 0, 0]);
        // The cells, the later before the earlier.
        assert_eq!(
            &page.body()[BODY_SIZE - 14..],
            &[1, 0, 0, 0, b'c', 2, 0, 3, 0, b'a', b'b', b'x', b'y', b'z']
        );
    }
}

#[test]
fn internal_cells_lie_packed_at_the_end_of_the_body() {
    for (order, start, cell) in [
        (
            ByteOrder::Little,
            [1, 0, 0xe9, 0x0f, 5, 6, 7, 8, 0xe9, 0x0f],
            [1, 2, 3, 4, 1, 0, b'k'],
        ),
        (
            ByteOrder::Big,
            [0, 1, 0x0f, 0xe9, 8, 7, 6, 5, 0xe9, 0x0f],
            [4, 3, 2, 1, 1, 0, b'k'],
        ),
    ] {
        let mut page = Page::new_in(order, PageType::Internal, PageId::new(6));
        init_internal_page(&mut page).unwrap();
        append_internal_cell(&mut page, PageId::new(0x0403_0201), b"k").unwrap();
        page.set_right_child(PageId::new(0x0807_0605)).unwrap();
        assert_eq!(&page.body()[..10], &start);
        assert_eq!(&page.body()[BODY_SIZE - 7..], &cell);
        assert_eq!(page.child_at(0), Ok(PageId::new(0x0403_0201)));
        assert_eq!(page.child_at(1), Ok(PageId::new(0x0807_0605)));
    }
}

#[test]
fn leaf_operations_reject_other_page_types() {
    let mut page = internal();
    assert_eq!(init_leaf_page(&mut page), Err(ShuError::InvalidPageType));
    assert_eq!(
        page.insert_leaf_entry(b"a", b"b"),
        Err(ShuError::InvalidPageType)
    );
    assert_eq!(page.leaf_search(b"a"), Err(ShuError::InvalidPageType));
    assert_eq!(page.leaf_entry(0).err(), Some(ShuError::InvalidPageType));
    assert_eq!(page.leaf_entries().err(), Some(ShuError::InvalidPageType));
}

#[test]
fn internal_operations_reject_other_page_types() {
    let mut page = leaf();
    let separator = InternalEntry::new(PageId::new(1), vec![]);
    assert_eq!(init_internal_page(&mut page), Err(ShuError::InvalidPageType));
    assert_eq!(
        page.append_internal_entry(&separator),
        Err(ShuError::InvalidPageType)
    );
    assert_eq!(
        page.insert_internal_entry(0, &separator),
        Err(ShuError::InvalidPageType)
    );
    assert_eq!(
        page.set_right_child(PageId::new(1)),
        Err(ShuError::InvalidPageType)
    );
    assert_eq!(
        page.child_index_for_key(b"a"),
        Err(ShuError::InvalidPageType)
    );
    assert_eq!(page.child_at(0), Err(ShuError::InvalidPageType));
    assert_eq!(
        page.internal_entries().err(),
        Some(ShuError::InvalidPageType)
    );
}

#[test]
fn meta_page_is_neither_under_nor_overfull() {
    let page = Page::new(PageType::Meta, PageId::new(0));
    assert_eq!(page.is_underflow(), Err(ShuError::InvalidPageType));
    assert_eq!(page.is_overflow(), Ok(false));
}

#[test]
fn underflow_begins_below_half_the_capacity() {
    let mut page = leaf();
    page.rewrite_leaf_entries(&[entry(b"k", 2034 - 7)]).unwrap();
    assert_eq!(page.is_underflow(), Ok(false));
    page.rewrite_leaf_entries(&[entry(b"k", 2033 - 7)]).unwrap();
    assert_eq!(page.is_underflow(), Ok(true));
}

#[test]
fn insert_replaces_the_value_of_a_key() {
    let mut page = leaf();
    page.insert_leaf_entry(b"a", b"old").unwrap();
    page.insert_leaf_entry(b"b", b"other").unwrap();
    page.insert_leaf_entry(b"a", b"new").unwrap();

    assert_eq!(page.leaf_entries().unwrap().len(), 2);
    assert_eq!(page.leaf_entry(0).unwrap().value, b"new");
    assert_eq!(page.leaf_entry(1).unwrap().value, b"other");
}

#[test]
fn upsert_keeps_keys_in_order() {
    let mut entries = Vec::new();
    for key in [&b"m"[..], b"a", b"z", b"b", b"m", b""] {
        upsert_leaf_entry(&mut entries, key, b"v");
    }
    let keys: Vec<&[u8]> = entries.iter().map(|entry| &entry.key[..]).collect();
    assert_eq!(keys, vec![&b""[..], b"a", b"b", b"m", b"z"]);
}

#[test]
fn records_that_do_not_fit_go_to_the_overflow() {
    let mut page = leaf();
    page.insert_leaf_entry(b"b", &[1; 3000]).unwrap();
    let before = page.body().to_vec();
    page.insert_leaf_entry(b"a", &[2; 3000]).unwrap();

    assert_eq!(page.is_overflow(), Ok(true));
    assert_eq!(page.is_underflow(), Ok(false));
    assert_eq!(page.body(), &before[..]);
    let entries = page.leaf_entries().unwrap();
    assert_eq!(entries.len(), 2);
    assert_eq!(entries[0].key, b"a");
    assert_eq!(entries[1].value, vec![1; 3000]);
    assert_eq!(page.leaf_search(b"a"), Ok(LeafSearchResult::Found(0)));
    assert_eq!(page.leaf_search(b"aa"), Ok(LeafSearchResult::Missing(1)));

    page.rewrite_leaf_entries(&[entry(b"c", 1)]).unwrap();
    assert_eq!(page.is_overflow(), Ok(false));
    assert_eq!(page.leaf_entries().unwrap()[0].key, b"c");
}

#[test]
fn internal_contents_that_do_not_fit_go_to_the_overflow() {
    let mut page = internal();
    let entries = InternalEntries::new(
        vec![
            InternalEntry::new(PageId::new(1), vec![1; 2100]),
            InternalEntry::new(PageId::new(2), vec![2; 2100]),
        ],
        PageId::new(3),
    );
    page.rewrite_internal_entries(&entries).unwrap();
    assert_eq!(page.is_overflow(), Ok(true));
    assert_eq!(page.is_underflow(), Ok(false));
    let read = page.internal_entries().unwrap();
    assert_eq!(read.entries.len(), 2);
    assert_eq!(read.entries[1].separator, vec![2; 2100]);
    assert_eq!(read.right_child, PageId::new(3));
}

#[test]
fn overflow_of_another_page_type_is_an_error() {
    let mut page = leaf();
    page.insert_leaf_entry(b"a", &[1; 3000]).unwrap();
    page.insert_leaf_entry(b"b", &[1; 3000]).unwrap();
    page.set_page_type(PageType::Internal);
    assert_eq!(page.is_overflow(), Err(ShuError::InvalidPageType));
}

#[test]
fn rewrite_rejects_records_out_of_order() {
    let mut page = leaf();
    page.insert_leaf_entry(b"a", b"1").unwrap();
    let before = page.to_bytes();
    let result = page.rewrite_leaf_entries(&[entry(b"b", 1), entry(b"a", 1)]);
    assert_eq!(
        result,
        Err(ShuError::CorruptedPage {
            page_id: PageId::new(5)
        })
    );
    assert_eq!(page.to_bytes(), before);
}

#[test]
fn rewrite_rejects_records_that_do_not_fit() {
    let mut page = leaf();
    let result = page.rewrite_leaf_entries(&[entry(b"a", 4062)]);
    assert_eq!(
        result,
        Err(ShuError::PageFull {
            page_id: PageId::new(5),
            needed: 4069,
            available: 4068,
        })
    );
    assert_eq!(page.rewrite_leaf_entries(&[entry(b"a", 4061)]), Ok(()));
}

#[test]
fn append_rejects_cells_that_cannot_be_described() {
    let mut page = leaf();
    assert_eq!(
        append_leaf_entry(&mut page, &[0; 65536], b"v"),
        Err(ShuError::CellTooLarge {
            page_id: PageId::new(5),
            key_len: 65536,
            value_len: 1,
        })
    );
    let mut page = internal();
    assert_eq!(
        append_internal_cell(&mut page, PageId::new(1), &[0; 65536]),
        Err(ShuError::CellTooLarge {
            page_id: PageId::new(6),
            key_len: 65536,
            value_len: 0,
        })
    );
}

#[test]
fn append_rejects_cells_larger_than_the_space_before_the_others() {
    let mut page = leaf();
    assert_eq!(
        append_leaf_entry(&mut page, &[0; 5000], b""),
        Err(ShuError::PageFull {
            page_id: PageId::new(5),
            needed: 5004,
            available: 0,
        })
    );
    let mut page = internal();
    assert_eq!(
        append_internal_cell(&mut page, PageId::new(1), &[0; 5000]),
        Err(ShuError::PageFull {
            page_id: PageId::new(6),
            needed: 5006,
            available: 0,
        })
    );
}

#[test]
fn insert_internal_entry_keeps_the_others_in_order() {
    let mut page = internal();
    for (child, key) in [(1, b"b"), (2, b"d")] {
        page.append_internal_entry(&InternalEntry::new(PageId::new(child), key.to_vec()))
            .unwrap();
    }
    page.set_right_child(PageId::new(9)).unwrap();
    page.insert_internal_entry(1, &InternalEntry::new(PageId::new(3), b"c".to_vec()))
        .unwrap();
    page.insert_internal_entry(0, &InternalEntry::new(PageId::new(4), b"a".to_vec()))
        .unwrap();
    page.insert_internal_entry(4, &InternalEntry::new(PageId::new(5), b"e".to_vec()))
        .unwrap();

    let read = page.internal_entries().unwrap();
    let children: Vec<u32> = read.entries.iter().map(|entry| entry.child.get()).collect();
    let keys: Vec<&[u8]> = read
        .entries
        .iter()
        .map(|entry| &entry.separator[..])
        .collect();
    assert_eq!(children, vec![4, 1, 3, 2, 5]);
    assert_eq!(keys, vec![&b"a"[..], b"b", b"c", b"d", b"e"]);
    assert_eq!(read.right_child, PageId::new(9));
    assert_eq!(page.child_at(4), Ok(PageId::new(5)));
    assert_eq!(page.child_at(5), Ok(PageId::new(9)));
    assert_eq!(page.child_at(6), Err(ShuError::IndexOutOfRange));
    assert_eq!(
        page.internal_entry(5).err(),
        Some(ShuError::IndexOutOfRange)
    );
}

#[test]
fn header_that_contradicts_itself_is_an_error() {
    let mut page = leaf();
    page.write_body_u16(0, 5000).unwrap();
    let corrupted = ShuError::CorruptedPage {
        page_id: PageId::new(5),
    };
    assert_eq!(page.leaf_search(b"a"), Err(corrupted));
    assert_eq!(page.insert_leaf_entry(b"a", b"b"), Err(corrupted));
    assert_eq!(page.is_underflow(), Err(corrupted));

    let mut page = internal();
    page.write_body_u16(2, 4081).unwrap();
    assert_eq!(
        page.child_index_for_key(b"a"),
        Err(ShuError::CorruptedPage {
            page_id: PageId::new(6)
        })
    );
}

#[test]
fn pointer_outside_the_body_is_an_error() {
    let mut page = leaf();
    page.insert_leaf_entry(b"a", b"b").unwrap();
    page.write_body_u16(12, 4079).unwrap();
    assert_eq!(
        page.leaf_entry(0).err(),
        Some(ShuError::InvalidBodyRange {
            page_id: PageId::new(5),
            start: 4079,
            end: 4081,
            body_len: BODY_SIZE,
        })
    );
}

#[test]
fn full_leaf_page_reads_back_every_record() {
    let mut page = leaf();
    let entries: Vec<LeafEntry> = (0u32..678)
        .map(|_| LeafEntry::new(vec![], vec![]))
        .collect();
    assert_eq!(leaf_entries_space(&entries), 4068);
    page.rewrite_leaf_entries(&entries).unwrap();
    assert_eq!(page.leaf_entries().unwrap().len(), 678);
    assert_eq!(page.is_underflow(), Ok(false));
}
