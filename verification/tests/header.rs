use shudb::error::ShuError;
use shudb::storage::codec::ByteOrder;
use shudb::storage::header::DatabaseHeader;
use shudb::storage::page::{Page, PageId, PageType};

fn header(root: u32, count: u32) -> DatabaseHeader {
    DatabaseHeader {
        root_page_id: PageId::new(root),
        page_count: count,
        freelist_head: 0x0a0b_0c0d,
        _reserved: [9, 8, 7, 6],
    }
}

#[test]
fn written_header_is_read() {
    let mut page = Page::new(PageType::Meta, PageId::new(0));
    header(3, 4).write_to(&mut page).unwrap();

    let read = DatabaseHeader::read_from(&page).unwrap();
    assert_eq!(read.root_page_id, PageId::new(3));
    assert_eq!(read.page_count, 4);
    assert_eq!(read.freelist_head, 0x0a0b_0c0d);
    assert_eq!(read._reserved, [9, 8, 7, 6]);
}

#[test]
fn header_numbers_stand_in_the_byte_order_of_the_page() {
    let header = header(0x0102_0304, 0x1112_1314);
    let mut page = Page::new_in(ByteOrder::Little, PageType::Meta, PageId::new(0));
    header.write_to(&mut page).unwrap();
    assert_eq!(
        &page.body()[..16],
        &[4, 3, 2, 1, 0x14, 0x13, 0x12, 0x11, 0x0d, 0x0c, 0x0b, 0x0a, 9, 8, 7, 6]
    );

    let mut page = Page::new_in(ByteOrder::Big, PageType::Meta, PageId::new(0));
    header.write_to(&mut page).unwrap();
    assert_eq!(
        &page.body()[..16],
        &[1, 2, 3, 4, 0x11, 0x12, 0x13, 0x14, 0x0a, 0x0b, 0x0c, 0x0d, 9, 8, 7, 6]
    );
    let read = DatabaseHeader::read_from(&page).unwrap();
    assert_eq!(read.root_page_id, PageId::new(0x0102_0304));
    assert_eq!(read.page_count, 0x1112_1314);
    assert_eq!(read.freelist_head, 0x0a0b_0c0d);
}

#[test]
fn header_numbers_are_those_of_the_machine() {
    let mut page = Page::new(PageType::Meta, PageId::new(0));
    header(0x0102_0304, 0x1112_1314).write_to(&mut page).unwrap();
    assert_eq!(&page.body()[..4], bytemuck::bytes_of(&0x0102_0304u32));
    assert_eq!(&page.body()[4..8], bytemuck::bytes_of(&0x1112_1314u32));
    assert_eq!(&page.body()[8..12], bytemuck::bytes_of(&0x0a0b_0c0du32));
}

#[test]
fn header_belongs_on_a_meta_page() {
    let id = PageId::new(7);
    let corrupted = ShuError::CorruptedPage { page_id: id };
    let mut page = Page::new(PageType::Leaf, id);
    assert_eq!(header(1, 2).write_to(&mut page), Err(corrupted));
    assert_eq!(DatabaseHeader::read_from(&page).err(), Some(corrupted));

    page.header_mut().page_type = 99;
    assert_eq!(
        header(1, 2).write_to(&mut page),
        Err(ShuError::InvalidPageType)
    );
    assert_eq!(
        DatabaseHeader::read_from(&page).err(),
        Some(ShuError::InvalidPageType)
    );
}

#[test]
fn header_needs_two_pages_and_a_root_among_them() {
    let id = PageId::new(0);
    let corrupted = Err(ShuError::CorruptedPage { page_id: id });
    assert_eq!(header(1, 1).validate(id), corrupted);
    assert_eq!(header(0, 2).validate(id), corrupted);
    assert_eq!(header(2, 2).validate(id), corrupted);
    assert_eq!(header(1, 2).validate(id), Ok(()));
    // The root may be any page but the meta page itself.
    assert_eq!(header(0, 2).validate(PageId::new(1)), Ok(()));
}

#[test]
fn refused_header_leaves_the_page_alone() {
    let mut page = Page::new(PageType::Meta, PageId::new(0));
    header(1, 2).write_to(&mut page).unwrap();
    let before = page.to_bytes();
    assert!(header(5, 5).write_to(&mut page).is_err());
    assert_eq!(page.to_bytes(), before);
}
