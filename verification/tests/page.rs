use shudb::error::ShuError;
use shudb::storage::codec::{
    order_of_one, read_u16_in, read_u32_in, write_u16_in, write_u32_in, ByteOrder,
};
use shudb::storage::page::{
    Page, PageHeader, PageId, PageType, BODY_SIZE, HEADER_SIZE, PAGE_SIZE,
};
use std::mem::size_of;

#[test]
fn write_body_bytes_rejects_range_past_body_end() {
    let mut page = Page::new(PageType::Leaf, PageId::new(7));
    let body_len = page.body().len();

    let result = page.write_body_bytes(body_len..body_len + 1, &[1]);

    assert!(matches!(
        result,
        Err(ShuError::InvalidBodyRange {
            page_id: PageId(7),
            start,
            end,
            body_len: len,
        }) if start == body_len && end == body_len + 1 && len == body_len
    ));
}

#[test]
fn write_body_bytes_rejects_length_mismatch() {
    let mut page = Page::new(PageType::Leaf, PageId::new(7));

    let result = page.write_body_bytes(0..2, &[1]);

    assert!(matches!(
        result,
        Err(ShuError::BodyWriteLengthMismatch {
            page_id: PageId(7),
            range_len: 2,
            bytes_len: 1,
        })
    ));
}

#[test]
fn read_body_u16_allows_value_ending_at_body_end() {
    let mut page = Page::new(PageType::Leaf, PageId::new(7));
    let offset = page.body().len() - size_of::<u16>();

    page.write_body_u16(offset, 0x1234).unwrap();

    assert_eq!(page.read_body_u16(offset).unwrap(), 0x1234);
}

fn marked(mut page: Page) -> Page {
    page.header_mut().checksum = 0x0506_0708;
    page.body_mut()[0] = 42;
    page.body_mut()[BODY_SIZE - 1] = 43;
    page
}

#[test]
fn page_saved_as_bytes_reads_back() {
    let id = PageId::new(0x0102_0304);
    for (order, header) in [
        (
            ByteOrder::Little,
            [4, 3, 2, 1, 2, 0, 0, 0, 8, 7, 6, 5, 0, 0, 0, 0],
        ),
        (
            ByteOrder::Big,
            [1, 2, 3, 4, 2, 0, 0, 0, 5, 6, 7, 8, 0, 0, 0, 0],
        ),
    ] {
        let bytes = marked(Page::new_in(order, PageType::Internal, id)).to_bytes();
        assert_eq!(bytes.len(), PAGE_SIZE);
        assert_eq!(&bytes[..HEADER_SIZE], &header);
        assert_eq!(bytes[HEADER_SIZE], 42);
        assert_eq!(bytes[PAGE_SIZE - 1], 43);

        let array: [u8; PAGE_SIZE] = bytes.clone().try_into().unwrap();
        let again = Page::from_bytes_in(order, &array);
        assert_eq!(again.to_bytes(), bytes);
        assert_eq!(again.order, order);
        assert_eq!(again.id(), id);
        assert_eq!(again.page_type(), Ok(PageType::Internal));
        assert_eq!(again.header().checksum, 0x0506_0708);
        assert_eq!(again.body()[BODY_SIZE - 1], 43);
    }
}

#[test]
fn pages_are_in_the_byte_order_of_the_machine() {
    let id = PageId::new(0x0102_0304);
    let page = marked(Page::new(PageType::Internal, id));
    let bytes = page.to_bytes();
    assert_eq!(page.order, order_of_one(1u16.to_ne_bytes()));
    assert_eq!(&bytes[..4], bytemuck::bytes_of(&0x0102_0304u32));
    assert_eq!(&bytes[8..12], bytemuck::bytes_of(&0x0506_0708u32));

    let array: [u8; PAGE_SIZE] = bytes.try_into().unwrap();
    let again = Page::from_bytes(&array);
    assert_eq!(again.order, page.order);
    assert_eq!(again.id(), id);
    assert_eq!(again.header().checksum, 0x0506_0708);
}

#[test]
fn page_read_in_the_other_byte_order_has_other_numbers() {
    let bytes = marked(Page::new_in(
        ByteOrder::Big,
        PageType::Leaf,
        PageId::new(0x0102_0304),
    ))
    .to_bytes();
    let array: [u8; PAGE_SIZE] = bytes.try_into().unwrap();
    let page = Page::from_bytes_in(ByteOrder::Little, &array);
    assert_eq!(page.id(), PageId::new(0x0403_0201));
    assert_eq!(page.page_type(), Ok(PageType::Leaf));
}

#[test]
fn numbers_are_written_and_read_in_either_order() {
    let bytes = [9, 1, 2, 3, 4, 9];
    assert_eq!(read_u16_in(ByteOrder::Little, &bytes, 1), 0x0201);
    assert_eq!(read_u16_in(ByteOrder::Big, &bytes, 1), 0x0102);
    assert_eq!(read_u32_in(ByteOrder::Little, &bytes, 1), 0x0403_0201);
    assert_eq!(read_u32_in(ByteOrder::Big, &bytes, 1), 0x0102_0304);
    assert_eq!(write_u16_in(ByteOrder::Little, 0x0102), [2, 1]);
    assert_eq!(write_u16_in(ByteOrder::Big, 0x0102), [1, 2]);
    assert_eq!(write_u32_in(ByteOrder::Little, 0x0102_0304), [4, 3, 2, 1]);
    assert_eq!(write_u32_in(ByteOrder::Big, 0x0102_0304), [1, 2, 3, 4]);
    assert_eq!(order_of_one([1, 0]), ByteOrder::Little);
    assert_eq!(order_of_one([0, 1]), ByteOrder::Big);
}

#[test]
fn page_type_bytes_are_one_to_three() {
    assert_eq!(u8::from(PageType::Meta), 1);
    assert_eq!(u8::from(PageType::Internal), 2);
    assert_eq!(u8::from(PageType::Leaf), 3);
    assert_eq!(PageType::try_from(1), Ok(PageType::Meta));
    assert_eq!(PageType::try_from(2), Ok(PageType::Internal));
    assert_eq!(PageType::try_from(3), Ok(PageType::Leaf));
    assert_eq!(PageType::try_from(0), Err(ShuError::InvalidPageType));
    assert_eq!(PageType::try_from(4), Err(ShuError::InvalidPageType));
}

#[test]
fn page_id_gives_its_number() {
    assert_eq!(PageId::new(9).get(), 9);
    assert_eq!(PageId::new(u32::MAX).as_u64(), 4_294_967_295);
}

#[test]
fn assert_page_type_tells_types_apart() {
    let mut page = Page::new(PageType::Leaf, PageId::new(1));
    assert_eq!(page.assert_page_type(PageType::Leaf), Ok(()));
    assert_eq!(
        page.assert_page_type(PageType::Internal),
        Err(ShuError::InvalidPageType)
    );
    page.set_page_type(PageType::Internal);
    assert_eq!(page.assert_page_type(PageType::Internal), Ok(()));
    page.header_mut().page_type = 0;
    assert_eq!(
        page.assert_page_type(PageType::Leaf),
        Err(ShuError::InvalidPageType)
    );
}

#[test]
fn body_u16_is_little_endian_in_either_order() {
    for order in [ByteOrder::Little, ByteOrder::Big] {
        let mut page = Page::new_in(order, PageType::Leaf, PageId::new(1));
        page.write_body_u16(10, 0xabcd).unwrap();
        assert_eq!(&page.body()[9..13], &[0, 0xcd, 0xab, 0]);
        assert_eq!(page.read_body_u16(10), Ok(0xabcd));
    }
}

#[test]
fn body_u16_outside_the_body_is_rejected() {
    let mut page = Page::new(PageType::Leaf, PageId::new(1));
    let past = ShuError::InvalidBodyRange {
        page_id: PageId::new(1),
        start: BODY_SIZE - 1,
        end: BODY_SIZE + 1,
        body_len: BODY_SIZE,
    };
    assert_eq!(page.write_body_u16(BODY_SIZE - 1, 1), Err(past));
    assert_eq!(page.read_body_u16(BODY_SIZE - 1), Err(past));

    let endless = ShuError::InvalidBodyRange {
        page_id: PageId::new(1),
        start: usize::MAX,
        end: usize::MAX,
        body_len: BODY_SIZE,
    };
    assert_eq!(page.write_body_u16(usize::MAX, 1), Err(endless));
    assert_eq!(page.read_body_u16(usize::MAX), Err(endless));
}

#[test]
fn copy_body_within_handles_overlap() {
    let mut page = Page::new(PageType::Leaf, PageId::new(1));
    page.write_body_bytes(0..5, &[1, 2, 3, 4, 5]).unwrap();
    page.copy_body_within(0..5, 2).unwrap();
    assert_eq!(&page.body()[..8], &[1, 2, 1, 2, 3, 4, 5, 0]);
    page.copy_body_within(2..7, 0).unwrap();
    assert_eq!(&page.body()[..8], &[1, 2, 3, 4, 5, 4, 5, 0]);
}

#[test]
fn copy_body_within_rejects_ranges_outside_the_body() {
    let mut page = Page::new(PageType::Leaf, PageId::new(4));
    assert_eq!(
        page.copy_body_within(0..BODY_SIZE + 1, 0),
        Err(ShuError::InvalidBodyRange {
            page_id: PageId::new(4),
            start: 0,
            end: BODY_SIZE + 1,
            body_len: BODY_SIZE,
        })
    );
    assert_eq!(
        page.copy_body_within(0..2, BODY_SIZE - 1),
        Err(ShuError::BodyWriteLengthMismatch {
            page_id: PageId::new(4),
            range_len: 2,
            bytes_len: BODY_SIZE - 1,
        })
    );
    assert_eq!(
        page.copy_body_within(0..2, usize::MAX),
        Err(ShuError::InvalidBodyRange {
            page_id: PageId::new(4),
            start: 0,
            end: 2,
            body_len: BODY_SIZE,
        })
    );
}

#[test]
fn body_bytes_are_read_as_written() {
    let mut page = Page::new(PageType::Leaf, PageId::new(4));
    page.write_body_bytes(100..103, b"abc").unwrap();
    assert_eq!(page.read_body_bytes(100..103).unwrap(), b"abc");
    assert_eq!(page.read_body_bytes(5..5).unwrap(), b"");
    let (start, end) = (6, 5);
    assert_eq!(
        page.read_body_bytes(start..end).err(),
        Some(ShuError::InvalidBodyRange {
            page_id: PageId::new(4),
            start: 6,
            end: 5,
            body_len: BODY_SIZE,
        })
    );
}

#[test]
fn body_prefix_is_read_as_written() {
    let mut page = Page::new(PageType::Meta, PageId::new(0));
    let header = PageHeader {
        page_id: PageId::new(0x0807_0605),
        page_type: 3,
        _reserved: [1, 2, 3],
        checksum: 0x0403_0201,
        _reserved2: [4, 5, 6, 7],
    };
    page.write_body_prefix(&header).unwrap();
    assert_eq!(
        &page.body()[..17],
        &[5, 6, 7, 8, 3, 1, 2, 3, 1, 2, 3, 4, 4, 5, 6, 7, 0]
    );
    let read: PageHeader = page.read_body_prefix().unwrap();
    assert_eq!(read.page_id, header.page_id);
    assert_eq!(read.checksum, header.checksum);
    assert_eq!(read._reserved, header._reserved);
    assert_eq!(read._reserved2, header._reserved2);
}
