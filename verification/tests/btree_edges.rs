use shudb::error::ShuError;
use shudb::storage::btree::{
    distribute_internal_entries, distribute_leaf_entries, load_siblings,
    rewrite_parent_child_range, BTree, ParentChild,
};
use shudb::storage::btree_page::{
    init_internal_page, internal_entries_capacity, leaf_entries_capacity, InternalEntries,
    InternalEntry, LeafEntry,
};
use shudb::storage::codec::ByteOrder;
use shudb::storage::page::{Page, PageId, PageType, PAGE_SIZE};
use shudb::storage::pager::Pager;
use shudb::storage::tree_model::PathFrame;
use std::collections::BTreeMap;

fn id(number: u32) -> PageId {
    PageId::new(number)
}

fn saved(page: &Page) -> Page {
    let bytes: [u8; PAGE_SIZE] = page.to_bytes().try_into().unwrap();
    Page::from_bytes_in(page.order, &bytes)
}

fn reopened(tree: &BTree) -> BTree {
    let meta = saved(&tree.pager.read_page(id(0)).unwrap());
    let mut again = BTree::open(Some(meta)).unwrap();
    for number in 1..again.pager.page_count {
        let page = saved(&tree.pager.read_page(id(number)).unwrap());
        again.pager.supply(id(number), page);
    }
    again
}

fn check(tree: &BTree, expected: &BTreeMap<Vec<u8>, Vec<u8>>) {
    for (key, value) in expected {
        assert_eq!(tree.get(key).unwrap().as_ref(), Some(value));
        let mut longer = key.clone();
        longer.push(0);
        assert_eq!(
            tree.get(&longer).unwrap().as_ref(),
            expected.get(&longer)
        );
    }
}

fn numbers(count: u32) -> impl Iterator<Item = u32> {
    let mut state: u32 = 12345;
    (0..count).map(move |_| {
        state = state.wrapping_mul(1_664_525).wrapping_add(1_013_904_223);
        state >> 8
    })
}

#[test]
fn empty_database_finds_nothing() {
    let tree = BTree::open(None).unwrap();
    assert_eq!(tree.get(b"").unwrap(), None);
    assert_eq!(tree.get(b"anything").unwrap(), None);
}

#[test]
fn put_leaves_other_keys_alone() {
    let mut tree = BTree::open(None).unwrap();
    tree.put(b"a", b"1").unwrap();
    tree.put(b"b", b"2").unwrap();
    tree.put(b"a", b"3").unwrap();
    assert_eq!(tree.get(b"a").unwrap(), Some(b"3".to_vec()));
    assert_eq!(tree.get(b"b").unwrap(), Some(b"2".to_vec()));
    assert_eq!(tree.get(b"c").unwrap(), None);
}

#[test]
fn empty_keys_and_values_are_kept() {
    let mut tree = BTree::open(None).unwrap();
    tree.put(b"", b"").unwrap();
    assert_eq!(tree.get(b"").unwrap(), Some(vec![]));
    assert_eq!(tree.get(&[0]).unwrap(), None);
}

#[test]
fn records_in_any_order_are_found() {
    let mut tree = BTree::open(None).unwrap();
    let mut expected = BTreeMap::new();
    for number in numbers(1500) {
        let key = format!("key-{}", number % 997).into_bytes();
        let value = vec![(number % 251) as u8; (number % 700) as usize];
        tree.put(&key, &value).unwrap();
        expected.insert(key, value);
    }
    assert!(tree.pager.page_count > 50);
    check(&tree, &expected);
}

#[test]
fn short_keys_of_the_greatest_length_are_found() {
    let mut tree = BTree::open(None).unwrap();
    let mut expected = BTreeMap::new();
    for number in numbers(300) {
        let mut key = vec![(number % 7) as u8; 444];
        key[440..].copy_from_slice(&number.to_be_bytes());
        let value = vec![1; (number % 3500) as usize];
        tree.put(&key, &value).unwrap();
        expected.insert(key, value);
    }
    check(&tree, &expected);
}

#[test]
fn descending_keys_are_found() {
    let mut tree = BTree::open(None).unwrap();
    let mut expected = BTreeMap::new();
    for number in (0u32..600).rev() {
        let key = number.to_be_bytes().to_vec();
        let value = vec![number as u8; 300];
        tree.put(&key, &value).unwrap();
        expected.insert(key, value);
    }
    check(&tree, &expected);
}

#[test]
fn reopened_database_says_the_same() {
    let mut tree = BTree::open(None).unwrap();
    let mut expected = BTreeMap::new();
    for number in 0u32..400 {
        let key = format!("{number:05}").into_bytes();
        tree.put(&key, &[5; 100]).unwrap();
        expected.insert(key, vec![5; 100]);
    }
    let mut again = reopened(&tree);
    assert_eq!(again.pager.page_count, tree.pager.page_count);
    check(&again, &expected);

    again.put(b"00200x", b"new").unwrap();
    expected.insert(b"00200x".to_vec(), b"new".to_vec());
    check(&again, &expected);
}

#[test]
fn pages_that_a_put_changes_are_to_be_saved() {
    let mut tree = BTree::open(None).unwrap();
    for number in 0u32..200 {
        tree.put(&number.to_be_bytes(), &[1; 100]).unwrap();
    }
    let mut again = reopened(&tree);
    assert_eq!(again.pager.next_dirty(id(0)), None);
    let before: Vec<Vec<u8>> = (0..again.pager.page_count)
        .map(|number| again.pager.read_page(id(number)).unwrap().to_bytes())
        .collect();

    again.put(&7u32.to_be_bytes(), &[2; 3000]).unwrap();

    for number in 0..again.pager.page_count {
        let page = again.pager.read_page(id(number)).unwrap().to_bytes();
        if before.get(number as usize) != Some(&page) {
            assert_eq!(again.pager.next_dirty(id(number)), Some(id(number)));
        }
    }
    assert!(again.pager.next_dirty(id(0)).is_some());
}

#[test]
fn get_changes_nothing() {
    let mut tree = BTree::open(None).unwrap();
    tree.put(b"a", b"1").unwrap();
    let again = reopened(&tree);
    again.get(b"a").unwrap();
    assert_eq!(again.pager.next_dirty(id(0)), None);
}

#[test]
fn page_missing_from_memory_is_reported_until_it_is_supplied() {
    let mut tree = BTree::open(None).unwrap();
    tree.put(b"a", b"1").unwrap();
    let meta = saved(&tree.pager.read_page(id(0)).unwrap());
    let mut again = BTree::open(Some(meta)).unwrap();
    assert_eq!(again.get(b"a"), Err(ShuError::Io { page_id: id(1) }));
    again
        .pager
        .supply(id(1), saved(&tree.pager.read_page(id(1)).unwrap()));
    assert_eq!(again.get(b"a").unwrap(), Some(b"1".to_vec()));
}

#[test]
fn record_that_fills_a_leaf_page_is_put() {
    let mut tree = BTree::open(None).unwrap();
    tree.put(b"k", &[9; 4061]).unwrap();
    tree.put(b"j", &[8; 4061]).unwrap();
    assert_eq!(tree.get(b"k").unwrap(), Some(vec![9; 4061]));
    assert_eq!(tree.get(b"j").unwrap(), Some(vec![8; 4061]));
}

#[test]
fn record_larger_than_a_leaf_page_is_refused() {
    let mut tree = BTree::open(None).unwrap();
    assert_eq!(
        tree.put(b"k", &[9; 4062]),
        Err(ShuError::PageFull {
            page_id: id(2),
            needed: 4069,
            available: 4068,
        })
    );

    let mut tree = BTree::open(None).unwrap();
    for number in 0u32..200 {
        tree.put(&number.to_be_bytes(), &[1; 100]).unwrap();
    }
    assert!(matches!(
        tree.put(&7u32.to_be_bytes(), &[2; 5000]),
        Err(ShuError::PageFull {
            needed: 5010,
            available: 4068,
            ..
        })
    ));
}

#[test]
fn split_of_the_root_into_pages_with_long_keys_leaves_an_overflow() {
    let mut tree = BTree::open(None).unwrap();
    tree.put(&[1; 2100], b"").unwrap();
    tree.put(&[3; 1900], b"").unwrap();
    tree.put(&[2; 2200], b"").unwrap();

    let root = tree.pager.read_page(id(1)).unwrap();
    assert_eq!(root.page_type(), Ok(PageType::Internal));
    assert_eq!(root.is_overflow(), Ok(true));
    assert_eq!(root.internal_entries().unwrap().entries.len(), 2);
    assert_eq!(tree.get(&[2; 2200]), Err(ShuError::InvalidPageType));
}

#[test]
fn put_fails_when_no_further_page_can_be_counted() {
    let mut tree = BTree::open(None).unwrap();
    tree.pager.page_count = u32::MAX;
    tree.put(b"a", &[1; 3000]).unwrap();
    assert_eq!(tree.put(b"b", &[1; 3000]), Err(ShuError::TooManyPages));
    assert_eq!(tree.add_page(PageType::Leaf), Err(ShuError::TooManyPages));
}

#[test]
fn balance_of_a_page_without_a_path_is_an_error() {
    let mut tree = BTree::open(None).unwrap();
    let leaf = tree.pager.allocate(PageType::Leaf).unwrap();
    assert_eq!(tree.balance(leaf, vec![]), Err(ShuError::Rebalance));
    assert_eq!(tree.balance(id(0), vec![]), Ok(()));
    assert_eq!(tree.balance(id(1), vec![]), Ok(()));
}

#[test]
fn descent_in_a_circle_is_an_error() {
    let mut tree = BTree::open(None).unwrap();
    let mut root = tree.pager.read_page(id(1)).unwrap();
    root.set_page_type(PageType::Internal);
    init_internal_page(&mut root).unwrap();
    root.set_right_child(id(1)).unwrap();
    tree.pager.write_page(id(1), &root).unwrap();

    let corrupted = ShuError::CorruptedPage { page_id: id(1) };
    assert_eq!(tree.get(b"a"), Err(corrupted));
    assert_eq!(tree.put(b"a", b"b"), Err(corrupted));
}

#[test]
fn descent_to_a_meta_page_is_an_error() {
    let mut tree = BTree::open(None).unwrap();
    let mut root = tree.pager.read_page(id(1)).unwrap();
    root.set_page_type(PageType::Internal);
    init_internal_page(&mut root).unwrap();
    tree.pager.write_page(id(1), &root).unwrap();
    assert_eq!(tree.get(b"a"), Err(ShuError::InvalidPageType));
}

#[test]
fn descent_to_a_page_past_the_count_is_an_error() {
    let mut tree = BTree::open(None).unwrap();
    let mut root = tree.pager.read_page(id(1)).unwrap();
    root.set_page_type(PageType::Internal);
    init_internal_page(&mut root).unwrap();
    root.set_right_child(id(7)).unwrap();
    tree.pager.write_page(id(1), &root).unwrap();
    assert_eq!(
        tree.get(b"a"),
        Err(ShuError::PageNotFound { page_id: id(7) })
    );
}

fn entries(sizes: &[usize]) -> Vec<LeafEntry> {
    sizes
        .iter()
        .enumerate()
        .map(|(index, size)| LeafEntry::new(vec![index as u8], vec![0; size - 7]))
        .collect()
}

fn lengths(groups: &[Vec<LeafEntry>]) -> Vec<usize> {
    groups.iter().map(|group| group.len()).collect()
}

#[test]
fn leaf_entries_are_spread_over_full_groups() {
    assert_eq!(lengths(&distribute_leaf_entries(vec![])), vec![]);
    assert_eq!(
        lengths(&distribute_leaf_entries(entries(&[2034, 2034, 2034]))),
        vec![2, 1]
    );
    assert_eq!(
        lengths(&distribute_leaf_entries(entries(&[2034, 2035, 2034]))),
        vec![1, 1, 1]
    );
    assert_eq!(
        lengths(&distribute_leaf_entries(entries(&[100, 9000, 100, 100]))),
        vec![1, 1, 2]
    );
}

fn separators(sizes: &[usize]) -> Vec<InternalEntry> {
    sizes
        .iter()
        .enumerate()
        .map(|(index, size)| InternalEntry::new(id(index as u32 + 10), vec![index as u8; size - 8]))
        .collect()
}

#[test]
fn internal_entries_are_spread_with_a_separator_between_groups() {
    let groups = distribute_internal_entries(InternalEntries::new(
        separators(&[2036, 2036, 500, 4000, 100, 100]),
        id(99),
    ));
    let shape: Vec<(usize, u32)> = groups
        .iter()
        .map(|group| (group.entries.entries.len(), group.entries.right_child.get()))
        .collect();
    assert_eq!(shape, vec![(2, 12), (1, 14), (1, 99)]);
    assert_eq!(groups[0].promoted_separator, Some(vec![2; 492]));
    assert_eq!(groups[1].promoted_separator, Some(vec![4; 92]));
    assert_eq!(groups[2].promoted_separator, None);

    let groups = distribute_internal_entries(InternalEntries::new(vec![], id(4)));
    assert_eq!(groups.len(), 1);
    assert_eq!(groups[0].entries.right_child, id(4));

    let groups =
        distribute_internal_entries(InternalEntries::new(separators(&[4072, 8]), id(99)));
    assert_eq!(groups.len(), 2);
    assert_eq!(groups[0].entries.right_child, id(11));
    assert_eq!(groups[1].entries.entries.len(), 0);
    assert_eq!(groups[1].entries.right_child, id(99));
}

/// The least number of groups over all cuts of the sizes, each group within the capacity or of
/// one record. `between` records stand between two groups and belong to neither.
fn fewest(sizes: &[usize], capacity: usize, between: usize) -> usize {
    let total: usize = sizes.iter().sum();
    if total <= capacity || (sizes.len() == 1 && between == 0) {
        return 1;
    }
    let mut least = usize::MAX;
    for len in (1 - between)..=(sizes.len() - 1) {
        let group: usize = sizes[..len].iter().sum();
        if group <= capacity || len + between == 1 {
            least = least.min(1 + fewest(&sizes[len + between..], capacity, between));
        }
    }
    least
}

#[test]
fn no_other_groups_are_fewer() {
    for sizes in [
        vec![1500, 2600, 1400, 2600, 100],
        vec![100, 4000, 68, 68, 3900, 2000, 2000],
        vec![4068, 10, 4068, 10, 4068],
        vec![9000, 30, 9000, 4000, 40],
    ] {
        assert_eq!(
            distribute_leaf_entries(entries(&sizes)).len(),
            fewest(&sizes, leaf_entries_capacity(), 0)
        );
    }
    for sizes in [
        vec![1500, 2600, 1400, 2600, 100],
        vec![100, 4000, 72, 72, 3900, 2000, 2000],
        vec![2036, 2036, 500, 4000, 100, 100],
        vec![3000, 3000, 3000, 3000, 3000, 3000],
    ] {
        assert_eq!(
            distribute_internal_entries(InternalEntries::new(separators(&sizes), id(99))).len(),
            fewest(&sizes, internal_entries_capacity(), 1)
        );
    }
}

fn parent() -> Page {
    let mut page = Page::new(PageType::Internal, id(30));
    page.rewrite_internal_entries(&InternalEntries::new(
        vec![
            InternalEntry::new(id(2), b"b".to_vec()),
            InternalEntry::new(id(3), b"d".to_vec()),
        ],
        id(4),
    ))
    .unwrap();
    page
}

#[test]
fn siblings_are_the_neighbours() {
    let found = |page: u32| -> Vec<(u32, u16)> {
        load_siblings(id(page), &parent())
            .unwrap()
            .iter()
            .map(|sibling| (sibling.page.get(), sibling.index))
            .collect()
    };
    assert_eq!(found(2), vec![(3, 1)]);
    assert_eq!(found(3), vec![(2, 0), (4, 2)]);
    assert_eq!(found(4), vec![(3, 1)]);
    assert_eq!(
        load_siblings(id(5), &parent()).err(),
        Some(ShuError::CorruptedPage { page_id: id(30) })
    );
}

fn child(number: u32, separator: Option<&[u8]>) -> ParentChild {
    ParentChild {
        page_id: id(number),
        separator: separator.map(|bytes| bytes.to_vec()),
    }
}

#[test]
fn children_of_a_parent_are_replaced() {
    let mut page = parent();
    rewrite_parent_child_range(
        &mut page,
        0,
        1,
        vec![child(7, Some(b"a")), child(8, Some(b"c")), child(9, Some(b"d"))],
    )
    .unwrap();
    let read = page.internal_entries().unwrap();
    let shape: Vec<(u32, &[u8])> = read
        .entries
        .iter()
        .map(|entry| (entry.child.get(), &entry.separator[..]))
        .collect();
    assert_eq!(shape, vec![(7, &b"a"[..]), (8, b"c"), (9, b"d")]);
    assert_eq!(read.right_child, id(4));

    rewrite_parent_child_range(&mut page, 1, 3, vec![child(5, None)]).unwrap();
    let read = page.internal_entries().unwrap();
    assert_eq!(read.entries.len(), 1);
    assert_eq!(read.right_child, id(5));
}

#[test]
fn children_without_the_separators_they_need_are_refused() {
    let corrupted = Err(ShuError::CorruptedPage { page_id: id(30) });
    let mut page = parent();
    let before = page.to_bytes();
    assert_eq!(
        rewrite_parent_child_range(&mut page, 0, 0, vec![child(7, None)]),
        corrupted
    );
    assert_eq!(
        rewrite_parent_child_range(&mut page, 0, 2, vec![]),
        corrupted
    );
    assert_eq!(
        rewrite_parent_child_range(&mut page, 0, 3, vec![child(7, None)]),
        corrupted
    );
    assert_eq!(
        rewrite_parent_child_range(&mut page, 2, 0, vec![child(7, None)]),
        corrupted
    );
    assert_eq!(page.to_bytes(), before);
}

fn two_leaves() -> (BTree, PageId, PageId) {
    let mut tree = BTree::open(None).unwrap();
    let left = tree.add_page(PageType::Leaf).unwrap();
    let right = tree.add_page(PageType::Leaf).unwrap();
    tree.rewrite_leaf(
        left,
        &[
            LeafEntry::new(b"a".to_vec(), vec![1; 1900]),
            LeafEntry::new(b"b".to_vec(), vec![2; 1900]),
        ],
    )
    .unwrap();
    tree.rewrite_leaf(right, &[LeafEntry::new(b"d".to_vec(), vec![4; 100])])
        .unwrap();
    let mut root = tree.pager.read_page(id(1)).unwrap();
    root.set_page_type(PageType::Internal);
    root.rewrite_internal_entries(&InternalEntries::new(
        vec![InternalEntry::new(left, b"b".to_vec())],
        right,
    ))
    .unwrap();
    tree.pager.write_page(id(1), &root).unwrap();
    (tree, left, right)
}

#[test]
fn underfull_leaf_shares_with_its_neighbour() {
    let (mut tree, left, right) = two_leaves();
    tree.put(b"c", &[3; 50]).unwrap();

    let keys = |page: PageId| -> Vec<Vec<u8>> {
        tree.pager
            .read_page(page)
            .unwrap()
            .leaf_entries()
            .unwrap()
            .into_iter()
            .map(|entry| entry.key)
            .collect()
    };
    assert_eq!(keys(left), vec![b"a".to_vec(), b"b".to_vec(), b"c".to_vec(), b"d".to_vec()]);
    let root = tree.pager.read_page(id(1)).unwrap().internal_entries().unwrap();
    assert_eq!(root.entries.len(), 0);
    assert_eq!(root.right_child, left);
    assert!(keys(right).contains(&b"d".to_vec()));
    for (key, value) in [(b"a", 1), (b"b", 2), (b"c", 3), (b"d", 4)] {
        assert_eq!(tree.get(key).unwrap().unwrap()[0], value);
    }
}

#[test]
fn overfull_leaf_takes_a_new_page() {
    let (mut tree, left, right) = two_leaves();
    tree.put(b"aa", &[9; 4000]).unwrap();

    let root = tree.pager.read_page(id(1)).unwrap().internal_entries().unwrap();
    let shape: Vec<(u32, &[u8])> = root
        .entries
        .iter()
        .map(|entry| (entry.child.get(), &entry.separator[..]))
        .collect();
    assert_eq!(
        shape,
        vec![(left.get(), &b"a"[..]), (right.get(), b"aa")]
    );
    assert_eq!(root.right_child, id(4));
    for (key, value) in [(&b"a"[..], 1), (b"aa", 9), (b"b", 2), (b"d", 4)] {
        assert_eq!(tree.get(key).unwrap().unwrap()[0], value);
    }
}

#[test]
fn search_reports_the_path_to_the_leaf() {
    let (tree, left, right) = two_leaves();
    let found = tree.search(b"b").unwrap();
    assert_eq!(found.leaf_id, left);
    assert_eq!(
        found.path,
        vec![PathFrame {
            page_id: id(1),
            child_index: 0
        }]
    );
    let found = tree.search(b"bb").unwrap();
    assert_eq!(found.leaf_id, right);
    assert_eq!(found.path[0].child_index, 1);
}

#[test]
fn windows_are_loaded_in_order_of_the_children() {
    let (tree, left, right) = two_leaves();
    let root = tree.pager.read_page(id(1)).unwrap();
    for (page, index) in [(left, 0), (right, 1)] {
        let window = tree.load_window(page, &root, index).unwrap();
        let shape: Vec<(PageId, u16)> = window
            .iter()
            .map(|loaded| (loaded.page.id(), loaded.index))
            .collect();
        assert_eq!(shape, vec![(left, 0), (right, 1)]);
    }
}

#[test]
fn window_that_does_not_match_its_parent_is_refused() {
    let (mut tree, left, right) = two_leaves();
    // The records come in the wrong order.
    assert_eq!(
        tree.redistribute_leaf_window(id(1), left, 9),
        Err(ShuError::CorruptedPage { page_id: right })
    );
    assert_eq!(
        tree.redistribute_internal_window(id(1), left, 9),
        Err(ShuError::CorruptedPage { page_id: id(1) })
    );
    assert_eq!(
        tree.redistribute_internal_window(id(1), left, 0),
        Err(ShuError::InvalidPageType)
    );
}

#[test]
fn database_in_either_byte_order_gives_back_what_was_put() {
    for order in [ByteOrder::Little, ByteOrder::Big] {
        let mut tree = BTree {
            pager: Pager::open_in(order, None).unwrap(),
        };
        let mut expected = BTreeMap::new();
        for number in 0..3000u32 {
            let key = format!("key-{}", (number * 7919) % 2003).into_bytes();
            let value = vec![number as u8; (number % 90) as usize];
            tree.put(&key, &value).unwrap();
            expected.insert(key, value);
        }
        check(&tree, &expected);
        let again = reopened(&tree);
        assert_eq!(again.pager.order, order);
        assert!((0..again.pager.page_count)
            .all(|number| again.pager.read_page(id(number)).unwrap().order == order));
        check(&again, &expected);
    }
}

#[test]
fn new_database_is_in_the_byte_order_of_the_machine() {
    let tree = BTree::open(None).unwrap();
    let meta = tree.pager.read_page(id(0)).unwrap();
    assert_eq!(tree.pager.order, meta.order);
    assert_eq!(&meta.body()[..4], &1u32.to_ne_bytes());
    assert_eq!(&meta.body()[4..8], &2u32.to_ne_bytes());
}
