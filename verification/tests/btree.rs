use shudb::storage::btree::BTree;
use shudb::storage::btree_page::{init_internal_page, InternalEntry};
use shudb::storage::page::{PageId, PageType};

fn allocate_leaf_with_records(tree: &mut BTree, records: &[(&[u8], &[u8])]) -> PageId {
    let page_id = tree.pager.allocate(PageType::Leaf).unwrap();
    let mut page = tree.pager.read_page(page_id).unwrap();
    for &(key, value) in records {
        page.insert_leaf_entry(key, value).unwrap();
    }
    tree.pager.write_page(page_id, &page).unwrap();
    page_id
}

fn tree_with_internal_root() -> BTree {
    let mut tree = BTree::open(None).unwrap();
    let left_leaf = allocate_leaf_with_records(
        &mut tree,
        &[
            (&b"ant"[..], &b"left-ant"[..]),
            (&b"cat"[..], &b"left-cat"[..]),
        ],
    );
    let middle_left_leaf = allocate_leaf_with_records(
        &mut tree,
        &[
            (&b"cow"[..], &b"middle-cow"[..]),
            (&b"dog"[..], &b"middle-dog"[..]),
        ],
    );
    let middle_right_leaf = allocate_leaf_with_records(
        &mut tree,
        &[
            (&b"elk"[..], &b"right-elk"[..]),
            (&b"fox"[..], &b"right-fox"[..]),
        ],
    );
    let right_leaf = allocate_leaf_with_records(
        &mut tree,
        &[
            (&b"yak"[..], &b"tail-yak"[..]),
            (&b"zoo"[..], &b"tail-zoo"[..]),
        ],
    );

    let root_page_id = tree.pager.root_page_id();
    let mut root = tree.pager.read_page(root_page_id).unwrap();
    root.set_page_type(PageType::Internal);
    init_internal_page(&mut root).unwrap();
    root.append_internal_entry(&InternalEntry::new(left_leaf, b"cat".to_vec()))
        .unwrap();
    root.append_internal_entry(&InternalEntry::new(middle_left_leaf, b"dog".to_vec()))
        .unwrap();
    root.append_internal_entry(&InternalEntry::new(middle_right_leaf, b"fox".to_vec()))
        .unwrap();
    root.set_right_child(right_leaf).unwrap();
    tree.pager.write_page(root_page_id, &root).unwrap();

    tree
}

#[test]
fn btree_get_descends_through_internal_root_to_find_keys() {
    let tree = tree_with_internal_root();

    assert_eq!(tree.get(b"ant").unwrap(), Some(b"left-ant".to_vec()));
    assert_eq!(tree.get(b"cat").unwrap(), Some(b"left-cat".to_vec()));
    assert_eq!(tree.get(b"cow").unwrap(), Some(b"middle-cow".to_vec()));
    assert_eq!(tree.get(b"dog").unwrap(), Some(b"middle-dog".to_vec()));
    assert_eq!(tree.get(b"elk").unwrap(), Some(b"right-elk".to_vec()));
    assert_eq!(tree.get(b"fox").unwrap(), Some(b"right-fox".to_vec()));
    assert_eq!(tree.get(b"yak").unwrap(), Some(b"tail-yak".to_vec()));
    assert_eq!(tree.get(b"zoo").unwrap(), Some(b"tail-zoo".to_vec()));
}

#[test]
fn btree_get_returns_none_after_internal_descent() {
    let tree = tree_with_internal_root();

    assert_eq!(tree.get(b"ape").unwrap(), None);
    assert_eq!(tree.get(b"doe").unwrap(), None);
    assert_eq!(tree.get(b"gnu").unwrap(), None);
    assert_eq!(tree.get(b"zip").unwrap(), None);
}

#[test]
fn btree_put_inserts_after_internal_descent() {
    let mut tree = tree_with_internal_root();

    tree.put(b"ape", b"left-ape").unwrap();
    tree.put(b"doe", b"middle-doe").unwrap();
    tree.put(b"fop", b"right-fop").unwrap();
    tree.put(b"zip", b"tail-zip").unwrap();

    assert_eq!(tree.get(b"ape").unwrap(), Some(b"left-ape".to_vec()));
    assert_eq!(tree.get(b"doe").unwrap(), Some(b"middle-doe".to_vec()));
    assert_eq!(tree.get(b"fop").unwrap(), Some(b"right-fop".to_vec()));
    assert_eq!(tree.get(b"zip").unwrap(), Some(b"tail-zip".to_vec()));
}

#[test]
fn btree_put_replaces_after_internal_descent() {
    let mut tree = tree_with_internal_root();

    tree.put(b"cat", b"left-cat-updated").unwrap();
    tree.put(b"dog", b"middle-dog-updated").unwrap();
    tree.put(b"fox", b"right-fox-updated").unwrap();
    tree.put(b"zoo", b"tail-zoo-updated").unwrap();

    assert_eq!(
        tree.get(b"cat").unwrap(),
        Some(b"left-cat-updated".to_vec())
    );
    assert_eq!(
        tree.get(b"dog").unwrap(),
        Some(b"middle-dog-updated".to_vec())
    );
    assert_eq!(
        tree.get(b"fox").unwrap(),
        Some(b"right-fox-updated".to_vec())
    );
    assert_eq!(
        tree.get(b"zoo").unwrap(),
        Some(b"tail-zoo-updated".to_vec())
    );
}

#[test]
fn btree_put_get_round_trip_on_root_leaf() {
    let mut tree = BTree::open(None).unwrap();
    tree.put(b"cat", b"meow").unwrap();

    assert_eq!(tree.get(b"cat").unwrap(), Some(b"meow".to_vec()));
    assert_eq!(tree.get(b"dog").unwrap(), None);
}

#[test]
fn btree_put_replaces_existing_root_leaf_value() {
    let mut tree = BTree::open(None).unwrap();
    tree.put(b"cat", b"meow").unwrap();
    tree.put(b"cat", b"purr").unwrap();

    assert_eq!(tree.get(b"cat").unwrap(), Some(b"purr".to_vec()));
}

#[test]
fn btree_put_splits_root_leaf_when_full() {
    let mut tree = BTree::open(None).unwrap();

    for index in 0..70 {
        let key = format!("key-{index:03}");
        let value = vec![index as u8; 48];
        tree.put(key.as_bytes(), &value).unwrap();
    }

    for index in 0..70 {
        let key = format!("key-{index:03}");
        let value = vec![index as u8; 48];
        assert_eq!(tree.get(key.as_bytes()).unwrap(), Some(value));
    }
}

#[test]
fn btree_put_splits_internal_parent_when_full() {
    let mut tree = BTree::open(None).unwrap();

    for index in 0..700 {
        let key = format!("key-{index:04}");
        let value = vec![index as u8; 900];
        tree.put(key.as_bytes(), &value)
            .unwrap_or_else(|error| panic!("insert {key} failed: {error:?}"));
    }

    for index in 0..700 {
        let key = format!("key-{index:04}");
        let value = vec![index as u8; 900];
        assert_eq!(tree.get(key.as_bytes()).unwrap(), Some(value));
    }
}
