use kaitodb::bplus_tree::BPlusTree;
use kaitodb::buffer_pool::BufferPool;
use kaitodb::disk::Disk;
use kaitodb::key_value_pair::KeyValuePair;
use kaitodb::node::{Error, IndexRecord, Node, NodeType, INDEX_RECORD_SIZE};
use kaitodb::page::ItemManager;
use rand::Rng;

/// An index file made by `create_index`, with the page of its root written back.
fn created_index() -> (Disk, u32) {
    let mut disk = Disk::new();
    let mut pool = BufferPool::default();
    let tree = BPlusTree::create_index("user.index", 20, &mut pool, &mut disk);
    let root_uuid = tree.root.uuid;
    pool.flush_page(&mut disk, 4);
    (disk, root_uuid)
}

/// Writes back every buffer of the index file.
fn flush_index(pool: &mut BufferPool, disk: &mut Disk) {
    for i in 0..pool.slots() {
        if pool.buffer_at(i).file_name == "user.index" {
            pool.flush_page(disk, i);
        }
    }
}

/// An index whose root holds key 2 and points to a leaf that holds the pair
/// (2, uuid of the leaf) for keys up to 2, and to an empty leaf for the keys
/// above; the first leaf's uuid is returned too. The root's first
/// child uuid shares its bytes 1..4 with the entry count, so the leaf goes on
/// page 0 under the salt `2 * 256 + last`.
fn index_with_key_2() -> (Disk, u32) {
    let (mut disk, root_uuid) = created_index();
    let mut pool = BufferPool::default();
    let mut handler = ItemManager::new_item_handler("user.index".to_string(), 0);
    let last: u8 = if root_uuid == 2 * 256 + 7 { 8 } else { 7 };
    let leaf_uuid = 2 * 256 + last as u32;
    let mut leaf = vec![0u8; INDEX_RECORD_SIZE];
    leaf[0] = 2;
    leaf[8] = 2;
    leaf[13] = 2;
    leaf[14..18].copy_from_slice(&leaf_uuid.to_be_bytes());
    let got = handler.insert_item_with(&mut pool, &disk, leaf, leaf_uuid as u16);
    assert_eq!(got, leaf_uuid);
    let right_uuid: u32 = if root_uuid == 0x0777 { 0x0778 } else { 0x0777 };
    let mut right = vec![0u8; INDEX_RECORD_SIZE];
    right[0] = 2;
    right[1..5].copy_from_slice(&root_uuid.to_be_bytes());
    right[8] = 1;
    let got_right = handler.insert_item_with(&mut pool, &disk, right, right_uuid as u16);
    assert_eq!(got_right, right_uuid);
    let mut root = vec![0u8; INDEX_RECORD_SIZE];
    root[0] = 3;
    root[8] = 2;
    root[9] = last;
    root[13] = 2;
    root[19..23].copy_from_slice(&right_uuid.to_be_bytes());
    handler.update_item_by_uuid(&mut pool, &disk, root_uuid, root);
    flush_index(&mut pool, &mut disk);
    (disk, leaf_uuid)
}

#[test]
fn test_create_index() {
    let mut disk = Disk::new();
    let mut buffer_pool = BufferPool::default();
    let b_plus_tree = BPlusTree::create_index("user.index", 20, &mut buffer_pool, &mut disk);
    assert_eq!(buffer_pool.buffer_at(4).file_name, "user.index");
    buffer_pool.flush_page(&mut disk, 4);
    assert!(matches!(b_plus_tree.root.node_type, NodeType::Root));
    assert_eq!(b_plus_tree.root.parent_uuid, 0);
    assert_eq!(b_plus_tree.root.uuid >> 16, 0);
    assert_eq!(b_plus_tree.root.content.data.len(), INDEX_RECORD_SIZE);
    assert_eq!(b_plus_tree.root.content.data[0], 1);
    assert!(b_plus_tree.root.content.data[1..].iter().all(|b| *b == 0));
}

#[test]
fn test_get_index() {
    let (disk, root_uuid) = created_index();
    let mut buffer_pool = BufferPool::default();
    let b_plus_tree = BPlusTree::open_index("user.index", &mut buffer_pool, &disk);
    println!("{}", b_plus_tree.root.uuid);
    assert_eq!(b_plus_tree.root.uuid, root_uuid);
    assert!(matches!(b_plus_tree.root.node_type, NodeType::Root));
    assert_eq!(b_plus_tree.root.content.data[0], 1);
    assert_eq!(b_plus_tree.root.content.data.len(), INDEX_RECORD_SIZE);
}

#[test]
fn test_find_index() {
    let (disk, leaf_uuid) = index_with_key_2();
    let mut buffer_pool = BufferPool::default();
    let mut b_plus_tree = BPlusTree::open_index("user.index", &mut buffer_pool, &disk);
    let key_value_pair = b_plus_tree.search(&mut buffer_pool, &disk, 2);
    let kv = key_value_pair.ok().unwrap();
    println!("所查找的uuid是{}", kv.value);
    assert_eq!(kv.key, 2);
    assert_eq!(kv.value, leaf_uuid);
}

#[test]
fn test_delete_index() {
    let (disk, leaf_uuid) = index_with_key_2();
    let mut buffer_pool = BufferPool::default();
    let mut b_plus_tree = BPlusTree::open_index("user.index", &mut buffer_pool, &disk);
    let mut key_value_pair = b_plus_tree.search(&mut buffer_pool, &disk, 2);
    println!("所查找的uuid是{}", key_value_pair.as_ref().ok().unwrap().value);
    assert_eq!(key_value_pair.as_ref().ok().unwrap().value, leaf_uuid);
    b_plus_tree.delete_index(&mut buffer_pool, &disk, 2);
    key_value_pair = b_plus_tree.search(&mut buffer_pool, &disk, 2);
    let kv = key_value_pair.ok().unwrap();
    println!("所查找的uuid是{}", kv.value);
    assert_eq!(kv.key, 0);
    assert_eq!(kv.value, 0);
}

#[test]
fn search_answers_key_not_found_at_a_leaf_without_the_key() {
    let (disk, _) = index_with_key_2();
    let mut pool = BufferPool::default();
    let mut tree = BPlusTree::open_index("user.index", &mut pool, &disk);
    assert!(matches!(tree.search(&mut pool, &disk, 1), Err(Error::KeyNotFound)));
}

#[test]
fn insert_of_an_existing_key_is_refused() {
    let (disk, leaf_uuid) = index_with_key_2();
    let mut pool = BufferPool::default();
    let mut tree = BPlusTree::open_index("user.index", &mut pool, &disk);
    let kv = KeyValuePair::new(2, 99);
    assert!(matches!(tree.insert(&mut pool, &disk, kv), Err(Error::KeyAlreadyExists)));
    let again = tree.search(&mut pool, &disk, 2).ok().unwrap();
    assert_eq!(again.value, leaf_uuid);
}

fn leaf_record() -> Vec<u8> {
    let mut d = vec![0u8; INDEX_RECORD_SIZE];
    d[0] = 2;
    d[1..5].copy_from_slice(&9u32.to_be_bytes());
    d[8] = 3;
    d[10..14].copy_from_slice(&5u32.to_be_bytes());
    d[14..18].copy_from_slice(&50u32.to_be_bytes());
    d[23..27].copy_from_slice(&8u32.to_be_bytes());
    d[27..31].copy_from_slice(&80u32.to_be_bytes());
    d
}

#[test]
fn node_reads_its_record() {
    let mut n = Node::create_from(leaf_record(), 77);
    assert!(matches!(n.node_type, NodeType::Leaf));
    assert_eq!(n.parent_uuid, 9);
    assert_eq!(n.uuid, 77);
    assert_eq!(n.get_parent_uuid().ok(), Some(9));
    assert_eq!(n.get_keys_number().ok(), Some(3));
    assert_eq!(n.get_keys().ok(), Some(vec![5, 8]));
    assert_eq!(n.get_children().ok(), Some(vec![768, 0, 0]));
    let kvs = n.get_key_value_pairs().ok().unwrap();
    let pairs: Vec<(u32, u32)> = kvs.iter().map(|kv| (kv.key, kv.value)).collect();
    assert_eq!(pairs, vec![(5, 50), (8, 80), (0, 0)]);
    assert_eq!(n.content.get_value_from_offset(14).ok(), Some(50));
}

#[test]
fn node_delete_record_marks_the_key() {
    let mut n = Node::create_from(leaf_record(), 1);
    n.delete_record(8);
    assert_eq!(n.content.data[31], 1);
    assert_eq!(n.content.data[18], 0);
    let kvs = n.get_key_value_pairs().ok().unwrap();
    let pairs: Vec<(u32, u32)> = kvs.iter().map(|kv| (kv.key, kv.value)).collect();
    assert_eq!(pairs, vec![(5, 50), (0, 0)]);
}

#[test]
fn node_add_pair_below_the_first_key() {
    let mut n = Node::create_from(leaf_record(), 1);
    assert!(n.add_key_value_pair(KeyValuePair::new(1, 10)).is_ok());
    assert_eq!(n.content.get_value_from_offset(10).ok(), Some(1));
    assert_eq!(n.content.get_value_from_offset(14).ok(), Some(10));
    assert_eq!(n.content.get_value_from_offset(23).ok(), Some(5));
    let first = n.get_key_value_pairs().ok().unwrap()[0];
    assert_eq!((first.key, first.value), (1, 10));
    assert_eq!(n.get_keys_number().ok(), Some(3));
    let mut m = Node::create_from(leaf_record(), 1);
    assert!(m.add_key_value_pair(KeyValuePair::new(6, 60)).is_ok());
    assert_eq!(m.content.data, leaf_record());
}

#[test]
fn node_errors_on_wrong_types() {
    let mut d = leaf_record();
    d[0] = 7;
    let n = Node::create_from(d.clone(), 1);
    assert!(matches!(n.node_type, NodeType::Unknown));
    assert!(matches!(n.get_keys(), Err(Error::UnexpectedError)));
    assert!(matches!(n.get_keys_number(), Err(Error::UnexpectedError)));
    assert!(matches!(n.get_children(), Err(Error::UnexpectedError)));
    assert!(matches!(n.get_key_value_pairs(), Err(Error::UnexpectedError)));
    let mut inner = Node::new(NodeType::Internal, 0, false, 4, leaf_record());
    assert!(matches!(inner.get_key_value_pairs(), Err(Error::UnexpectedError)));
    assert!(matches!(inner.add_key_value_pair(KeyValuePair::new(1, 1)), Err(Error::UnexpectedError)));
    assert_eq!(inner.content.data, leaf_record());
}

#[test]
fn node_split_keeps_the_upper_entries() {
    let mut n = Node::create_from(leaf_record(), 1);
    let upper = n.split().ok().unwrap();
    assert!(matches!(upper.node_type, NodeType::Internal));
    assert_eq!(upper.uuid, 9);
    assert_eq!(upper.parent_uuid, 9);
    let data = &upper.content.data;
    assert_eq!(data[0], 1);
    assert_eq!(&data[1..5], &9u32.to_be_bytes());
    assert_eq!(&data[5..], &leaf_record()[32..INDEX_RECORD_SIZE]);
    assert_eq!(n.content.data, leaf_record());
}

#[test]
fn record_offsets() {
    let r = IndexRecord { data: vec![0, 0, 1, 2, 3, 4] };
    assert_eq!(r.get_value_from_offset(2).ok(), Some(0x01020304));
    let kv = KeyValuePair::new(3, 4);
    assert_eq!((kv.key, kv.value), (3, 4));
}

#[test]
fn test_insert_key_value() {
    let (disk, _) = index_with_key_2();
    let mut buffer_pool = BufferPool::default();
    let mut b_plus_tree = BPlusTree::open_index("user.index", &mut buffer_pool, &disk);
    let mut rng = rand::thread_rng();
    let mut values: Vec<u32> = Vec::new();
    for i in 0..10 {
        let u16: u16 = rng.gen();
        let kv = KeyValuePair { key: i, value: (1 << 16) + u16 as u32 };
        values.push(kv.value);
        let r = b_plus_tree.insert(&mut buffer_pool, &disk, kv);
        if i == 2 || i >= 7 {
            assert!(matches!(r, Err(Error::KeyAlreadyExists)));
        } else {
            assert!(r.is_ok());
        }
    }
    for i in [0u32, 1, 3, 4, 5, 6] {
        let kv = b_plus_tree.search(&mut buffer_pool, &disk, i).ok().unwrap();
        assert_eq!((kv.key, kv.value), (i, values[i as usize]));
    }
    for i in [7u32, 8, 9] {
        assert!(matches!(b_plus_tree.search(&mut buffer_pool, &disk, i), Err(Error::KeyNotFound)));
    }
}

#[test]
fn insert_then_search_finds_the_pair() {
    let (disk, _) = index_with_key_2();
    let mut pool = BufferPool::default();
    let mut tree = BPlusTree::open_index("user.index", &mut pool, &disk);
    assert!(matches!(tree.search(&mut pool, &disk, 1), Err(Error::KeyNotFound)));
    assert!(tree.insert(&mut pool, &disk, KeyValuePair::new(1, 111)).is_ok());
    let kv = tree.search(&mut pool, &disk, 1).ok().unwrap();
    assert_eq!((kv.key, kv.value), (1, 111));
    let two = tree.search(&mut pool, &disk, 2).ok().unwrap();
    assert_eq!(two.key, 2);
    let root = tree.root.duplicate();
    assert!(tree.insert_internal(&mut pool, &disk, root, KeyValuePair::new(0, 100)).is_ok());
    let zero = tree.search(&mut pool, &disk, 0).ok().unwrap();
    assert_eq!((zero.key, zero.value), (0, 100));
    let one = tree.search(&mut pool, &disk, 1).ok().unwrap();
    assert_eq!((one.key, one.value), (1, 111));
}

#[test]
fn delete_record_marks_a_key_of_a_full_record() {
    let mut d = vec![0u8; INDEX_RECORD_SIZE];
    d[0] = 2;
    d[8] = 5;
    for (i, k) in [10u32, 20, 30, 40].iter().enumerate() {
        let at = 6 + 13 * i + 4;
        d[at..at + 4].copy_from_slice(&k.to_be_bytes());
    }
    let mut n = Node::create_from(d.clone(), 1);
    n.delete_record(40);
    assert_eq!(n.content.data[6 + 13 * 3 + 12], 1);
    let mut expected = d.clone();
    expected[6 + 13 * 3 + 12] = 1;
    assert_eq!(n.content.data, expected);
    let mut m = Node::create_from(d.clone(), 1);
    m.delete_record(99);
    assert_eq!(m.content.data, d);
}

#[test]
fn add_pair_to_a_short_empty_leaf() {
    let mut n = Node::create_from(vec![2, 0, 0, 0, 0, 0, 0, 0, 0], 1);
    assert!(n.add_key_value_pair(KeyValuePair::new(1, 2)).is_ok());
    assert_eq!(n.content.data, vec![2, 0, 0, 0, 0, 0, 0, 0, 0]);
}
