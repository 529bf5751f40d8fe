use kaitodb::buffer_pool::{BufferPool, BufferPoolBuilder};
use kaitodb::disk::{Disk, DiskManager, SIZE};
use kaitodb::page::ItemManager;
use kaitodb::record::{Format, TableManager};

fn user_formats() -> Vec<Format> {
    let format_a = Format { attr_name: "userID".to_string(), attr_type: 1 };
    let format_b = Format { attr_name: "userName".to_string(), attr_type: 2 };
    vec![format_a, format_b]
}

fn user_table() -> TableManager {
    let mut table_manager = TableManager { buffer_pool: BufferPool::default(), disk: Disk::new() };
    let _ = table_manager.create_table("user", user_formats(), 20);
    table_manager
}

fn user_item(id: u32, name: &str) -> Vec<u8> {
    let mut vec: Vec<u8> = Vec::new();
    vec.push(4);
    for b in id.to_be_bytes().iter() {
        vec.push(*b);
    }
    vec.push(name.len() as u8);
    for b in name.bytes() {
        vec.push(b);
    }
    vec
}

#[test]
fn test_create_table() {
    let buffer_pool = BufferPool::default();
    let format_a = Format { attr_name: "userID".to_string(), attr_type: 1 };
    let format_b = Format { attr_name: "userName".to_string(), attr_type: 2 };
    let attr_vec = vec![format_a, format_b];
    let mut table_manager = TableManager { buffer_pool, disk: Disk::new() };
    let table_handler = table_manager.create_table("user", attr_vec, 20);

    let table_h = table_manager.open_table("user");
    assert_eq!(table_handler.attr_num, 2);
    assert_eq!(table_h.attr_num, 2);
    assert_eq!(table_h.attr_format[0].attr_name, "userID");
    assert_eq!(table_h.attr_format[1].attr_name, "userName");
    assert_eq!(table_h.attr_format[1].attr_type, 2);
    assert_eq!(table_h.page_handler.free_page, 0);
}

#[test]
fn test_open_table() {
    let table_manager = user_table();
    let table_handler = table_manager.open_table("user");
    println!("属性个数:{}", table_handler.attr_num);
    println!("第一个属性名:{}", table_handler.attr_format[0].attr_name);
    assert_eq!(table_handler.attr_num, 2);
    assert_eq!(table_handler.attr_format[0].attr_name, "userID");
    assert_eq!(table_handler.attr_format[0].attr_type, 1);
    assert_eq!(table_handler.file_name, "user");
}

#[test]
fn test_buffer_read_and_flush() {
    let mut disk = Disk::new();
    let mut data = vec![0u8; 2 * SIZE];
    data[SIZE + 5] = 1;
    assert!(disk.add_file("1.txt".to_string(), data));
    let mut buffer_pool = BufferPool::default();
    let buffer_ref = buffer_pool.get_page_lru(&disk, "1.txt", 0);
    assert_eq!(buffer_ref.buffer.buffer[5], 1);
    let slot = buffer_pool.slots() - 1;
    assert_eq!(buffer_pool.buffer_at(slot).file_name, "1.txt");
    buffer_pool.flush_page(&mut disk, slot);
    let after = buffer_pool.get_page_lru(&disk, "1.txt", 0);
    assert_eq!(after.buffer.buffer[5], 1);
    let stored = disk.file_data(&"1.txt".to_string()).unwrap();
    assert_eq!(stored[SIZE + 5], 1);
    assert!(!buffer_pool.buffer_at(slot).is_dirty);
}

#[test]
fn test_str() {
    let s = String::from("你好");
    let e = s.len() as u8;
    let l = s.as_bytes();
    let string = String::from_utf8_lossy(l);
    println!("{} ", string);

    let listed: Vec<String> = l.iter().map(|b| b.to_string()).collect();
    println!("{}", listed.join(" "));
    println!("{}", e);
    assert_eq!(e, 6);
    assert_eq!(string, "你好");
}

#[test]
fn test_parse() {
    let table_manager = user_table();
    let table_handler = table_manager.open_table("user");
    let mut vec: Vec<u8> = Vec::new();
    vec.push(4);
    let v = 40u32.to_be_bytes();
    for b in v.iter() {
        vec.push(*b);
    }

    vec.push(6);
    let s = "123456";
    for b in s.bytes() {
        vec.push(b);
    }
    let fields = table_handler.parse_item(&vec).unwrap();
    assert_eq!(fields.len(), 2);
    assert_eq!(fields[0], vec![0, 0, 0, 40]);
    assert_eq!(fields[1], "123456".as_bytes().to_vec());
}

#[test]
fn test_page_info_read() {
    let mut table_manager = user_table();
    let table_handler = table_manager.open_table("user");
    let mut page_handler = table_handler.page_handler;
    let mut uuids: Vec<u32> = Vec::new();
    for _i in 0..1000 {
        let vec = user_item(22, "小李");
        let uuid = page_handler.insert_item(&mut table_manager.buffer_pool, &table_manager.disk, vec);
        uuids.push(uuid);
    }
    assert!(page_handler.free_page > 0);
    assert_eq!(uuids[0] >> 16, 0);
    assert_eq!(uuids[999] >> 16, page_handler.free_page);

    table_manager.buffer_pool.flush_page(&mut table_manager.disk, 1);
    table_manager.buffer_pool.flush_page(&mut table_manager.disk, 2);
    table_manager.buffer_pool.flush_page(&mut table_manager.disk, 3);
    table_manager.buffer_pool.flush_page(&mut table_manager.disk, 4);

    let last = page_handler.free_page;
    let items = page_handler.get_items_by_page(&mut table_manager.buffer_pool, &table_manager.disk, last);
    assert!(!items.is_empty());
    for item in items.iter() {
        assert_eq!(*item, user_item(22, "小李"));
    }
}

#[test]
fn test_page_get() {
    let mut table_manager = user_table();
    let table_handler = table_manager.open_table("user");
    let mut page_handler = table_handler.page_handler;
    let vec = page_handler.get_items_by_page(&mut table_manager.buffer_pool, &table_manager.disk, 0);
    assert!(vec.is_empty());

    let t = table_manager.open_table("user");
    for v in vec.iter() {
        t.parse_item(v);
    }

    let vec3 = page_handler.get_items_by_page(&mut table_manager.buffer_pool, &table_manager.disk, 1);
    assert!(vec3.is_empty());
    for v in vec.iter() {
        t.parse_item(v);
    }
}

#[test]
fn test_lru() {
    let table_manager = user_table();
    let disk = table_manager.disk;
    let mut buffer_pool = BufferPool::default();
    let file_name = "user";
    buffer_pool.get_page_lru(&disk, file_name, 1);
    buffer_pool.get_page_lru(&disk, file_name, 3);
    buffer_pool.get_page_lru(&disk, file_name, 1);
    buffer_pool.get_page_lru(&disk, file_name, 4);
    buffer_pool.get_page_lru(&disk, file_name, 5);
    buffer_pool.get_page_lru(&disk, file_name, 6);
    buffer_pool.get_page_lru(&disk, file_name, 2);
    let ids: Vec<u32> = (0..buffer_pool.slots()).map(|i| buffer_pool.buffer_at(i).page_id).collect();
    assert_eq!(ids, vec![1, 4, 5, 6, 2]);
}

#[test]
fn test_clock() {
    let table_manager = user_table();
    let disk = table_manager.disk;
    let mut buffer_pool = BufferPool::default();
    let file_name = "user";
    buffer_pool.get_page_clock(&disk, file_name, 1);
    buffer_pool.get_page_clock(&disk, file_name, 2);
    buffer_pool.get_page_clock(&disk, file_name, 3);
    buffer_pool.get_page_clock(&disk, file_name, 4);
    buffer_pool.get_page_clock(&disk, file_name, 5);
    buffer_pool.make_dirty(file_name, 1);
    buffer_pool.get_page_clock(&disk, file_name, 6);
    let ids: Vec<u32> = (0..buffer_pool.slots()).map(|i| buffer_pool.buffer_at(i).page_id).collect();
    assert_eq!(ids, vec![1, 6, 3, 4, 5]);
    assert!(buffer_pool.buffer_at(0).is_dirty);
}

#[test]
fn test_bufferPool() {
    let log_buffer_pool_builder = BufferPoolBuilder::new().with_size(10);
    let log_buffer_pool = log_buffer_pool_builder.build();
    let sql_buffer_pool_builder = BufferPoolBuilder::new().with_size(20);
    let sql_buffer_pool_builder = sql_buffer_pool_builder.build();
    let buffer_pool_builder = BufferPoolBuilder::new().with_size(5);
    let buffer_pool = buffer_pool_builder.build();
    assert_eq!(log_buffer_pool.slots(), 10);
    assert_eq!(sql_buffer_pool_builder.slots(), 20);
    assert_eq!(buffer_pool.slots(), 5);
    assert_eq!(BufferPoolBuilder::get(7).build().slots(), 7);
}

#[test]
fn test_uuid() {
    let a = ((5) << 16) + 1 as u32;
    println!("{}", a >> 16);
    println!("{}", a);
    assert_eq!(a >> 16, 5);
    assert_eq!(a, 327681);
}

#[test]
fn disk_read_after_write() {
    let mut disk = Disk::new();
    let handler = DiskManager::create_file(&mut disk, "t", 3);
    assert_eq!(handler.disk_header.page_number, 3);
    assert_eq!(DiskManager::get_file(&disk, "t").disk_header.page_number, 3);
    let mut page = vec![0u8; SIZE];
    page[0] = 9;
    page[SIZE - 1] = 7;
    handler.flush_page(&mut disk, 4, page.clone());
    assert_eq!(handler.get_page(&disk, 4), page);
    assert_eq!(handler.get_page(&disk, 0), vec![0u8; SIZE]);
    assert_eq!(handler.get_page(&disk, 9), vec![0u8; SIZE]);
    assert_eq!(disk.file_data(&"t".to_string()).unwrap().len(), 6 * SIZE);
}

#[test]
fn disk_refuses_a_second_file_of_a_name() {
    let mut disk = Disk::new();
    assert!(disk.add_file("a".to_string(), vec![1, 2, 3]));
    assert!(!disk.add_file("a".to_string(), vec![4]));
    assert_eq!(disk.file_data(&"a".to_string()), Some(vec![1, 2, 3]));
    assert_eq!(disk.file_data(&"b".to_string()), None);
}

#[test]
fn lru_hit_moves_to_the_end() {
    let table_manager = user_table();
    let disk = table_manager.disk;
    let mut pool = BufferPoolBuilder::get(3).build();
    pool.get_page_lru(&disk, "user", 1);
    pool.get_page_lru(&disk, "user", 2);
    pool.get_page_lru(&disk, "user", 3);
    let r = pool.get_page_lru(&disk, "user", 1);
    assert_eq!(r.buffer.page_id, 1);
    let ids: Vec<u32> = (0..pool.slots()).map(|i| pool.buffer_at(i).page_id).collect();
    assert_eq!(ids, vec![2, 3, 1]);
    let again = pool.get_page_lru(&disk, "user", 1);
    assert_eq!(again.buffer.page_id, 1);
    let ids2: Vec<u32> = (0..pool.slots()).map(|i| pool.buffer_at(i).page_id).collect();
    assert_eq!(ids2, ids);
}

#[test]
fn clock_hands_back_the_replaced_buffer() {
    let table_manager = user_table();
    let disk = table_manager.disk;
    let mut pool = BufferPoolBuilder::get(2).build();
    let first = pool.get_page_clock(&disk, "user", 1);
    assert_eq!(first.buffer.file_name, "");
    pool.get_page_clock(&disk, "user", 2);
    let third = pool.get_page_clock(&disk, "user", 3);
    assert_eq!(third.buffer.page_id, 1);
    assert_eq!(pool.buffer_at(0).page_id, 3);
    let hit = pool.get_page_clock(&disk, "user", 2);
    assert_eq!(hit.buffer.page_id, 2);
}

#[test]
fn make_dirty_marks_the_first_holder_only() {
    let table_manager = user_table();
    let disk = table_manager.disk;
    let mut pool = BufferPoolBuilder::get(2).build();
    pool.get_page_clock(&disk, "user", 1);
    pool.get_page_clock(&disk, "user", 2);
    pool.make_dirty("user", 2);
    assert!(!pool.buffer_at(0).is_dirty);
    assert!(pool.buffer_at(1).is_dirty);
    pool.make_dirty("user", 9);
    assert!(!pool.buffer_at(0).is_dirty);
}

#[test]
fn get_after_insert() {
    let mut table_manager = user_table();
    let mut handler = table_manager.open_table("user").page_handler;
    let item = user_item(7, "ada");
    let uuid = handler.insert_item_with(&mut table_manager.buffer_pool, &table_manager.disk, item.clone(), 0x1234);
    assert_eq!(uuid, 0x1234);
    let got = handler.get_item_by_uuid(&mut table_manager.buffer_pool, &table_manager.disk, uuid);
    assert_eq!(got, Some(item.clone()));
    let items = handler.get_items_by_page(&mut table_manager.buffer_pool, &table_manager.disk, 0);
    assert_eq!(items, vec![item]);
    let missing = handler.get_item_by_uuid(&mut table_manager.buffer_pool, &table_manager.disk, 0x1235);
    assert_eq!(missing, None);
}

#[test]
fn insert_item_names_the_free_page_in_its_uuid() {
    let mut table_manager = user_table();
    let mut handler = ItemManager::new_item_handler("user".to_string(), 3);
    let item = user_item(8, "bob");
    let uuid = handler.insert_item(&mut table_manager.buffer_pool, &table_manager.disk, item.clone());
    assert_eq!(uuid >> 16, 3);
    assert_eq!(handler.free_page, 3);
    let got = handler.get_item_by_uuid(&mut table_manager.buffer_pool, &table_manager.disk, uuid);
    assert_eq!(got, Some(item));
}

#[test]
fn get_after_update() {
    let mut table_manager = user_table();
    let mut handler = table_manager.open_table("user").page_handler;
    let uuid = handler.insert_item_with(&mut table_manager.buffer_pool, &table_manager.disk, user_item(1, "abc"), 5);
    let other = handler.insert_item_with(&mut table_manager.buffer_pool, &table_manager.disk, user_item(2, "xyz"), 6);
    handler.update_item_by_uuid(&mut table_manager.buffer_pool, &table_manager.disk, uuid, user_item(9, "def"));
    let got = handler.get_item_by_uuid(&mut table_manager.buffer_pool, &table_manager.disk, uuid);
    assert_eq!(got, Some(user_item(9, "def")));
    let kept = handler.get_item_by_uuid(&mut table_manager.buffer_pool, &table_manager.disk, other);
    assert_eq!(kept, Some(user_item(2, "xyz")));
}

#[test]
fn parse_item_refuses_malformed_records() {
    let table_manager = user_table();
    let t = table_manager.open_table("user");
    assert!(t.parse_item(&vec![4, 0, 0, 0]).is_none());
    assert!(t.parse_item(&vec![1, 5]).is_none());
    assert!(t.parse_item(&vec![1, 5, 1, 6, 0]).is_none());
    assert_eq!(t.parse_item(&vec![1, 5, 0]), Some(vec![vec![5], vec![]]));
}

#[test]
fn open_after_create_keeps_unicode_names() {
    let mut table_manager = TableManager { buffer_pool: BufferPool::default(), disk: Disk::new() };
    let attrs = vec![Format { attr_name: "名字".to_string(), attr_type: 3 }];
    let created = table_manager.create_table("人", attrs, 2);
    assert_eq!(created.attr_num, 1);
    let opened = table_manager.open_table("人");
    assert_eq!(opened.attr_num, 1);
    assert_eq!(opened.attr_format[0].attr_name, "名字");
    assert_eq!(opened.attr_format[0].attr_type, 3);
}

#[test]
fn clock_again_is_a_hit() {
    let table_manager = user_table();
    let disk = table_manager.disk;
    let mut pool = BufferPoolBuilder::get(3).build();
    let first = pool.get_page_clock(&disk, "user", 0);
    assert_eq!(first.buffer.file_name, "");
    let again = pool.get_page_clock(&disk, "user", 0);
    assert_eq!(again.buffer.file_name, "user");
    assert_eq!(again.buffer.page_id, 0);
    assert!(again.buffer.is_used);
    assert_eq!(again.buffer.buffer[4], 2);
    assert_eq!(pool.buffer_at(0).page_id, 0);
    assert_eq!(pool.buffer_at(1).file_name, "");
}

#[test]
fn pool_holds_each_page_once() {
    let table_manager = user_table();
    let disk = table_manager.disk;
    let mut pool = BufferPoolBuilder::get(4).build();
    for id in [1u32, 2, 1, 3, 2, 4, 5, 1, 5] {
        pool.get_page_lru(&disk, "user", id);
        let held: Vec<u32> = (0..pool.slots())
            .filter(|i| pool.buffer_at(*i).file_name == "user")
            .map(|i| pool.buffer_at(i).page_id)
            .collect();
        let mut unique = held.clone();
        unique.sort();
        unique.dedup();
        assert_eq!(unique.len(), held.len());
        assert_eq!(*held.last().unwrap(), id);
    }
}

#[test]
fn items_come_back_in_insertion_order() {
    let mut table_manager = user_table();
    let mut handler = table_manager.open_table("user").page_handler;
    let a = user_item(1, "a");
    let b = user_item(2, "bb");
    let c = user_item(3, "ccc");
    let ua = handler.insert_item_with(&mut table_manager.buffer_pool, &table_manager.disk, a.clone(), 11);
    let ub = handler.insert_item_with(&mut table_manager.buffer_pool, &table_manager.disk, b.clone(), 12);
    let uc = handler.insert_item_with(&mut table_manager.buffer_pool, &table_manager.disk, c.clone(), 13);
    let items = handler.get_items_by_page(&mut table_manager.buffer_pool, &table_manager.disk, 0);
    assert_eq!(items, vec![a.clone(), b.clone(), c.clone()]);
    assert_eq!(handler.get_item_by_uuid(&mut table_manager.buffer_pool, &table_manager.disk, ua), Some(a));
    assert_eq!(handler.get_item_by_uuid(&mut table_manager.buffer_pool, &table_manager.disk, ub), Some(b));
    assert_eq!(handler.get_item_by_uuid(&mut table_manager.buffer_pool, &table_manager.disk, uc), Some(c));
}

#[test]
fn a_new_file_holds_its_page_count() {
    let mut disk = Disk::new();
    let _ = DiskManager::create_file(&mut disk, "n", 7);
    let data = disk.file_data(&"n".to_string()).unwrap();
    let le = u32::from_le_bytes([data[0], data[1], data[2], data[3]]);
    let be = u32::from_be_bytes([data[0], data[1], data[2], data[3]]);
    assert!(le == 7 || be == 7);
    assert_eq!(data.len(), 7 * SIZE);
}

#[test]
fn a_buffer_written_into_a_slot_is_flushed() {
    let table_manager = user_table();
    let mut disk = table_manager.disk;
    let mut pool = BufferPoolBuilder::get(2).build();
    pool.get_page_lru(&disk, "user", 3);
    let mut b = pool.buffer_at(1);
    assert_eq!(b.page_id, 3);
    b.buffer[100] = 42;
    b.is_dirty = true;
    pool.write_slot(1, b);
    assert_eq!(pool.buffer_at(1).buffer[100], 42);
    assert_eq!(pool.buffer_at(0).buffer[100], 0);
    pool.flush_page(&mut disk, 1);
    let data = disk.file_data(&"user".to_string()).unwrap();
    assert_eq!(data[4 * SIZE + 100], 42);
}

#[test]
fn writing_a_shared_slot_writes_every_slot_that_shares_it() {
    let mut pool = BufferPoolBuilder::get(3).build();
    let mut b = pool.buffer_at(0);
    b.buffer[7] = 9;
    pool.write_slot(0, b);
    for i in 0..3 {
        assert_eq!(pool.buffer_at(i).buffer[7], 9);
    }
}
