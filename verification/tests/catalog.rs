use kaitodb::global::Global;
use kaitodb::kd_database::kd_database;
use kaitodb::kd_type::kd_type;
use kaitodb::pg_setting::pg_database;

fn in_buffer(bytes: &[u8]) -> Vec<u8> {
    let mut b = vec![0u8; 512];
    b[..bytes.len()].copy_from_slice(bytes);
    b
}

#[test]
fn global_load_after_init() {
    let bytes = Global::init_database_if_none(&"/data/kaito".to_string());
    let mut expected = vec![0u8, 0, 0, 0, 0, 0, 0, 0, 5];
    expected.extend_from_slice(b"/data/kaito");
    assert_eq!(bytes, expected);
    let g = Global::load_data(&bytes);
    assert_eq!(g.get_db_number(), 0);
    assert_eq!(g.get_type_number(), 5);
    assert_eq!(g.get_path(), "/data/kaito");
}

#[test]
fn global_hands_out_object_ids_in_order() {
    let bytes = vec![0u8, 0, 0, 41, 0, 0, 0, 3, 5, b'd'];
    let mut g = Global::load_data(&bytes);
    assert_eq!(g.get_db_number(), 3);
    assert_eq!(g.get_and_add_oid(), 42);
    assert_eq!(g.get_and_add_oid(), 43);
    g.update_db_number(43);
    assert_eq!(g.get_db_number(), 43);
    assert_eq!(g.get_path(), "d");
}

#[test]
fn global_path_replaces_bad_bytes() {
    let bytes = vec![0u8, 0, 0, 1, 0, 0, 0, 2, 5, 0xff, b'a'];
    let g = Global::load_data(&bytes);
    assert_eq!(g.get_path(), "\u{FFFD}a");
}

#[test]
fn database_load_after_init() {
    let bytes = kd_database::init_file(&"shop".to_string(), 12);
    assert_eq!(bytes, vec![4, b's', b'h', b'o', b'p', 0, 0, 0, 12, 0]);
    let db = kd_database::load_db(&in_buffer(&bytes));
    assert_eq!(db.db_name, "shop");
    assert_eq!(db.db_id, 12);
    assert_eq!(db.table_number, 0);
    assert!(db.table_ids.is_empty());
    assert!(db.table_names.is_empty());
}

#[test]
fn database_lists_its_tables() {
    let mut bytes = vec![2, b'd', b'b', 0, 0, 1, 0, 2];
    bytes.extend_from_slice(&[0, 0, 0, 7, 4]);
    bytes.extend_from_slice(b"user");
    bytes.extend_from_slice(&[0, 0, 0, 9, 3]);
    bytes.extend_from_slice("单位".as_bytes()[..3].as_ref());
    let db = kd_database::load_db(&in_buffer(&bytes));
    assert_eq!(db.db_name, "db");
    assert_eq!(db.db_id, 256);
    assert_eq!(db.table_number, 2);
    assert_eq!(db.table_ids, vec![7, 9]);
    assert_eq!(db.table_names, vec!["user".to_string(), "单".to_string()]);
}

#[test]
fn types_load_after_save() {
    let mut g = Global::load_data(&vec![0u8, 0, 0, 0, 0, 0, 0, 0, 5]);
    let types = kd_type::init_types_if_none(&mut g);
    assert_eq!(g.get_and_add_oid(), 6);
    let names: Vec<&str> = types.iter().map(|t| t.typ_name.as_str()).collect();
    assert_eq!(names, vec!["u32", "i32", "float", "char", "varchar"]);
    let oids: Vec<u32> = types.iter().map(|t| t.typ_oid).collect();
    assert_eq!(oids, vec![1, 2, 3, 4, 5]);
    let bytes = kd_type::save_types(&types);
    assert_eq!(&bytes[..10], &[0, 0, 0, 1, b'u', 4, 3, b'u', b'3', b'2']);
    let back = kd_type::load_types(&in_buffer(&bytes), 5);
    assert_eq!(back.len(), 5);
    for (a, b) in types.iter().zip(back.iter()) {
        assert_eq!(a.typ_name, b.typ_name);
        assert_eq!(a.typ_oid, b.typ_oid);
        assert_eq!(a.typ_type, b.typ_type);
        assert_eq!(a.typ_len, b.typ_len);
    }
    assert_eq!(back[4].typ_type, 'v');
    assert_eq!(back[3].typ_len, 0);
}

#[test]
fn pg_database_starts_empty() {
    let d = pg_database::new();
    assert_eq!(d.oid, 0);
    assert_eq!(d.database_name, "你好");
}
