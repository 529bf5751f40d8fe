//! A database's settings file (`db.setting`): the length of its name (one
//! byte), the name, its object id (big-endian `u32`), the number of tables (one
//! byte), then per table its object id (big-endian `u32`), the length of its name
//! and the name. The file is read through a buffer of 512 bytes.
use vstd::prelude::*;
use vstd::utf8::{encode_utf8, encode_utf8_decode_utf8, encode_utf8_valid_utf8};
use crate::bytes::{be_u32_at, be_u32_bytes, read_be_u32, write_be_u32, lemma_be_u32_bytes};
use crate::record::lossy_string;
use crate::global::OID;

verus! {

/// Size of the buffer a settings file is read through.
pub const SETTING_BUFFER_SIZE: usize = 512;

/// A database: its name, object id and tables.
pub struct kd_database {
    pub db_name: String,
    pub db_id: OID,
    pub table_number: u8,
    pub table_ids: Vec<OID>,
    pub table_names: Vec<String>,
}

/// The bytes of a new database's settings file: name length (modulo 256), name,
/// object id, no tables.
pub open spec fn db_setting_bytes(name: Seq<char>, oid: u32) -> Seq<u8> {
    seq![(encode_utf8(name).len() % 256) as u8] + encode_utf8(name) + be_u32_bytes(oid) + seq![0u8]
}

/// `bytes` as the 512-byte buffer they are read into: zeros after them.
pub open spec fn in_buffer(bytes: Seq<u8>) -> Seq<u8> {
    Seq::new(SETTING_BUFFER_SIZE as nat, |k: int| if k < bytes.len() { bytes[k] } else { 0u8 })
}

/// Whether `count` table entries can be read from `b` at `off`.
pub open spec fn tables_fit(b: Seq<u8>, off: int, count: nat) -> bool
    decreases count,
{
    count == 0 || (0 <= off && off + 5 <= b.len() && off + 5 + b[off + 4] <= b.len() && tables_fit(
        b,
        off + 5 + b[off + 4],
        (count - 1) as nat,
    ))
}

/// The `count` table entries read from `b` at `off`: object id and name.
pub open spec fn parse_tables(b: Seq<u8>, off: int, count: nat) -> Seq<(u32, Seq<char>)>
    decreases count,
{
    if count == 0 {
        Seq::empty()
    } else {
        let size = b[off + 4] as int;
        seq![(be_u32_at(b, off) as u32, lossy_string(b.subrange(off + 5, off + 5 + size)))] + parse_tables(
            b,
            off + 5 + size,
            (count - 1) as nat,
        )
    }
}

/// Whether a settings buffer can be read: all its parts lie within it.
pub open spec fn db_setting_readable(b: Seq<u8>) -> bool {
    let ns = b[0] as int;
    &&& b.len() == SETTING_BUFFER_SIZE
    &&& 6 + ns <= b.len()
    &&& tables_fit(b, 6 + ns, b[5 + ns] as nat)
}

/// The value of a database.
pub struct DatabaseView {
    pub db_name: Seq<char>,
    pub db_id: u32,
    pub table_number: u8,
    pub tables: Seq<(u32, Seq<char>)>,
}

/// The database read from a settings buffer.
pub open spec fn db_of(b: Seq<u8>) -> DatabaseView {
    let ns = b[0] as int;
    DatabaseView {
        db_name: lossy_string(b.subrange(1, 1 + ns)),
        db_id: be_u32_at(b, 1 + ns) as u32,
        table_number: b[5 + ns],
        tables: parse_tables(b, 6 + ns, b[5 + ns] as nat),
    }
}

impl kd_database {
    pub open spec fn view(&self) -> DatabaseView {
        DatabaseView {
            db_name: self.db_name@,
            db_id: self.db_id,
            table_number: self.table_number,
            tables: Seq::new(self.table_ids@.len(), |i: int| (self.table_ids@[i], self.table_names@[i]@)),
        }
    }

    /// The bytes of a new database's settings file.
    pub fn init_file(db_name: &String, db_oid: OID) -> (r: Vec<u8>)
        ensures
            r@ == db_setting_bytes(db_name@, db_oid),
    {
        let name = db_name.as_str().as_bytes();
        let mut r: Vec<u8> = Vec::new();
        r.push((name.len() % 256) as u8);
        let mut k: usize = 0;
        while k < name.len()
            invariant
                k <= name@.len(),
                r@ == seq![(name@.len() % 256) as u8] + name@.subrange(0, k as int),
            decreases name@.len() - k,
        {
            r.push(name[k]);
            k = k + 1;
            assert(r@ =~= seq![(name@.len() % 256) as u8] + name@.subrange(0, k as int));
        }
        let ghost head = r@;
        r.push(0u8);
        r.push(0u8);
        r.push(0u8);
        r.push(0u8);
        let at = r.len() - 4;
        write_be_u32(&mut r, at, db_oid);
        r.push(0u8);
        proof {
            assert(name@.subrange(0, name@.len() as int) =~= name@);
            assert(r@ =~= db_setting_bytes(db_name@, db_oid));
        }
        r
    }

    /// The database read from a settings buffer of 512 bytes.
    pub fn load_db(buffer: &Vec<u8>) -> (r: kd_database)
        requires
            db_setting_readable(buffer@),
        ensures
            r.view() == db_of(buffer@),
            r.table_ids@.len() == r.table_number,
            r.table_names@.len() == r.table_ids@.len(),
    {
        let ghost b = buffer@;
        let mut off_set: usize = 0;
        let name_size = buffer[off_set];
        off_set += 1;
        let db_name = crate::page::copy_range(buffer, off_set, off_set + name_size as usize);
        off_set += name_size as usize;
        let db_oid = read_be_u32(buffer, off_set);
        off_set += 4;
        let table_number = buffer[off_set];
        off_set += 1;
        let mut table_ids: Vec<OID> = Vec::new();
        let mut table_names: Vec<String> = Vec::new();
        let mut index: u8 = 0;
        while index < table_number
            invariant
                b == buffer@,
                b.len() == SETTING_BUFFER_SIZE,
                table_number == b[5 + b[0] as int],
                index <= table_number,
                table_ids@.len() == index,
                table_names@.len() == index,
                tables_fit(b, off_set as int, (table_number - index) as nat),
                Seq::new(index as nat, |i: int| (table_ids@[i], table_names@[i]@)) + parse_tables(
                    b,
                    off_set as int,
                    (table_number - index) as nat,
                ) == parse_tables(b, 6 + b[0] as int, table_number as nat),
            decreases table_number - index,
        {
            let ghost before = Seq::new(index as nat, |i: int| (table_ids@[i], table_names@[i]@));
            let ghost pos = off_set as int;
            let table_oid = read_be_u32(buffer, off_set);
            off_set += 4;
            let table_name_size = buffer[off_set];
            off_set += 1;
            let table_name = crate::page::copy_range(buffer, off_set, off_set + table_name_size as usize);
            off_set += table_name_size as usize;
            let name = crate::record::string_from_bytes(table_name.as_slice());
            table_ids.push(table_oid);
            table_names.push(name);
            proof {
                let t = (table_oid, name@);
                assert(parse_tables(b, pos, (table_number - index) as nat) == seq![t] + parse_tables(
                    b,
                    off_set as int,
                    (table_number - index - 1) as nat,
                ));
                assert(Seq::new((index + 1) as nat, |i: int| (table_ids@[i], table_names@[i]@)) =~= before.push(t));
                assert(before.push(t) + parse_tables(b, off_set as int, (table_number - index - 1) as nat) =~= before + (
                seq![t] + parse_tables(b, off_set as int, (table_number - index - 1) as nat)));
            }
            index += 1;
        }
        proof {
            let got = Seq::new(index as nat, |i: int| (table_ids@[i], table_names@[i]@));
            assert(got + Seq::<(u32, Seq<char>)>::empty() =~= got);
        }
        kd_database {
            db_name: crate::record::string_from_bytes(db_name.as_slice()),
            db_id: db_oid,
            table_number,
            table_ids,
            table_names,
        }
    }
}

/// Whether `count` table entries can be read from `buffer` at `off`.
fn tables_readable(buffer: &Vec<u8>, off: usize, count: u8) -> (r: bool)
    requires
        off <= buffer@.len(),
    ensures
        r == tables_fit(buffer@, off as int, count as nat),
{
    let len = buffer.len();
    let mut pos: usize = off;
    let mut left: u8 = count;
    while left > 0
        invariant
            len == buffer@.len(),
            pos <= len,
            left <= count,
            tables_fit(buffer@, off as int, count as nat) == tables_fit(buffer@, pos as int, left as nat),
        decreases left,
    {
        if len - pos < 5 {
            return false;
        }
        let size = buffer[pos + 4] as usize;
        if len - pos - 5 < size {
            return false;
        }
        pos = pos + 5 + size;
        left = left - 1;
    }
    true
}

impl kd_database {
    /// Whether a settings buffer can be read by `load_db`: it has 512 bytes and
    /// the name, the object id, the table count and every table entry lie within
    /// it.
    pub fn setting_readable(buffer: &Vec<u8>) -> (r: bool)
        ensures
            r == db_setting_readable(buffer@),
    {
        if buffer.len() != SETTING_BUFFER_SIZE {
            return false;
        }
        let ns = buffer[0] as usize;
        if 6 + ns > buffer.len() {
            return false;
        }
        tables_readable(buffer, 6 + ns, buffer[5 + ns])
    }
}

/// A new database's settings file, read back through the 512-byte buffer, gives
/// its name, its object id and no tables, for names shorter than 256 bytes that
/// fit in the buffer.
pub proof fn law_load_after_init(name: Seq<char>, oid: u32)
    requires
        encode_utf8(name).len() < 256,
        encode_utf8(name).len() + 6 <= SETTING_BUFFER_SIZE,
    ensures
        db_setting_readable(in_buffer(db_setting_bytes(name, oid))),
        db_of(in_buffer(db_setting_bytes(name, oid))) == (DatabaseView {
            db_name: name,
            db_id: oid,
            table_number: 0,
            tables: Seq::empty(),
        }),
{
    let bytes = encode_utf8(name);
    let s = db_setting_bytes(name, oid);
    let b = in_buffer(s);
    let n = bytes.len() as int;
    lemma_be_u32_bytes(oid);
    assert(b[0] == n);
    assert(b.subrange(1, 1 + n) =~= bytes);
    assert(b[1 + n] == be_u32_bytes(oid)[0] && b[2 + n] == be_u32_bytes(oid)[1]);
    assert(b[3 + n] == be_u32_bytes(oid)[2] && b[4 + n] == be_u32_bytes(oid)[3]);
    assert(b[5 + n] == 0);
    encode_utf8_valid_utf8(name);
    encode_utf8_decode_utf8(name);
}

} // verus!
