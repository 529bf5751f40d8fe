//! The database-wide settings file (`global.setting`): the last object id
//! handed out (big-endian `u32` at bytes 0..4), the database number (bytes 4..8),
//! the number of types (byte 8) and the database directory (the rest, UTF-8).
use vstd::prelude::*;
use vstd::utf8::{encode_utf8, encode_utf8_decode_utf8, encode_utf8_valid_utf8};
use crate::bytes::{be_u32_at, read_be_u32};
use crate::record::lossy_string;

verus! {

/// Object ids.
pub type OID = u32;

/// Number of types a new database starts with.
pub const DEFAULT_TYPE_NUMBER: u8 = 5;

/// The settings of the database.
pub struct Global {
    oid: OID,
    db_number: OID,
    path: String,
    type_number: u8,
}

/// The value of the settings.
pub struct GlobalView {
    pub oid: u32,
    pub db_number: u32,
    pub path: Seq<char>,
    pub type_number: u8,
}

/// The bytes of a new settings file for the directory `dir`: object id 0,
/// database number 0, five types, then the directory.
pub open spec fn initial_setting_bytes(dir: Seq<char>) -> Seq<u8> {
    seq![0u8, 0u8, 0u8, 0u8, 0u8, 0u8, 0u8, 0u8, DEFAULT_TYPE_NUMBER] + encode_utf8(dir)
}

/// The settings read from the bytes of a settings file.
pub open spec fn setting_of(bytes: Seq<u8>) -> GlobalView {
    GlobalView {
        oid: be_u32_at(bytes, 0) as u32,
        db_number: be_u32_at(bytes, 4) as u32,
        type_number: bytes[8],
        path: lossy_string(bytes.subrange(9, bytes.len() as int)),
    }
}

impl Global {
    pub closed spec fn view(&self) -> GlobalView {
        GlobalView { oid: self.oid, db_number: self.db_number, path: self.path@, type_number: self.type_number }
    }

    /// The bytes that a new settings file for the directory `dir` holds.
    pub fn init_database_if_none(dir: &String) -> (r: Vec<u8>)
        ensures
            r@ == initial_setting_bytes(dir@),
    {
        let mut r: Vec<u8> = Vec::new();
        let mut i: usize = 0;
        while i < 8
            invariant
                i <= 8,
                r@.len() == i,
                forall|k: int| 0 <= k < i ==> #[trigger] r@[k] == 0u8,
            decreases 8 - i,
        {
            r.push(0u8);
            i = i + 1;
        }
        r.push(DEFAULT_TYPE_NUMBER);
        let bytes = dir.as_str().as_bytes();
        let mut k: usize = 0;
        while k < bytes.len()
            invariant
                k <= bytes@.len(),
                r@ == seq![0u8, 0u8, 0u8, 0u8, 0u8, 0u8, 0u8, 0u8, DEFAULT_TYPE_NUMBER] + bytes@.subrange(0, k as int),
            decreases bytes@.len() - k,
        {
            r.push(bytes[k]);
            k = k + 1;
            assert(r@ =~= seq![0u8, 0u8, 0u8, 0u8, 0u8, 0u8, 0u8, 0u8, DEFAULT_TYPE_NUMBER] + bytes@.subrange(0, k as int));
        }
        assert(bytes@.subrange(0, bytes@.len() as int) =~= bytes@);
        r
    }

    /// The settings read from the bytes of a settings file (at least nine).
    pub fn load_data(bytes: &Vec<u8>) -> (r: Global)
        requires
            bytes@.len() >= 9,
        ensures
            r.view() == setting_of(bytes@),
    {
        let oid = read_be_u32(bytes, 0);
        let db_number = read_be_u32(bytes, 4);
        let type_number = bytes[8];
        let src = crate::page::copy_range(bytes, 9, bytes.len());
        let path = crate::record::string_from_bytes(src.as_slice());
        Global { oid, db_number, path, type_number }
    }

    /// The last object id handed out.
    pub fn get_oid(&self) -> (r: OID)
        ensures
            r == self.view().oid,
    {
        self.oid
    }

    /// The database number.
    pub fn get_db_number(&self) -> (r: OID)
        ensures
            r == self.view().db_number,
    {
        self.db_number
    }

    /// Sets the database number.
    pub fn update_db_number(&mut self, oid: OID)
        ensures
            final(self).view() == (GlobalView { db_number: oid, ..old(self).view() }),
    {
        self.db_number = oid;
    }

    /// The number of types.
    pub fn get_type_number(&self) -> (r: u8)
        ensures
            r == self.view().type_number,
    {
        self.type_number
    }

    /// The database directory.
    pub fn get_path(&self) -> (r: String)
        ensures
            r@ == self.view().path,
    {
        self.path.clone()
    }

    /// Hands out the next object id: one more than the last.
    pub fn get_and_add_oid(&mut self) -> (r: OID)
        requires
            old(self).view().oid < u32::MAX,
        ensures
            r == old(self).view().oid + 1,
            final(self).view() == (GlobalView { oid: r, ..old(self).view() }),
    {
        self.oid = self.oid + 1;
        self.oid
    }
}

/// A new settings file reads back as object id 0, database number 0, five types
/// and the directory it was made for.
pub proof fn law_load_after_init(dir: Seq<char>)
    ensures
        setting_of(initial_setting_bytes(dir)) == (GlobalView { oid: 0, db_number: 0, path: dir, type_number: DEFAULT_TYPE_NUMBER }),
{
    let b = initial_setting_bytes(dir);
    assert(b.subrange(9, b.len() as int) =~= encode_utf8(dir));
    encode_utf8_valid_utf8(dir);
    encode_utf8_decode_utf8(dir);
}

} // verus!
