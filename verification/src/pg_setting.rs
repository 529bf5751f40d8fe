//! The catalogue's database record.
use vstd::prelude::*;

verus! {

/// A database as the catalogue records it: its object id and name.
#[derive(Debug)]
pub struct pg_database {
    pub oid: i32,
    pub database_name: String,
}

impl pg_database {
    /// The record a new catalogue starts with: object id 0, name "你好".
    pub fn new() -> (r: pg_database)
        ensures
            r.oid == 0,
            r.database_name@ == "你好"@,
    {
        pg_database { oid: 0, database_name: "你好".to_string() }
    }
}

} // verus!
