//! Index entries: a key and the uuid of the record it points at.
use vstd::prelude::*;

verus! {

/// A key and its value.
#[derive(Clone, Copy)]
pub struct KeyValuePair {
    pub key: u32,
    pub value: u32,
}

impl KeyValuePair {
    /// The pair (`key`, `value`).
    pub fn new(key: u32, value: u32) -> (r: KeyValuePair)
        ensures
            r.key == key,
            r.value == value,
    {
        KeyValuePair { key, value }
    }
}

} // verus!
