//! B+ tree index nodes, stored as item records.
//!
//! Layout of a node record, numbers big-endian: byte 0 the node type, bytes 1..5
//! the parent's uuid, byte 5 the entry count (read as the `u32` at bytes 5..9),
//! then up to five 13-byte entries from byte 6 on (left child uuid `u32`, key
//! `u32`, value `u32`, deleted flag), then the right child uuid: 75 bytes in all.
use vstd::prelude::*;
use crate::bytes::{be_u32_at, be_u32_bytes, read_be_u32, write_be_u32, lemma_be_u32_bytes};
use crate::key_value_pair::KeyValuePair;

verus! {

pub const NODE_TYPE_SIZE: usize = 1;

pub const PARENT_UUID_SIZE: usize = 4;

pub const INDEX_NUMBER_SIZE: usize = 1;

pub const HEADER_SIZE: usize = 6;

pub const LEFT_NODE_UUID_SIZE: usize = 4;

pub const KEY_SIZE: usize = 4;

pub const VALUE_SIZE: usize = 4;

pub const IS_DELETE_SIZE: usize = 1;

/// Bytes of one entry.
pub const INDEX_INFO_SIZE: usize = 13;

pub const RIGHT_NODE_UUID_SIZE: usize = 4;

/// Entries a node holds at most.
pub const INDEX_MAX_NUMBER: usize = 5;

/// Bytes of a node record.
pub const INDEX_RECORD_SIZE: usize = 75;

pub const PTR_SIZE: usize = 4;

/// Where the entry count is read.
pub const INDEX_NUMBER_OFFSET: usize = 5;

/// Where the first entry starts.
pub const INDEX_START_OFFSET: usize = 6;

/// The kind of a node.
pub enum NodeType {
    Internal,
    Leaf,
    Root,
    Unknown,
}

/// The node type that a type byte stands for.
pub open spec fn node_type_of(b: u8) -> NodeType {
    if b == 1 {
        NodeType::Internal
    } else if b == 2 {
        NodeType::Leaf
    } else if b == 3 {
        NodeType::Root
    } else {
        NodeType::Unknown
    }
}

impl From<u8> for NodeType {
    fn from(orig: u8) -> (r: Self) {
        match orig {
            1 => NodeType::Internal,
            2 => NodeType::Leaf,
            3 => NodeType::Root,
            _ => NodeType::Unknown,
        }
    }
}

impl vstd::std_specs::convert::FromSpecImpl<u8> for NodeType {
    open spec fn obeys_from_spec() -> bool {
        true
    }

    open spec fn from_spec(orig: u8) -> Self {
        node_type_of(orig)
    }
}

/// The errors of index operations.
pub enum Error {
    KeyNotFound,
    KeyAlreadyExists,
    UnexpectedError,
}

/// Whether a deleted-flag byte says "deleted".
fn is_deleted_byte(b: u8) -> (r: bool)
    ensures
        r == (b == 1),
{
    b == 1
}

/// The raw bytes of a node.
pub struct IndexRecord {
    pub data: Vec<u8>,
}

impl IndexRecord {
    /// The big-endian `u32` at `offset`.
    pub fn get_value_from_offset(&self, offset: usize) -> (r: Result<u32, Error>)
        requires
            offset + PTR_SIZE <= self.data@.len(),
        ensures
            r == Ok::<u32, Error>(be_u32_at(self.data@, offset as int) as u32),
    {
        let res = read_be_u32(&self.data, offset);
        Ok(res)
    }
}

/// A node of the B+ tree.
pub struct Node {
    pub node_type: NodeType,
    pub parent_uuid: u32,
    pub uuid: u32,
    pub content: IndexRecord,
}

/// Where entry `i` starts.
pub open spec fn index_pos(i: int) -> int {
    INDEX_START_OFFSET + INDEX_INFO_SIZE * i
}

/// The entry count of a record.
pub open spec fn entry_count(d: Seq<u8>) -> int {
    be_u32_at(d, INDEX_NUMBER_OFFSET as int)
}

/// The key of entry `i`.
pub open spec fn key_at(d: Seq<u8>, i: int) -> u32 {
    be_u32_at(d, index_pos(i) + LEFT_NODE_UUID_SIZE) as u32
}

/// The value of entry `i`.
pub open spec fn value_at(d: Seq<u8>, i: int) -> u32 {
    be_u32_at(d, index_pos(i) + LEFT_NODE_UUID_SIZE + KEY_SIZE) as u32
}

/// Whether entry `i` is marked deleted.
pub open spec fn deleted_at(d: Seq<u8>, i: int) -> bool {
    d[index_pos(i) + LEFT_NODE_UUID_SIZE + KEY_SIZE + VALUE_SIZE] == 1
}

/// The left child uuid of entry `i`.
pub open spec fn child_at(d: Seq<u8>, i: int) -> u32 {
    be_u32_at(d, index_pos(i)) as u32
}

/// The key and value pairs of the first `n` entries that are not marked deleted.
pub open spec fn live_pairs(d: Seq<u8>, n: int) -> Seq<(u32, u32)>
    decreases n,
{
    if n <= 0 {
        Seq::empty()
    } else if deleted_at(d, n - 1) {
        live_pairs(d, n - 1)
    } else {
        live_pairs(d, n - 1).push((key_at(d, n - 1), value_at(d, n - 1)))
    }
}

/// The (key, value) pairs of a list of pairs.
pub open spec fn pair_views(kvs: Seq<KeyValuePair>) -> Seq<(u32, u32)> {
    Seq::new(kvs.len(), |i: int| (kvs[i].key, kvs[i].value))
}

/// The record after the entry shift of `add_key_value_pair`: bytes 6..62 are
/// copied 13 bytes up, one at a time from the lowest, so that bytes 19..75 repeat
/// the first entry.
pub open spec fn shifted(d: Seq<u8>) -> Seq<u8> {
    Seq::new(d.len(), |j: int| if 19 <= j < 75 { d[6 + (j - 6) % 13] } else { d[j] })
}

/// `d` with `x` written big-endian at `at`.
pub open spec fn put_u32(d: Seq<u8>, at: int, x: u32) -> Seq<u8> {
    Seq::new(d.len(), |j: int| if at <= j < at + 4 { be_u32_bytes(x)[j - at] } else { d[j] })
}

/// The record after `add_key_value_pair`: where the entry count is positive and
/// the first key is above the new key, the entries are shifted and the new key
/// and value written into the first entry; otherwise it stays as it is.
pub open spec fn added(d: Seq<u8>, key: u32, value: u32) -> Seq<u8> {
    if entry_count(d) >= 1 && key_at(d, 0) > key {
        put_u32(put_u32(shifted(d), 10, key), 14, value)
    } else {
        d
    }
}

/// The record after `delete_record(key)`: the write position starts at byte 6
/// and moves 13 bytes per key; at each key equal to `key` it moves 12 bytes on
/// first, for good, and a 1 is written there.
pub open spec fn deleted(d: Seq<u8>, keys: Seq<u32>, key: u32, n: int) -> (Seq<u8>, int)
    decreases n,
{
    if n <= 0 {
        (d, INDEX_START_OFFSET as int)
    } else {
        let (e, offset) = deleted(d, keys, key, n - 1);
        if keys[n - 1] == key {
            (e.update(offset + 12, 1u8), offset + 12 + INDEX_INFO_SIZE)
        } else {
            (e, offset + INDEX_INFO_SIZE)
        }
    }
}

/// The keys of a record whose entry count is `n + 1`: the first `n` entries' keys.
pub open spec fn keys_of(d: Seq<u8>, n: int) -> Seq<u32> {
    Seq::new(n as nat, |i: int| key_at(d, i))
}

/// The left child uuids of the first `n` entries.
pub open spec fn children_of(d: Seq<u8>, n: int) -> Seq<usize> {
    Seq::new(n as nat, |i: int| child_at(d, i) as usize)
}

/// Where `delete_record(key)` can be made on record `d`: each entry whose key is
/// `key` has its deleted flag, at the write position of that step, within the
/// record, and the write position stays within `usize`.
pub open spec fn delete_fits(d: Seq<u8>, key: u32) -> bool {
    let keys = keys_of(d, entry_count(d) - 1);
    &&& forall|n: int| 0 <= n < keys.len() && keys[n] == key ==> #[trigger] deleted(d, keys, key, n).1 + 12 < d.len()
    &&& deleted(d, keys, key, keys.len() as int).1 <= usize::MAX
}

/// The write position of `delete_record` only grows.
pub proof fn lemma_deleted_grows(d: Seq<u8>, keys: Seq<u32>, key: u32, n: int, m: int)
    requires
        0 <= n <= m <= keys.len(),
    ensures
        deleted(d, keys, key, n).1 <= deleted(d, keys, key, m).1,
        deleted(d, keys, key, n).1 >= INDEX_START_OFFSET,
    decreases m,
{
    if n < m {
        lemma_deleted_grows(d, keys, key, n, m - 1);
    } else if n > 0 {
        lemma_deleted_grows(d, keys, key, n - 1, n - 1);
    }
}

/// Whether a node's type is one of the three known kinds.
pub open spec fn known(t: NodeType) -> bool {
    !(t is Unknown)
}

impl Node {
    /// A node made of the record `v`: its type from byte 0, its parent from bytes
    /// 1..5.
    pub fn create_from(v: Vec<u8>, uuid: u32) -> (r: Node)
        requires
            v@.len() >= 5,
        ensures
            r.node_type == node_type_of(v@[0]),
            r.parent_uuid == be_u32_at(v@, 1),
            r.uuid == uuid,
            r.content.data@ == v@,
    {
        let t = NodeType::from(v[0]);
        let parent_uuid = read_be_u32(&v, 1);
        Node { node_type: t, parent_uuid, uuid, content: IndexRecord { data: v } }
    }

    /// A node with the given fields.
    pub fn new(node_type: NodeType, parent_uuid: u32, is_root: bool, uuid: u32, content: Vec<u8>) -> (r: Node)
        ensures
            r.node_type == node_type,
            r.parent_uuid == parent_uuid,
            r.uuid == uuid,
            r.content.data@ == content@,
    {
        Node { node_type, parent_uuid, uuid, content: IndexRecord { data: content } }
    }

    /// The parent uuid stored in the record.
    pub fn get_parent_uuid(&mut self) -> (r: Result<u32, Error>)
        requires
            old(self).content.data@.len() >= 5,
        ensures
            *final(self) == *old(self),
            r == Ok::<u32, Error>(be_u32_at(old(self).content.data@, 1) as u32),
    {
        let parent_uuid = read_be_u32(&self.content.data, 1);
        Ok(parent_uuid)
    }

    /// The entry count of a node of known type.
    pub fn get_keys_number(&self) -> (r: Result<u32, Error>)
        requires
            known(self.node_type) ==> self.content.data@.len() >= 9,
        ensures
            known(self.node_type) ==> r == Ok::<u32, Error>(entry_count(self.content.data@) as u32),
            !known(self.node_type) ==> r matches Err(Error::UnexpectedError),
    {
        match self.node_type {
            NodeType::Unknown => Err(Error::UnexpectedError),
            _ => self.content.get_value_from_offset(INDEX_NUMBER_OFFSET),
        }
    }

    /// The keys of a node of known type: one fewer than its entry count.
    pub fn get_keys(&self) -> (r: Result<Vec<u32>, Error>)
        requires
            known(self.node_type) ==> {
                &&& self.content.data@.len() >= 9
                &&& entry_count(self.content.data@) >= 1
                &&& index_pos(entry_count(self.content.data@) - 1) <= self.content.data@.len()
            },
        ensures
            known(self.node_type) ==> (r matches Ok(keys) && keys@ == keys_of(
                self.content.data@,
                entry_count(self.content.data@) - 1,
            )),
            !known(self.node_type) ==> r matches Err(Error::UnexpectedError),
    {
        match self.node_type {
            NodeType::Unknown => Err(Error::UnexpectedError),
            _ => {
                let ghost d = self.content.data@;
                let num_children = self.content.get_value_from_offset(INDEX_NUMBER_OFFSET);
                let num_children = match num_children {
                    Ok(n) => n,
                    Err(e) => {
                        return Err(e);
                    },
                };
                let mut res: Vec<u32> = Vec::new();
                let num_keys = num_children - 1;
                let data_len = self.content.data.len();
                let mut i: u32 = 0;
                while i < num_keys
                    invariant
                        d == self.content.data@,
                        data_len == d.len(),
                        num_keys == entry_count(d) - 1,
                        index_pos(num_keys as int) <= d.len(),
                        i <= num_keys,
                        res@ == keys_of(d, i as int),
                    decreases num_keys - i,
                {
                    let offset = HEADER_SIZE + LEFT_NODE_UUID_SIZE + INDEX_INFO_SIZE * (i as usize);
                    let key = read_be_u32(&self.content.data, offset);
                    res.push(key);
                    i += 1;
                    assert(res@ =~= keys_of(d, i as int));
                }
                Ok(res)
            },
        }
    }

    /// The left child uuids of the node's entries, as many as its entry count.
    pub fn get_children(&self) -> (r: Result<Vec<usize>, Error>)
        requires
            known(self.node_type) ==> {
                &&& self.content.data@.len() >= 9
                &&& index_pos(entry_count(self.content.data@) - 1) + 4 <= self.content.data@.len()
            },
        ensures
            known(self.node_type) ==> (r matches Ok(cs) && cs@ == children_of(
                self.content.data@,
                entry_count(self.content.data@),
            )),
            !known(self.node_type) ==> r matches Err(Error::UnexpectedError),
    {
        match self.node_type {
            NodeType::Unknown => Err(Error::UnexpectedError),
            _ => {
                let ghost d = self.content.data@;
                let num_children = match self.content.get_value_from_offset(INDEX_NUMBER_OFFSET) {
                    Ok(n) => n,
                    Err(e) => {
                        return Err(e);
                    },
                };
                let mut result: Vec<usize> = Vec::new();
                let data_len = self.content.data.len();
                let mut i: u32 = 0;
                while i < num_children
                    invariant
                        d == self.content.data@,
                        data_len == d.len(),
                        num_children == entry_count(d),
                        num_children >= 1 ==> index_pos(num_children - 1) + 4 <= d.len(),
                        i <= num_children,
                        result@ == children_of(d, i as int),
                    decreases num_children - i,
                {
                    let offset = HEADER_SIZE + INDEX_INFO_SIZE * (i as usize);
                    let child_offset = read_be_u32(&self.content.data, offset);
                    result.push(child_offset as usize);
                    i += 1;
                    assert(result@ =~= children_of(d, i as int));
                }
                Ok(result)
            },
        }
    }

    /// The key and value pairs of a leaf's entries (as many as its entry count)
    /// that are not marked deleted; other nodes give an error.
    pub fn get_key_value_pairs(&self) -> (r: Result<Vec<KeyValuePair>, Error>)
        requires
            self.node_type is Leaf ==> {
                &&& self.content.data@.len() >= 9
                &&& index_pos(entry_count(self.content.data@)) <= self.content.data@.len()
            },
        ensures
            self.node_type is Leaf ==> (r matches Ok(kvs) && pair_views(kvs@) == live_pairs(
                self.content.data@,
                entry_count(self.content.data@),
            )),
            !(self.node_type is Leaf) ==> r matches Err(Error::UnexpectedError),
    {
        match self.node_type {
            NodeType::Leaf => {
                let ghost d = self.content.data@;
                let mut res: Vec<KeyValuePair> = Vec::new();
                let mut offset: usize = INDEX_NUMBER_OFFSET;
                let num_keys_val_pairs = match self.content.get_value_from_offset(offset) {
                    Ok(n) => n,
                    Err(e) => {
                        return Err(e);
                    },
                };
                let data_len = self.content.data.len();
                let mut i: u32 = 0;
                while i < num_keys_val_pairs
                    invariant
                        d == self.content.data@,
                        data_len == d.len(),
                        num_keys_val_pairs == entry_count(d),
                        index_pos(num_keys_val_pairs as int) <= d.len(),
                        i <= num_keys_val_pairs,
                        pair_views(res@) == live_pairs(d, i as int),
                    decreases num_keys_val_pairs - i,
                {
                    offset = INDEX_START_OFFSET + LEFT_NODE_UUID_SIZE + INDEX_INFO_SIZE * (i as usize);
                    let key = read_be_u32(&self.content.data, offset);
                    offset += KEY_SIZE;
                    let value = read_be_u32(&self.content.data, offset);
                    offset += VALUE_SIZE;
                    let is_delete = is_deleted_byte(self.content.data[offset]);
                    let ghost before = res@;
                    i += 1;
                    if !is_delete {
                        res.push(KeyValuePair::new(key, value));
                        assert(pair_views(res@) =~= pair_views(before).push((key, value)));
                    }
                }
                Ok(res)
            },
            _ => Err(Error::UnexpectedError),
        }
    }
}

/// The record of the node that `split` makes: type byte 1, the parent uuid
/// (bytes 1..5 of `d`) and then bytes 32..75 of `d`.
pub open spec fn split_record(d: Seq<u8>) -> Seq<u8> {
    seq![1u8] + d.subrange(1, 5) + d.subrange(32, INDEX_RECORD_SIZE as int)
}

impl Node {
    /// A new internal node made of the upper entries of this one (from byte 32 on),
    /// whose parent uuid, and uuid, are this node's parent uuid.
    pub fn split(&mut self) -> (r: Result<Node, Error>)
        requires
            old(self).content.data@.len() >= INDEX_RECORD_SIZE,
        ensures
            *final(self) == *old(self),
            r matches Ok(n) && n.node_type is Internal && n.parent_uuid == be_u32_at(
                old(self).content.data@,
                1,
            ) && n.uuid == be_u32_at(old(self).content.data@, 1) && n.content.data@ == split_record(
                old(self).content.data@,
            ),
    {
        let mid_offset = HEADER_SIZE + INDEX_INFO_SIZE * 2;
        let v = self.content.data.clone();
        assert(v@ =~= self.content.data@);
        let parent_uuid = read_be_u32(&v, 1);
        let mut vec: Vec<u8> = Vec::new();
        vec.push(1u8);
        let mut k: usize = 0;
        let mut raw: Vec<u8> = Vec::new();
        raw.push(0u8);
        raw.push(0u8);
        raw.push(0u8);
        raw.push(0u8);
        write_be_u32(&mut raw, 0, parent_uuid);
        proof {
            lemma_be_u32_bytes(parent_uuid);
            assert(raw@ =~= v@.subrange(1, 5)) by {
                assert(raw@[0] == v@[1] && raw@[1] == v@[2] && raw@[2] == v@[3] && raw@[3] == v@[4]) by (nonlinear_arith)
                    requires
                        parent_uuid == v@[1] * 16777216 + v@[2] * 65536 + v@[3] * 256 + v@[4],
                        raw@[0] == (parent_uuid / 16777216) as u8,
                        raw@[1] == ((parent_uuid / 65536) % 256) as u8,
                        raw@[2] == ((parent_uuid / 256) % 256) as u8,
                        raw@[3] == (parent_uuid % 256) as u8,
                        v@[1] < 256,
                        v@[2] < 256,
                        v@[3] < 256,
                        v@[4] < 256,
                ;
            }
        }
        while k < 4
            invariant
                k <= 4,
                raw@.len() == 4,
                vec@ == seq![1u8] + raw@.subrange(0, k as int),
            decreases 4 - k,
        {
            vec.push(raw[k]);
            k = k + 1;
            assert(vec@ =~= seq![1u8] + raw@.subrange(0, k as int));
        }
        let mut i = mid_offset;
        while i < INDEX_RECORD_SIZE
            invariant
                mid_offset == 32,
                32 <= i <= INDEX_RECORD_SIZE,
                v@.len() >= INDEX_RECORD_SIZE,
                v@ == self.content.data@,
                vec@ == seq![1u8] + raw@ + v@.subrange(32, i as int),
            decreases INDEX_RECORD_SIZE - i,
        {
            vec.push(self.content.data[i]);
            i = i + 1;
            assert(vec@ =~= seq![1u8] + raw@ + v@.subrange(32, i as int));
        }
        assert(vec@ =~= split_record(v@));
        assert(vec@[0] == 1u8);
        let n = Node::create_from(vec, parent_uuid);
        assert(be_u32_at(n.content.data@, 1) == be_u32_at(v@, 1));
        Ok(n)
    }

    /// Marks deleted the entries whose key (as `get_keys` lists them) is
    /// `delete_key`; see `deleted` for where the marks go.
    pub fn delete_record(&mut self, delete_key: u32)
        requires
            known(old(self).node_type),
            old(self).content.data@.len() >= 9,
            entry_count(old(self).content.data@) >= 1,
            index_pos(entry_count(old(self).content.data@) - 1) <= old(self).content.data@.len(),
            delete_fits(old(self).content.data@, delete_key),
        ensures
            final(self).node_type == old(self).node_type,
            final(self).parent_uuid == old(self).parent_uuid,
            final(self).uuid == old(self).uuid,
            ({
                let d = old(self).content.data@;
                let keys = keys_of(d, entry_count(d) - 1);
                final(self).content.data@ == deleted(d, keys, delete_key, keys.len() as int).0
            }),
    {
        let ghost d = self.content.data@;
        let keys = match self.get_keys() {
            Ok(keys) => keys,
            Err(_) => {
                return;
            },
        };
        let ghost ks = keys@;
        let data_len = self.content.data.len();
        let mut offset: usize = INDEX_START_OFFSET;
        let mut index: usize = 0;
        while index < keys.len()
            invariant
                data_len == d.len(),
                keys@ == ks,
                ks == keys_of(d, entry_count(d) - 1),
                delete_fits(d, delete_key),
                index <= keys.len(),
                self.content.data@.len() == d.len(),
                (self.content.data@, offset as int) == deleted(d, ks, delete_key, index as int),
                self.node_type == old(self).node_type,
                self.parent_uuid == old(self).parent_uuid,
                self.uuid == old(self).uuid,
            decreases keys.len() - index,
        {
            proof {
                lemma_deleted_grows(d, ks, delete_key, index + 1, ks.len() as int);
            }
            if keys[index] == delete_key {
                offset += INDEX_INFO_SIZE - IS_DELETE_SIZE;
                self.content.data.set(offset, 1u8);
            }
            offset += INDEX_INFO_SIZE;
            index += 1;
        }
    }

    /// Adds a key and value to a leaf: where the entry count is positive and the
    /// first key is above `kv.key`, the entries are shifted and the pair written
    /// into the first entry (see `added`); other nodes give an error.
    pub fn add_key_value_pair(&mut self, kv: KeyValuePair) -> (r: Result<(), Error>)
        requires
            old(self).node_type is Leaf ==> {
                let d = old(self).content.data@;
                &&& d.len() >= 9
                &&& entry_count(d) >= 1 ==> d.len() >= 14
                &&& entry_count(d) >= 1 && key_at(d, 0) > kv.key ==> d.len() >= INDEX_RECORD_SIZE
            },
        ensures
            final(self).node_type == old(self).node_type,
            final(self).parent_uuid == old(self).parent_uuid,
            final(self).uuid == old(self).uuid,
            old(self).node_type is Leaf ==> (r is Ok && final(self).content.data@ == added(
                old(self).content.data@,
                kv.key,
                kv.value,
            )),
            !(old(self).node_type is Leaf) ==> (r matches Err(Error::UnexpectedError) && final(self).content
                == old(self).content),
    {
        match self.node_type {
            NodeType::Leaf => {
                let ghost d = self.content.data@;
                let num_keys_val_pairs = match self.content.get_value_from_offset(INDEX_NUMBER_OFFSET) {
                    Ok(n) => n,
                    Err(e) => {
                        return Err(e);
                    },
                };
                let offset = HEADER_SIZE + LEFT_NODE_UUID_SIZE;
                if num_keys_val_pairs >= 1 {
                    let key = match self.content.get_value_from_offset(offset) {
                        Ok(k) => k,
                        Err(e) => {
                            return Err(e);
                        },
                    };
                    if key > kv.key {
                        let mut index = offset - LEFT_NODE_UUID_SIZE;
                        while index < INDEX_RECORD_SIZE - INDEX_INFO_SIZE
                            invariant
                                6 <= index <= 62,
                                self.node_type == old(self).node_type,
                                self.parent_uuid == old(self).parent_uuid,
                                self.uuid == old(self).uuid,
                                d.len() >= INDEX_RECORD_SIZE,
                                self.content.data@.len() == d.len(),
                                forall|j: int|
                                    0 <= j < d.len() && !(19 <= j < index + 13) ==> #[trigger] self.content.data@[j]
                                        == d[j],
                                forall|j: int| 19 <= j < index + 13 ==> #[trigger] self.content.data@[j] == d[6 + (j - 6) % 13],
                            decreases 62 - index,
                        {
                            let b = self.content.data[index];
                            self.content.data.set(index + INDEX_INFO_SIZE, b);
                            index += 1;
                        }
                        let ghost sh = self.content.data@;
                        assert(sh =~= shifted(d));
                        write_be_u32(&mut self.content.data, offset, kv.key);
                        write_be_u32(&mut self.content.data, offset + KEY_SIZE, kv.value);
                        proof {
                            lemma_be_u32_bytes(kv.key);
                            lemma_be_u32_bytes(kv.value);
                            assert(self.content.data@ =~= put_u32(put_u32(shifted(d), 10, kv.key), 14, kv.value));
                        }
                    }
                }
                Ok(())
            },
            _ => Err(Error::UnexpectedError),
        }
    }
}


proof fn lemma_first_live_pair(d: Seq<u8>, n: int)
    requires
        n >= 1,
        !deleted_at(d, 0),
    ensures
        live_pairs(d, n).len() >= 1,
        live_pairs(d, n)[0] == (key_at(d, 0), value_at(d, 0)),
    decreases n,
{
    if n > 1 {
        lemma_first_live_pair(d, n - 1);
    } else {
        assert(live_pairs(d, 0) == Seq::<(u32, u32)>::empty());
    }
}

/// Adding a pair whose key lies below the first key of a record whose first
/// entry is live makes it the first pair that the record gives back, and leaves
/// the entry count as it was.
pub proof fn law_pair_after_add(d: Seq<u8>, key: u32, value: u32)
    requires
        d.len() >= INDEX_RECORD_SIZE,
        entry_count(d) >= 1,
        key_at(d, 0) > key,
        !deleted_at(d, 0),
    ensures
        entry_count(added(d, key, value)) == entry_count(d),
        live_pairs(added(d, key, value), entry_count(d)).len() >= 1,
        live_pairs(added(d, key, value), entry_count(d))[0] == (key, value),
{
    let a = added(d, key, value);
    crate::bytes::lemma_be_u32_bytes(key);
    crate::bytes::lemma_be_u32_bytes(value);
    assert(a[5] == d[5] && a[6] == d[6] && a[7] == d[7] && a[8] == d[8]);
    assert(a[18] == d[18]);
    assert(a[10] == be_u32_bytes(key)[0] && a[11] == be_u32_bytes(key)[1]);
    assert(a[12] == be_u32_bytes(key)[2] && a[13] == be_u32_bytes(key)[3]);
    assert(a[14] == be_u32_bytes(value)[0] && a[15] == be_u32_bytes(value)[1]);
    assert(a[16] == be_u32_bytes(value)[2] && a[17] == be_u32_bytes(value)[3]);
    assert(key_at(a, 0) == key);
    assert(value_at(a, 0) == value);
    lemma_first_live_pair(a, entry_count(d));
}

proof fn lemma_deleted_before(d: Seq<u8>, keys: Seq<u32>, key: u32, n: int)
    requires
        0 <= n <= keys.len(),
        forall|j: int| 0 <= j < n ==> keys[j] != key,
    ensures
        deleted(d, keys, key, n) == (d, index_pos(n)),
    decreases n,
{
    if n > 0 {
        lemma_deleted_before(d, keys, key, n - 1);
    }
}

proof fn lemma_deleted_after(d: Seq<u8>, keys: Seq<u32>, key: u32, i: int, n: int)
    requires
        0 <= i < n <= keys.len(),
        keys[i] == key,
        forall|j: int| 0 <= j < i ==> keys[j] != key,
        forall|m: int| 0 <= m < keys.len() && keys[m] == key ==> #[trigger] deleted(d, keys, key, m).1 + 12 < d.len(),
    ensures
        deleted(d, keys, key, n).0[index_pos(i) + 12] == 1,
        deleted(d, keys, key, n).0.len() == d.len(),
        deleted(d, keys, key, n).1 >= index_pos(i) + 25,
    decreases n,
{
    if n == i + 1 {
        lemma_deleted_before(d, keys, key, i);
    } else {
        lemma_deleted_after(d, keys, key, i, n - 1);
        if keys[n - 1] == key {
            assert(deleted(d, keys, key, n - 1).1 + 12 < d.len());
        }
    }
}

/// Deleting a key (where `delete_record` can be called) marks deleted the first
/// entry whose key, as `get_keys` lists them, it is.
pub proof fn law_delete_marks_first_entry(d: Seq<u8>, key: u32, i: int)
    requires
        entry_count(d) >= 1,
        0 <= i < entry_count(d) - 1,
        key_at(d, i) == key,
        forall|j: int| 0 <= j < i ==> key_at(d, j) != key,
        delete_fits(d, key),
    ensures
        deleted_at(deleted(d, keys_of(d, entry_count(d) - 1), key, entry_count(d) - 1).0, i),
{
    let keys = keys_of(d, entry_count(d) - 1);
    assert forall|j: int| 0 <= j < i implies keys[j] != key by {
        assert(keys[j] == key_at(d, j));
    }
    lemma_deleted_after(d, keys, key, i, keys.len() as int);
}

} // verus!
