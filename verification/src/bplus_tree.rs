//! The B+ tree index: its nodes are items of the index file, reached through the
//! buffer pool; block 1 of the file (data page 0) holds the root's uuid and the
//! first free page, big-endian.
use vstd::prelude::*;
use crate::bytes::{be_u32_at, be_u32_bytes, read_be_u32, write_be_u32};
use crate::disk::{
    Disk, DiskManager, SIZE, read_block, write_block, is_new_file, law_read_after_write, law_write_keeps_other_blocks,
};
use crate::buffer_pool::{BufferPool, BufferView, lru_next_initial, write_slot, shared_agree, cached, holds};
use crate::page::{
    ItemHandler, ItemManager, loadable, judgeable, seen_page, lookup_ok, find_in_page, page_for_uuid,
    uuid_page, slots_after_judge, no_page_of, lemma_fresh_walk, slots_after_insert, make_uuid,
    items_of, updated, update_ok, lemma_judged, law_get_after_insert, law_uuid_names_its_page,
    insert_is_readable, walk_end, is_formatted, has_uuid, judged, law_get_after_update, sole_item_above_directory,
};
use crate::node::{
    Node, NodeType, IndexRecord, Error, known, node_type_of, keys_of, children_of, live_pairs, entry_count,
    index_pos, deleted, delete_fits, put_u32, deleted_at, key_at, value_at, INDEX_RECORD_SIZE, INDEX_INFO_SIZE, INDEX_NUMBER_OFFSET,
    INDEX_START_OFFSET, LEFT_NODE_UUID_SIZE,
};
use crate::key_value_pair::KeyValuePair;

verus! {

/// The value of a node.
pub struct NodeView {
    pub node_type: NodeType,
    pub parent_uuid: u32,
    pub uuid: u32,
    pub data: Seq<u8>,
}

impl Node {
    pub open spec fn view(&self) -> NodeView {
        NodeView {
            node_type: self.node_type,
            parent_uuid: self.parent_uuid,
            uuid: self.uuid,
            data: self.content.data@,
        }
    }

    /// A copy of this node.
    pub fn duplicate(&self) -> (r: Node)
        ensures
            r@ == self@,
    {
        let t = match self.node_type {
            NodeType::Internal => NodeType::Internal,
            NodeType::Leaf => NodeType::Leaf,
            NodeType::Root => NodeType::Root,
            NodeType::Unknown => NodeType::Unknown,
        };
        let data = self.content.data.clone();
        assert(data@ =~= self.content.data@);
        Node { node_type: t, parent_uuid: self.parent_uuid, uuid: self.uuid, content: IndexRecord { data } }
    }
}

/// Where a lookup of an item through the pool can be made.
pub open spec fn get_ok(s: Seq<BufferView>, files: Map<Seq<char>, Seq<u8>>, name: Seq<char>, uuid: u32, free_page: u32) -> bool {
    &&& loadable(s, files, name, (uuid_page(uuid) + 1) as u32)
    &&& judgeable(seen_page(s, files, name, (uuid_page(uuid) + 1) as u32))
    &&& lookup_ok(page_for_uuid(s, files, name, uuid, free_page), uuid)
}

/// The slots after a lookup of an item through the pool.
pub open spec fn slots_after_get(
    s: Seq<BufferView>,
    init: Seq<bool>,
    files: Map<Seq<char>, Seq<u8>>,
    name: Seq<char>,
    uuid: u32,
    free_page: u32,
) -> Seq<BufferView> {
    slots_after_judge(s, init, files, name, (uuid_page(uuid) + 1) as u32, free_page)
}

/// The initial marks after a lookup of an item through the pool.
pub open spec fn initial_after_get(s: Seq<BufferView>, init: Seq<bool>, name: Seq<char>, uuid: u32) -> Seq<bool> {
    lru_next_initial(s, init, name, (uuid_page(uuid) + 1) as u32)
}

/// The node made of the item `uuid` as the pool shows it.
pub open spec fn loaded_node(s: Seq<BufferView>, files: Map<Seq<char>, Seq<u8>>, name: Seq<char>, uuid: u32, free_page: u32) -> NodeView {
    let item = find_in_page(page_for_uuid(s, files, name, uuid, free_page), uuid)->0;
    NodeView { node_type: node_type_of(item[0]), parent_uuid: be_u32_at(item, 1) as u32, uuid, data: item }
}

/// Where the keys of a node can be read.
pub open spec fn keys_readable(n: NodeView) -> bool {
    known(n.node_type) ==> {
        &&& n.data.len() >= 9
        &&& entry_count(n.data) >= 1
        &&& index_pos(entry_count(n.data) - 1) <= n.data.len()
    }
}

/// The keys of a node of known type.
pub open spec fn node_keys(n: NodeView) -> Seq<u32> {
    keys_of(n.data, entry_count(n.data) - 1)
}

/// Where the search in a node stops: the first key that equals the search key in
/// a leaf, or that is at least the search key; the number of keys if none.
pub open spec fn stop_index(keys: Seq<u32>, key: u32, leaf: bool, i: int) -> int
    decreases keys.len() - i,
{
    if i >= keys.len() || i < 0 {
        keys.len() as int
    } else if (keys[i] == key && leaf) || keys[i] >= key {
        i
    } else {
        stop_index(keys, key, leaf, i + 1)
    }
}

/// What a search from node `n` comes to: the slots and initial marks after it,
/// and the node where it ended with the pair found there, or an error. `fuel`
/// bounds the number of levels it may go down.
pub open spec fn search_from(
    s: Seq<BufferView>,
    init: Seq<bool>,
    files: Map<Seq<char>, Seq<u8>>,
    name: Seq<char>,
    free_page: u32,
    n: NodeView,
    key: u32,
    fuel: nat,
) -> (Seq<BufferView>, Seq<bool>, Result<(NodeView, Option<(u32, u32)>), Error>)
    decreases fuel, 1nat,
{
    if !known(n.node_type) {
        (s, init, Err(Error::UnexpectedError))
    } else {
        let keys = node_keys(n);
        let leaf = n.node_type is Leaf;
        let i = stop_index(keys, key, leaf, 0);
        if i < keys.len() && keys[i] == key && leaf {
            let kvs = live_pairs(n.data, entry_count(n.data));
            if i < kvs.len() {
                (s, init, Ok((n, Some(kvs[i]))))
            } else {
                (s, init, Err(Error::UnexpectedError))
            }
        } else {
            descend_from(s, init, files, name, free_page, n, i, key, fuel)
        }
    }
}

/// What the search comes to from child `index` of node `n`.
pub open spec fn descend_from(
    s: Seq<BufferView>,
    init: Seq<bool>,
    files: Map<Seq<char>, Seq<u8>>,
    name: Seq<char>,
    free_page: u32,
    n: NodeView,
    index: int,
    key: u32,
    fuel: nat,
) -> (Seq<BufferView>, Seq<bool>, Result<(NodeView, Option<(u32, u32)>), Error>)
    decreases fuel, 0nat,
{
    match n.node_type {
        NodeType::Leaf => (s, init, Ok((n, None))),
        NodeType::Unknown => (s, init, Err(Error::UnexpectedError)),
        _ => {
            let children = children_of(n.data, entry_count(n.data));
            if index < 0 || index >= children.len() {
                (s, init, Err(Error::UnexpectedError))
            } else if fuel == 0 {
                (s, init, Err(Error::UnexpectedError))
            } else {
                let c = children[index] as u32;
                let child = loaded_node(s, files, name, c, free_page);
                search_from(
                    slots_after_get(s, init, files, name, c, free_page),
                    initial_after_get(s, init, name, c),
                    files,
                    name,
                    free_page,
                    child,
                    key,
                    (fuel - 1) as nat,
                )
            }
        },
    }
}

/// Whether the search from node `n` can be made within `fuel` levels: every
/// node's keys can be read, a leaf's pairs where a key matches, an inner node's
/// children, and every child is found through the pool.
pub open spec fn search_ok(
    s: Seq<BufferView>,
    init: Seq<bool>,
    files: Map<Seq<char>, Seq<u8>>,
    name: Seq<char>,
    free_page: u32,
    n: NodeView,
    key: u32,
    fuel: nat,
) -> bool
    decreases fuel, 1nat,
{
    &&& keys_readable(n)
    &&& known(n.node_type) ==> {
        let keys = node_keys(n);
        let leaf = n.node_type is Leaf;
        let i = stop_index(keys, key, leaf, 0);
        if i < keys.len() && keys[i] == key && leaf {
            index_pos(entry_count(n.data)) <= n.data.len()
        } else {
            descend_ok(s, init, files, name, free_page, n, i, key, fuel)
        }
    }
}

/// Whether the search from child `index` of node `n` can be made within `fuel`
/// levels.
pub open spec fn descend_ok(
    s: Seq<BufferView>,
    init: Seq<bool>,
    files: Map<Seq<char>, Seq<u8>>,
    name: Seq<char>,
    free_page: u32,
    n: NodeView,
    index: int,
    key: u32,
    fuel: nat,
) -> bool
    decreases fuel, 0nat,
{
    match n.node_type {
        NodeType::Internal | NodeType::Root => {
            let children = children_of(n.data, entry_count(n.data));
            &&& n.data.len() >= 9
            &&& index_pos(entry_count(n.data) - 1) + 4 <= n.data.len()
            &&& (0 <= index < children.len() ==> {
                let c = children[index] as u32;
                &&& fuel > 0
                &&& get_ok(s, files, name, c, free_page)
                &&& find_in_page(page_for_uuid(s, files, name, c, free_page), c) is Some
                &&& find_in_page(page_for_uuid(s, files, name, c, free_page), c)->0.len() >= 5
                &&& search_ok(
                    slots_after_get(s, init, files, name, c, free_page),
                    initial_after_get(s, init, name, c),
                    files,
                    name,
                    free_page,
                    loaded_node(s, files, name, c, free_page),
                    key,
                    (fuel - 1) as nat,
                )
            })
        },
        _ => true,
    }
}

/// The B+ tree.
pub struct BPlusTree {
    pub root: Node,
    free_page: u32,
    item_handler: ItemHandler,
}

impl BPlusTree {
    pub closed spec fn file_name(&self) -> Seq<char> {
        self.item_handler.file_name@
    }

    pub closed spec fn handler_free_page(&self) -> u32 {
        self.item_handler.free_page
    }

    pub closed spec fn free_page(&self) -> u32 {
        self.free_page
    }

    pub closed spec fn root_view(&self) -> NodeView {
        self.root@
    }

    /// Loads the node stored as item `uuid`.
    fn get_node_by_uuid(&mut self, pool: &mut BufferPool, disk: &Disk, uuid: u32) -> (r: Result<Node, Error>)
        requires
            old(pool).wf(),
            old(pool).pool_size() >= 1,
            disk.wf(),
            get_ok(old(pool).view(), disk.view(), old(self).file_name(), uuid, old(self).handler_free_page()),
            find_in_page(page_for_uuid(old(pool).view(), disk.view(), old(self).file_name(), uuid, old(self).handler_free_page()), uuid) is Some,
            find_in_page(page_for_uuid(old(pool).view(), disk.view(), old(self).file_name(), uuid, old(self).handler_free_page()), uuid)->0.len() >= 5,
        ensures
            *final(self) == *old(self),
            final(pool).wf(),
            final(pool).pool_size() == old(pool).pool_size(),
            final(pool).view() == slots_after_get(old(pool).view(), old(pool).initial(), disk.view(), old(self).file_name(), uuid, old(self).handler_free_page()),
            final(pool).initial() == initial_after_get(old(pool).view(), old(pool).initial(), old(self).file_name(), uuid),
            r matches Ok(n) && n@ == loaded_node(old(pool).view(), disk.view(), old(self).file_name(), uuid, old(self).handler_free_page()),
    {
        let item = self.item_handler.get_item_by_uuid(pool, disk, uuid).unwrap();
        Ok(Node::create_from(item, uuid))
    }
}

/// Whether an exec search result agrees with the specified one.
pub open spec fn search_result_is(
    r: Result<(Node, Option<KeyValuePair>), Error>,
    res: Result<(NodeView, Option<(u32, u32)>), Error>,
) -> bool {
    match (r, res) {
        (Ok((n, kv)), Ok((nv, kvv))) => n@ == nv && match (kv, kvv) {
            (Some(a), Some(b)) => (a.key, a.value) == b,
            (None, None) => true,
            _ => false,
        },
        (Err(e1), Err(e2)) => e1 == e2,
        _ => false,
    }
}

/// The first index where the search in a node stops.
fn find_stop(keys: &Vec<u32>, key: u32, leaf: bool) -> (r: usize)
    ensures
        r == stop_index(keys@, key, leaf, 0),
        r <= keys@.len(),
{
    let mut i: usize = 0;
    while i < keys.len()
        invariant
            i <= keys@.len(),
            stop_index(keys@, key, leaf, 0) == stop_index(keys@, key, leaf, i as int),
        decreases keys.len() - i,
    {
        if (keys[i] == key && leaf) || keys[i] >= key {
            return i;
        }
        i += 1;
    }
    i
}

impl BPlusTree {
    /// Searches from `node` for `search_key`; see `search_from`.
    fn search_node(
        &mut self,
        pool: &mut BufferPool,
        disk: &Disk,
        node: Node,
        search_key: u32,
        Ghost(fuel): Ghost<nat>,
    ) -> (r: Result<(Node, Option<KeyValuePair>), Error>)
        requires
            old(pool).wf(),
            old(pool).pool_size() >= 1,
            disk.wf(),
            search_ok(old(pool).view(), old(pool).initial(), disk.view(), old(self).file_name(), old(self).handler_free_page(), node@, search_key, fuel),
        ensures
            *final(self) == *old(self),
            final(pool).wf(),
            final(pool).pool_size() == old(pool).pool_size(),
            ({
                let (s2, i2, res) = search_from(old(pool).view(), old(pool).initial(), disk.view(), old(self).file_name(), old(self).handler_free_page(), node@, search_key, fuel);
                &&& final(pool).view() == s2
                &&& final(pool).initial() == i2
                &&& search_result_is(r, res)
            }),
        decreases fuel, 1nat,
    {
        let keys = match node.get_keys() {
            Ok(k) => k,
            Err(e) => {
                return Err(e);
            },
        };
        let leaf = match node.node_type {
            NodeType::Leaf => true,
            _ => false,
        };
        let i = find_stop(&keys, search_key, leaf);
        if i < keys.len() && keys[i] == search_key && leaf {
            let kv_pairs = match node.get_key_value_pairs() {
                Ok(kvs) => kvs,
                Err(e) => {
                    return Err(e);
                },
            };
            if i < kv_pairs.len() {
                let kv = kv_pairs[i];
                proof {
                    assert(crate::node::pair_views(kv_pairs@)[i as int] == (kv.key, kv.value));
                }
                return Ok((node, Some(kv)));
            } else {
                return Err(Error::UnexpectedError);
            }
        }
        self.traverse_or_return(pool, disk, node, i, search_key, Ghost(fuel))
    }

    /// Goes on from child `index` of `node`; see `descend_from`.
    fn traverse_or_return(
        &mut self,
        pool: &mut BufferPool,
        disk: &Disk,
        node: Node,
        index: usize,
        search_key: u32,
        Ghost(fuel): Ghost<nat>,
    ) -> (r: Result<(Node, Option<KeyValuePair>), Error>)
        requires
            old(pool).wf(),
            old(pool).pool_size() >= 1,
            disk.wf(),
            descend_ok(old(pool).view(), old(pool).initial(), disk.view(), old(self).file_name(), old(self).handler_free_page(), node@, index as int, search_key, fuel),
        ensures
            *final(self) == *old(self),
            final(pool).wf(),
            final(pool).pool_size() == old(pool).pool_size(),
            ({
                let (s2, i2, res) = descend_from(old(pool).view(), old(pool).initial(), disk.view(), old(self).file_name(), old(self).handler_free_page(), node@, index as int, search_key, fuel);
                &&& final(pool).view() == s2
                &&& final(pool).initial() == i2
                &&& search_result_is(r, res)
            }),
        decreases fuel, 0nat,
    {
        match node.node_type {
            NodeType::Leaf => Ok((node, None)),
            NodeType::Unknown => Err(Error::UnexpectedError),
            _ => {
                let children = match node.get_children() {
                    Ok(c) => c,
                    Err(e) => {
                        return Err(e);
                    },
                };
                if index >= children.len() {
                    return Err(Error::UnexpectedError);
                }
                let child_uuid = children[index] as u32;
                let child_node = match self.get_node_by_uuid(pool, disk, child_uuid) {
                    Ok(n) => n,
                    Err(e) => {
                        return Err(e);
                    },
                };
                self.search_node(pool, disk, child_node, search_key, Ghost((fuel - 1) as nat))
            },
        }
    }
}

/// Whether the search from node `n` can be made within some number of levels.
pub open spec fn searchable(
    s: Seq<BufferView>,
    init: Seq<bool>,
    files: Map<Seq<char>, Seq<u8>>,
    name: Seq<char>,
    free_page: u32,
    n: NodeView,
    key: u32,
) -> bool {
    exists|fuel: nat| search_ok(s, init, files, name, free_page, n, key, fuel)
}

/// What the search from node `n` comes to (within a number of levels for which it
/// can be made).
pub open spec fn search_outcome(
    s: Seq<BufferView>,
    init: Seq<bool>,
    files: Map<Seq<char>, Seq<u8>>,
    name: Seq<char>,
    free_page: u32,
    n: NodeView,
    key: u32,
) -> (Seq<BufferView>, Seq<bool>, Result<(NodeView, Option<(u32, u32)>), Error>) {
    let fuel = choose|fuel: nat| search_ok(s, init, files, name, free_page, n, key, fuel);
    search_from(s, init, files, name, free_page, n, key, fuel)
}

impl BPlusTree {
    /// The pair stored under `key`: the search goes from the root down; a leaf
    /// without the key answers `KeyNotFound`.
    pub fn search(&mut self, pool: &mut BufferPool, disk: &Disk, key: u32) -> (r: Result<KeyValuePair, Error>)
        requires
            old(pool).wf(),
            old(pool).pool_size() >= 1,
            disk.wf(),
            searchable(old(pool).view(), old(pool).initial(), disk.view(), old(self).file_name(), old(self).handler_free_page(), old(self).root_view(), key),
        ensures
            *final(self) == *old(self),
            final(pool).wf(),
            final(pool).pool_size() == old(pool).pool_size(),
            ({
                let (s2, i2, res) = search_outcome(old(pool).view(), old(pool).initial(), disk.view(), old(self).file_name(), old(self).handler_free_page(), old(self).root_view(), key);
                &&& final(pool).view() == s2
                &&& final(pool).initial() == i2
                &&& match res {
                    Ok((_, Some(kv))) => r matches Ok(k) && (k.key, k.value) == kv,
                    Ok((_, None)) => r matches Err(Error::KeyNotFound),
                    Err(e) => r matches Err(e2) && e2 == e,
                }
            }),
    {
        let ghost fuel = choose|fuel: nat| search_ok(pool.view(), pool.initial(), disk.view(), self.file_name(), self.handler_free_page(), self.root_view(), key, fuel);
        let root = self.root.duplicate();
        let (_, kv) = match self.search_node(pool, disk, root, key, Ghost(fuel)) {
            Ok(x) => x,
            Err(e) => {
                return Err(e);
            },
        };
        match kv {
            Some(kv) => Ok(kv),
            None => Err(Error::KeyNotFound),
        }
    }

    /// Inserts `kv` under the node `node`: answers `KeyAlreadyExists` where the
    /// search from `node` finds the key and the search's error where it fails;
    /// where it ends at a leaf without the key, stores the pair there if the leaf
    /// has fewer than `M` entries, and otherwise splits the leaf (see
    /// `insert_from`).
    pub fn insert_internal(&mut self, pool: &mut BufferPool, disk: &Disk, node: Node, kv: KeyValuePair) -> (r: Result<(), Error>)
        requires
            old(pool).wf(),
            old(pool).pool_size() >= 1,
            disk.wf(),
            insertable(old(pool).view(), old(pool).initial(), disk.view(), old(self).file_name(), old(self).handler_free_page(), node@, kv.key, kv.value),
        ensures
            *final(self) == *old(self),
            final(pool).wf(),
            final(pool).pool_size() == old(pool).pool_size(),
            (final(pool).view(), final(pool).initial(), r) == insert_outcome(old(pool).view(), old(pool).initial(), disk.view(), old(self).file_name(), old(self).handler_free_page(), node@, kv.key, kv.value),
    {
        let ghost depth = choose|depth: nat| insert_ok(pool.view(), pool.initial(), disk.view(), self.file_name(), self.handler_free_page(), node@, kv.key, kv.value, depth);
        self.insert_at(pool, disk, node, kv, Ghost(depth))
    }

    /// Inserts `kv` into the tree, from the root (see `insert_internal`).
    pub fn insert(&mut self, pool: &mut BufferPool, disk: &Disk, kv: KeyValuePair) -> (r: Result<(), Error>)
        requires
            old(pool).wf(),
            old(pool).pool_size() >= 1,
            disk.wf(),
            insertable(old(pool).view(), old(pool).initial(), disk.view(), old(self).file_name(), old(self).handler_free_page(), old(self).root_view(), kv.key, kv.value),
        ensures
            *final(self) == *old(self),
            final(pool).wf(),
            final(pool).pool_size() == old(pool).pool_size(),
            (final(pool).view(), final(pool).initial(), r) == insert_outcome(old(pool).view(), old(pool).initial(), disk.view(), old(self).file_name(), old(self).handler_free_page(), old(self).root_view(), kv.key, kv.value),
    {
        let root = self.root.duplicate();
        self.insert_internal(pool, disk, root, kv)
    }
}

/// The number of entries a node holds at most.
pub const M: u32 = 5;

/// The leaf record `d` with (`key`, `value`) stored at the entry where the
/// search for `key` stops: the entries from there on move up by one, the new
/// entry (left child 0, not deleted) takes its place, and the entry count grows
/// by one.
pub open spec fn with_pair(d: Seq<u8>, key: u32, value: u32) -> Seq<u8> {
    let c = entry_count(d);
    let i = stop_index(keys_of(d, c - 1), key, true, 0);
    let moved = Seq::new(
        d.len(),
        |j: int| if index_pos(i + 1) <= j < index_pos(c + 1) { d[j - INDEX_INFO_SIZE] } else { d[j] },
    );
    let e = put_u32(put_u32(put_u32(moved, index_pos(i), 0), index_pos(i) + 4, key), index_pos(i) + 8, value).update(
        index_pos(i) + 12,
        0u8,
    );
    put_u32(e, INDEX_NUMBER_OFFSET as int, (c + 1) as u32)
}

/// Where the pair can be stored in `leaf`: the record has room for one more
/// entry, and its item can be overwritten through the pool.
pub open spec fn store_ok(s: Seq<BufferView>, files: Map<Seq<char>, Seq<u8>>, name: Seq<char>, free_page: u32, leaf: NodeView) -> bool {
    &&& leaf.data.len() >= INDEX_RECORD_SIZE
    &&& entry_count(leaf.data) >= 1
    &&& loadable(s, files, name, (uuid_page(leaf.uuid) + 1) as u32)
    &&& judgeable(seen_page(s, files, name, (uuid_page(leaf.uuid) + 1) as u32))
    &&& update_ok(page_for_uuid(s, files, name, leaf.uuid, free_page), leaf.uuid, leaf.data.len() as int)
}

/// Whether an insert of (`key`, `value`) from node `n` can be made with at most
/// `depth` splits: the search can be made, and where it ends at a leaf without
/// the key, the pair can be stored there, or the leaf split (`split_ok`).
pub open spec fn insert_ok(
    s: Seq<BufferView>,
    init: Seq<bool>,
    files: Map<Seq<char>, Seq<u8>>,
    name: Seq<char>,
    free_page: u32,
    n: NodeView,
    key: u32,
    value: u32,
    depth: nat,
) -> bool
    decreases depth, 1nat,
{
    &&& searchable(s, init, files, name, free_page, n, key)
    &&& match search_outcome(s, init, files, name, free_page, n, key) {
        (s1, i1, Ok((leaf, None))) => {
            &&& leaf.node_type is Leaf
            &&& leaf.data.len() >= 9
            &&& if entry_count(leaf.data) < M {
                store_ok(s1, files, name, free_page, leaf)
            } else {
                split_ok(s1, i1, files, name, free_page, leaf, depth)
            }
        },
        _ => true,
    }
}

/// Whether a full leaf can be split: its keys and its parent can be read, and the
/// middle key (with value 0) can be inserted from the parent.
pub open spec fn split_ok(
    s: Seq<BufferView>,
    init: Seq<bool>,
    files: Map<Seq<char>, Seq<u8>>,
    name: Seq<char>,
    free_page: u32,
    leaf: NodeView,
    depth: nat,
) -> bool
    decreases depth, 0nat,
{
    if depth == 0 {
        false
    } else {
        let keys = node_keys(leaf);
        let parent_uuid = be_u32_at(leaf.data, 1) as u32;
        let s2 = slots_after_get(s, init, files, name, parent_uuid, free_page);
        let i2 = initial_after_get(s, init, name, parent_uuid);
        let parent = loaded_node(s, files, name, parent_uuid, free_page);
        &&& keys_readable(leaf)
        &&& keys.len() >= 1
        &&& leaf.data.len() >= INDEX_RECORD_SIZE
        &&& get_ok(s, files, name, parent_uuid, free_page)
        &&& find_in_page(page_for_uuid(s, files, name, parent_uuid, free_page), parent_uuid) is Some
        &&& find_in_page(page_for_uuid(s, files, name, parent_uuid, free_page), parent_uuid)->0.len() >= 5
        &&& insert_ok(s2, i2, files, name, free_page, parent, keys[(keys.len() / 2) as int], 0, (depth - 1) as nat)
    }
}

/// What an insert of (`key`, `value`) from node `n` comes to: the slots, the
/// initial marks and the answer. A found key answers `KeyAlreadyExists`; a
/// failed search its error; a leaf without the key and with fewer than `M`
/// entries gets the pair (`with_pair`) written over its item and answers `Ok`;
/// a full leaf is split: the middle key, with value 0, is inserted from the
/// leaf's parent.
pub open spec fn insert_from(
    s: Seq<BufferView>,
    init: Seq<bool>,
    files: Map<Seq<char>, Seq<u8>>,
    name: Seq<char>,
    free_page: u32,
    n: NodeView,
    key: u32,
    value: u32,
    depth: nat,
) -> (Seq<BufferView>, Seq<bool>, Result<(), Error>)
    decreases depth, 1nat,
{
    match search_outcome(s, init, files, name, free_page, n, key) {
        (s1, i1, Err(e)) => (s1, i1, Err(e)),
        (s1, i1, Ok((_, Some(_)))) => (s1, i1, Err(Error::KeyAlreadyExists)),
        (s1, i1, Ok((leaf, None))) => {
            if entry_count(leaf.data) < M {
                (
                    slots_after_update(s1, i1, files, name, leaf.uuid, free_page, with_pair(leaf.data, key, value)),
                    lru_next_initial(s1, i1, name, (uuid_page(leaf.uuid) + 1) as u32),
                    Ok(()),
                )
            } else {
                split_from(s1, i1, files, name, free_page, leaf, depth)
            }
        },
    }
}

/// What splitting a full leaf comes to (see `split_ok`).
pub open spec fn split_from(
    s: Seq<BufferView>,
    init: Seq<bool>,
    files: Map<Seq<char>, Seq<u8>>,
    name: Seq<char>,
    free_page: u32,
    leaf: NodeView,
    depth: nat,
) -> (Seq<BufferView>, Seq<bool>, Result<(), Error>)
    decreases depth, 0nat,
{
    if depth == 0 {
        (s, init, Err(Error::UnexpectedError))
    } else {
        let keys = node_keys(leaf);
        let parent_uuid = be_u32_at(leaf.data, 1) as u32;
        insert_from(
            slots_after_get(s, init, files, name, parent_uuid, free_page),
            initial_after_get(s, init, name, parent_uuid),
            files,
            name,
            free_page,
            loaded_node(s, files, name, parent_uuid, free_page),
            keys[(keys.len() / 2) as int],
            0,
            (depth - 1) as nat,
        )
    }
}

/// Whether an insert from node `n` can be made with some number of splits.
pub open spec fn insertable(
    s: Seq<BufferView>,
    init: Seq<bool>,
    files: Map<Seq<char>, Seq<u8>>,
    name: Seq<char>,
    free_page: u32,
    n: NodeView,
    key: u32,
    value: u32,
) -> bool {
    exists|depth: nat| insert_ok(s, init, files, name, free_page, n, key, value, depth)
}

/// What an insert from node `n` comes to (with a number of splits for which it
/// can be made).
pub open spec fn insert_outcome(
    s: Seq<BufferView>,
    init: Seq<bool>,
    files: Map<Seq<char>, Seq<u8>>,
    name: Seq<char>,
    free_page: u32,
    n: NodeView,
    key: u32,
    value: u32,
) -> (Seq<BufferView>, Seq<bool>, Result<(), Error>) {
    let depth = choose|depth: nat| insert_ok(s, init, files, name, free_page, n, key, value, depth);
    insert_from(s, init, files, name, free_page, n, key, value, depth)
}

proof fn lemma_stop_index_bounds(keys: Seq<u32>, key: u32, leaf: bool, k: int)
    requires
        0 <= k <= keys.len(),
    ensures
        k <= stop_index(keys, key, leaf, k) <= keys.len(),
        forall|j: int| k <= j < stop_index(keys, key, leaf, k) ==> !(#[trigger] keys[j] == key && leaf) && keys[j] < key,
        stop_index(keys, key, leaf, k) < keys.len() ==> ((keys[stop_index(keys, key, leaf, k)] == key && leaf)
            || keys[stop_index(keys, key, leaf, k)] >= key),
    decreases keys.len() - k,
{
    if k < keys.len() && !((keys[k] == key && leaf) || keys[k] >= key) {
        lemma_stop_index_bounds(keys, key, leaf, k + 1);
    }
}

proof fn lemma_stop_at(keys: Seq<u32>, key: u32, leaf: bool, i: int, k: int)
    requires
        0 <= k <= i < keys.len(),
        keys[i] == key,
        leaf,
        forall|j: int| 0 <= j < i ==> #[trigger] keys[j] < key,
    ensures
        stop_index(keys, key, leaf, k) == i,
    decreases i - k,
{
    if k < i {
        assert(keys[k] < key);
        lemma_stop_at(keys, key, leaf, i, k + 1);
    }
}

proof fn lemma_live_prefix(d: Seq<u8>, n: int)
    requires
        n >= 0,
        forall|j: int| 0 <= j < n ==> !#[trigger] deleted_at(d, j),
    ensures
        live_pairs(d, n).len() == n,
        forall|j: int| 0 <= j < n ==> #[trigger] live_pairs(d, n)[j] == (key_at(d, j), value_at(d, j)),
    decreases n,
{
    if n > 0 {
        lemma_live_prefix(d, n - 1);
        assert(!deleted_at(d, n - 1));
    }
}

proof fn lemma_live_at(d: Seq<u8>, i: int, n: int)
    requires
        0 <= i < n,
        forall|j: int| 0 <= j <= i ==> !#[trigger] deleted_at(d, j),
    ensures
        live_pairs(d, n).len() > i,
        live_pairs(d, n)[i] == (key_at(d, i), value_at(d, i)),
    decreases n,
{
    if n == i + 1 {
        lemma_live_prefix(d, n);
    } else {
        lemma_live_at(d, i, n - 1);
    }
}

proof fn lemma_with_pair_bytes(d: Seq<u8>, key: u32, value: u32)
    requires
        d.len() >= INDEX_RECORD_SIZE,
        1 <= entry_count(d) < M,
    ensures
        ({
            let c = entry_count(d);
            let i = stop_index(keys_of(d, c - 1), key, true, 0);
            let d2 = with_pair(d, key, value);
            &&& 0 <= i <= c - 1
            &&& d2.len() == d.len()
            &&& entry_count(d2) == c + 1
            &&& forall|p: int| 9 <= p < index_pos(i) ==> #[trigger] d2[p] == d[p]
            &&& key_at(d2, i) == key
            &&& value_at(d2, i) == value
            &&& !deleted_at(d2, i)
        }),
{
    let c = entry_count(d);
    let keys = keys_of(d, c - 1);
    lemma_stop_index_bounds(keys, key, true, 0);
    let i = stop_index(keys, key, true, 0);
    let d2 = with_pair(d, key, value);
    crate::bytes::lemma_be_u32_bytes(key);
    crate::bytes::lemma_be_u32_bytes(value);
    crate::bytes::lemma_be_u32_bytes((c + 1) as u32);
    let at = index_pos(i);
    assert(d2[5] == be_u32_bytes((c + 1) as u32)[0] && d2[6] == be_u32_bytes((c + 1) as u32)[1]);
    assert(d2[7] == be_u32_bytes((c + 1) as u32)[2] && d2[8] == be_u32_bytes((c + 1) as u32)[3]);
    assert(d2[at + 4] == be_u32_bytes(key)[0] && d2[at + 5] == be_u32_bytes(key)[1]);
    assert(d2[at + 6] == be_u32_bytes(key)[2] && d2[at + 7] == be_u32_bytes(key)[3]);
    assert(d2[at + 8] == be_u32_bytes(value)[0] && d2[at + 9] == be_u32_bytes(value)[1]);
    assert(d2[at + 10] == be_u32_bytes(value)[2] && d2[at + 11] == be_u32_bytes(value)[3]);
    assert(d2[at + 12] == 0);
}

/// Searching a leaf after `with_pair` stored (`key`, `value`) in it finds that
/// pair, where the search had stopped in that leaf without the key and the
/// entries before the place it stopped at are live.
pub proof fn law_leaf_search_finds_stored_pair(
    s: Seq<BufferView>,
    init: Seq<bool>,
    files: Map<Seq<char>, Seq<u8>>,
    name: Seq<char>,
    free_page: u32,
    leaf: NodeView,
    key: u32,
    value: u32,
    fuel: nat,
)
    requires
        leaf.node_type is Leaf,
        leaf.data.len() >= INDEX_RECORD_SIZE,
        1 <= entry_count(leaf.data) < M,
        ({
            let keys = node_keys(leaf);
            let i = stop_index(keys, key, true, 0);
            &&& !(i < keys.len() && keys[i] == key)
            &&& forall|j: int| 0 <= j < i ==> !#[trigger] deleted_at(leaf.data, j)
        }),
    ensures
        ({
            let n2 = NodeView { data: with_pair(leaf.data, key, value), ..leaf };
            &&& search_ok(s, init, files, name, free_page, n2, key, fuel)
            &&& search_from(s, init, files, name, free_page, n2, key, fuel) == (s, init, Ok::<(NodeView, Option<(u32, u32)>), Error>((n2, Some((key, value)))))
        }),
{
    let d = leaf.data;
    let c = entry_count(d);
    let keys = keys_of(d, c - 1);
    lemma_stop_index_bounds(keys, key, true, 0);
    let i = stop_index(keys, key, true, 0);
    lemma_with_pair_bytes(d, key, value);
    let d2 = with_pair(d, key, value);
    let n2 = NodeView { data: d2, ..leaf };
    let keys2 = node_keys(n2);
    assert(keys2.len() == c);
    assert forall|j: int| 0 <= j < i implies #[trigger] keys2[j] < key by {
        let p = index_pos(j) + 4;
        assert(d2[p] == d[p] && d2[p + 1] == d[p + 1] && d2[p + 2] == d[p + 2] && d2[p + 3] == d[p + 3]);
        assert(keys2[j] == key_at(d2, j));
        assert(keys[j] == key_at(d, j));
        assert(keys[j] < key);
    }
    assert(keys2[i] == key);
    lemma_stop_at(keys2, key, true, i, 0);
    assert forall|j: int| 0 <= j <= i implies !#[trigger] deleted_at(d2, j) by {
        if j < i {
            assert(!deleted_at(leaf.data, j));
            assert(d2[index_pos(j) + 12] == d[index_pos(j) + 12]);
        }
    }
    lemma_live_at(d2, i, c + 1);
}

/// `d` as a record built by `with_pair`.
fn record_with_pair(d: &Vec<u8>, key: u32, value: u32) -> (r: Vec<u8>)
    requires
        d@.len() >= INDEX_RECORD_SIZE,
        1 <= entry_count(d@) < M,
    ensures
        r@ == with_pair(d@, key, value),
        r@.len() == d@.len(),
{
    let c = read_be_u32(d, INDEX_NUMBER_OFFSET);
    let mut keys: Vec<u32> = Vec::new();
    let mut k: u32 = 0;
    while k < c - 1
        invariant
            1 <= c < M,
            c == entry_count(d@),
            d@.len() >= INDEX_RECORD_SIZE,
            k <= c - 1,
            keys@ == keys_of(d@, k as int),
        decreases c - 1 - k,
    {
        let at = INDEX_START_OFFSET + INDEX_INFO_SIZE * (k as usize) + LEFT_NODE_UUID_SIZE;
        keys.push(read_be_u32(d, at));
        k = k + 1;
        assert(keys@ =~= keys_of(d@, k as int));
    }
    let i = find_stop(&keys, key, true);
    let lo = INDEX_START_OFFSET + INDEX_INFO_SIZE * (i + 1);
    let hi = INDEX_START_OFFSET + INDEX_INFO_SIZE * (c as usize + 1);
    let ghost moved = Seq::new(
        d@.len(),
        |j: int| if lo <= j < hi { d@[j - INDEX_INFO_SIZE] } else { d@[j] },
    );
    let mut r: Vec<u8> = Vec::new();
    let mut j: usize = 0;
    while j < d.len()
        invariant
            lo == index_pos(i + 1),
            hi == index_pos(c + 1),
            i + 1 <= c,
            hi <= INDEX_RECORD_SIZE,
            d@.len() >= INDEX_RECORD_SIZE,
            moved == Seq::new(d@.len(), |p: int| if lo <= p < hi { d@[p - INDEX_INFO_SIZE] } else { d@[p] }),
            j <= d@.len(),
            r@.len() == j,
            forall|p: int| 0 <= p < j ==> #[trigger] r@[p] == moved[p],
        decreases d@.len() - j,
    {
        if lo <= j && j < hi {
            r.push(d[j - INDEX_INFO_SIZE]);
        } else {
            r.push(d[j]);
        }
        j = j + 1;
    }
    assert(r@ =~= moved);
    let at = INDEX_START_OFFSET + INDEX_INFO_SIZE * i;
    let ghost r0 = r@;
    write_be_u32(&mut r, at, 0u32);
    let ghost r1 = r@;
    write_be_u32(&mut r, at + 4, key);
    let ghost r2 = r@;
    write_be_u32(&mut r, at + 8, value);
    let ghost r3 = r@;
    r.set(at + 12, 0u8);
    let ghost r4 = r@;
    write_be_u32(&mut r, INDEX_NUMBER_OFFSET, c + 1);
    proof {
        crate::bytes::lemma_be_u32_bytes(0u32);
        crate::bytes::lemma_be_u32_bytes(key);
        crate::bytes::lemma_be_u32_bytes(value);
        crate::bytes::lemma_be_u32_bytes((c + 1) as u32);
        assert(r1 =~= put_u32(r0, at as int, 0));
        assert(r2 =~= put_u32(r1, at + 4, key));
        assert(r3 =~= put_u32(r2, at + 8, value));
        assert(r@ =~= put_u32(r4, INDEX_NUMBER_OFFSET as int, (c + 1) as u32));
    }
    r
}

impl BPlusTree {
    /// Inserts `kv` from `node` with at most `depth` splits; see `insert_from`.
    fn insert_at(&mut self, pool: &mut BufferPool, disk: &Disk, node: Node, kv: KeyValuePair, Ghost(depth): Ghost<nat>) -> (r: Result<(), Error>)
        requires
            old(pool).wf(),
            old(pool).pool_size() >= 1,
            disk.wf(),
            insert_ok(old(pool).view(), old(pool).initial(), disk.view(), old(self).file_name(), old(self).handler_free_page(), node@, kv.key, kv.value, depth),
        ensures
            *final(self) == *old(self),
            final(pool).wf(),
            final(pool).pool_size() == old(pool).pool_size(),
            (final(pool).view(), final(pool).initial(), r) == insert_from(old(pool).view(), old(pool).initial(), disk.view(), old(self).file_name(), old(self).handler_free_page(), node@, kv.key, kv.value, depth),
        decreases depth, 1nat,
    {
        let ghost fuel = choose|fuel: nat| search_ok(pool.view(), pool.initial(), disk.view(), self.file_name(), self.handler_free_page(), node@, kv.key, fuel);
        let (leaf, found) = match self.search_node(pool, disk, node, kv.key, Ghost(fuel)) {
            Ok(x) => x,
            Err(e) => {
                return Err(e);
            },
        };
        if found.is_some() {
            return Err(Error::KeyAlreadyExists);
        }
        let key_number = match leaf.get_keys_number() {
            Ok(n) => n,
            Err(e) => {
                return Err(e);
            },
        };
        if key_number < M {
            let rec = record_with_pair(&leaf.content.data, kv.key, kv.value);
            self.item_handler.update_item_by_uuid(pool, disk, leaf.uuid, rec);
            Ok(())
        } else {
            self.split_node(pool, disk, leaf, Ghost(depth))
        }
    }

    /// Splits the full leaf `node`: reads its keys and its parent, makes the node
    /// of its upper entries, and inserts the middle key, with value 0, from the
    /// parent (see `split_from`).
    fn split_node(&mut self, pool: &mut BufferPool, disk: &Disk, node: Node, Ghost(depth): Ghost<nat>) -> (r: Result<(), Error>)
        requires
            old(pool).wf(),
            old(pool).pool_size() >= 1,
            disk.wf(),
            node@.node_type is Leaf,
            split_ok(old(pool).view(), old(pool).initial(), disk.view(), old(self).file_name(), old(self).handler_free_page(), node@, depth),
        ensures
            *final(self) == *old(self),
            final(pool).wf(),
            final(pool).pool_size() == old(pool).pool_size(),
            (final(pool).view(), final(pool).initial(), r) == split_from(old(pool).view(), old(pool).initial(), disk.view(), old(self).file_name(), old(self).handler_free_page(), node@, depth),
        decreases depth, 0nat,
    {
        let mut node = node;
        let keys = match node.get_keys() {
            Ok(k) => k,
            Err(e) => {
                return Err(e);
            },
        };
        let median_key = keys[keys.len() / 2];
        let parent_uuid = match node.get_parent_uuid() {
            Ok(p) => p,
            Err(e) => {
                return Err(e);
            },
        };
        let parent_buffer = self.item_handler.get_item_by_uuid(pool, disk, parent_uuid).unwrap();
        let parent_node = Node::create_from(parent_buffer, parent_uuid);
        let _node_add = node.split();
        self.insert_at(pool, disk, parent_node, KeyValuePair { key: median_key, value: 0 }, Ghost((depth - 1) as nat))
    }
}

/// Whether `delete_record(key)` can be made on the record `d`.
pub open spec fn record_deletable(d: Seq<u8>, key: u32) -> bool {
    &&& d.len() >= 9
    &&& known(node_type_of(d[0]))
    &&& entry_count(d) >= 1
    &&& index_pos(entry_count(d) - 1) <= d.len()
    &&& delete_fits(d, key)
}

/// The record `d` after `delete_record(key)`.
pub open spec fn record_after_delete(d: Seq<u8>, key: u32) -> Seq<u8> {
    let keys = keys_of(d, entry_count(d) - 1);
    deleted(d, keys, key, keys.len() as int).0
}

/// The slots after `update_item_by_uuid(uuid, new)` through the pool.
pub open spec fn slots_after_update(
    s: Seq<BufferView>,
    init: Seq<bool>,
    files: Map<Seq<char>, Seq<u8>>,
    name: Seq<char>,
    uuid: u32,
    free_page: u32,
    new: Seq<u8>,
) -> Seq<BufferView> {
    let s1 = slots_after_judge(s, init, files, name, (uuid_page(uuid) + 1) as u32, free_page);
    let i1 = lru_next_initial(s, init, name, (uuid_page(uuid) + 1) as u32);
    let p = page_for_uuid(s, files, name, uuid, free_page);
    write_slot(s1, i1, s1.len() - 1, BufferView { data: updated(p, items_of(p), uuid, new, items_of(p).len() as int), ..s1.last() })
}

/// Whether `delete_index(key)` can be made: the search from the root finds the
/// key in a leaf; the item named by the pair's value is found through the pool,
/// and is a record that `delete_record` takes; and the leaf's item can then be
/// overwritten with the changed record.
pub open spec fn delete_ok(
    s: Seq<BufferView>,
    init: Seq<bool>,
    files: Map<Seq<char>, Seq<u8>>,
    name: Seq<char>,
    free_page: u32,
    root: NodeView,
    key: u32,
) -> bool {
    &&& searchable(s, init, files, name, free_page, root, key)
    &&& match search_outcome(s, init, files, name, free_page, root, key) {
        (s1, i1, Ok((leaf, Some((_, v))))) => {
            let rec = find_in_page(page_for_uuid(s1, files, name, v, free_page), v);
            let s2 = slots_after_get(s1, i1, files, name, v, free_page);
            &&& get_ok(s1, files, name, v, free_page)
            &&& rec is Some
            &&& record_deletable(rec->0, key)
            &&& loadable(s2, files, name, (uuid_page(leaf.uuid) + 1) as u32)
            &&& judgeable(seen_page(s2, files, name, (uuid_page(leaf.uuid) + 1) as u32))
            &&& update_ok(
                page_for_uuid(s2, files, name, leaf.uuid, free_page),
                leaf.uuid,
                record_after_delete(rec->0, key).len() as int,
            )
        },
        _ => false,
    }
}

/// The slots and initial marks after `delete_index(key)`.
pub open spec fn after_delete(
    s: Seq<BufferView>,
    init: Seq<bool>,
    files: Map<Seq<char>, Seq<u8>>,
    name: Seq<char>,
    free_page: u32,
    root: NodeView,
    key: u32,
) -> (Seq<BufferView>, Seq<bool>) {
    match search_outcome(s, init, files, name, free_page, root, key) {
        (s1, i1, Ok((leaf, Some((_, v))))) => {
            let rec = find_in_page(page_for_uuid(s1, files, name, v, free_page), v)->0;
            let s2 = slots_after_get(s1, i1, files, name, v, free_page);
            let i2 = initial_after_get(s1, i1, name, v);
            (
                slots_after_update(s2, i2, files, name, leaf.uuid, free_page, record_after_delete(rec, key)),
                lru_next_initial(s2, i2, name, (uuid_page(leaf.uuid) + 1) as u32),
            )
        },
        _ => (s, init),
    }
}

impl BPlusTree {
    /// Deletes `search_key`: finds the leaf that holds it, loads the item that
    /// the pair's value names, marks the key's entries deleted in that record
    /// (see `delete_record`), and writes the record over the leaf's item.
    pub fn delete_index(&mut self, pool: &mut BufferPool, disk: &Disk, search_key: u32)
        requires
            old(pool).wf(),
            old(pool).pool_size() >= 1,
            disk.wf(),
            delete_ok(old(pool).view(), old(pool).initial(), disk.view(), old(self).file_name(), old(self).handler_free_page(), old(self).root_view(), search_key),
        ensures
            *final(self) == *old(self),
            final(pool).wf(),
            final(pool).pool_size() == old(pool).pool_size(),
            ({
                let (s2, i2) = after_delete(old(pool).view(), old(pool).initial(), disk.view(), old(self).file_name(), old(self).handler_free_page(), old(self).root_view(), search_key);
                &&& final(pool).view() == s2
                &&& final(pool).initial() == i2
            }),
    {
        let ghost fuel = choose|fuel: nat| search_ok(pool.view(), pool.initial(), disk.view(), self.file_name(), self.handler_free_page(), self.root_view(), search_key, fuel);
        let root = self.root.duplicate();
        let (node, key_value) = match self.search_node(pool, disk, root, search_key, Ghost(fuel)) {
            Ok(x) => x,
            Err(_) => {
                assert(false);
                return;
            },
        };
        let uuid = node.uuid;
        let kv = match key_value {
            Some(kv) => kv,
            None => {
                assert(false);
                return;
            },
        };
        let record = match self.item_handler.get_item_by_uuid(pool, disk, kv.value) {
            Some(r) => r,
            None => {
                assert(false);
                return;
            },
        };
        let mut node = Node::create_from(record, uuid);
        node.delete_record(search_key);
        self.item_handler.update_item_by_uuid(pool, disk, uuid, node.content.data);
    }
}

/// The record of a new root: type byte 1, then 74 zero bytes.
pub open spec fn fresh_root() -> Seq<u8> {
    Seq::new(INDEX_RECORD_SIZE as nat, |k: int| if k == 0 { 1u8 } else { 0u8 })
}

/// Page `p` with the root's uuid at bytes 0..4 and first free page 0 at 4..8.
pub open spec fn index_header(p: Seq<u8>, root_uuid: u32) -> Seq<u8> {
    Seq::new(
        p.len(),
        |k: int|
            if k < 4 {
                crate::bytes::be_u32_bytes(root_uuid)[k]
            } else if k < 8 {
                0u8
            } else {
                p[k]
            },
    )
}

impl BPlusTree {
    /// Creates the index file `file_name` with `size` blocks, stores a new root
    /// node as an item through the pool (under a uuid with a random part), and
    /// writes the root's uuid and first free page 0 into the header page.
    pub fn create_index(file_name: &str, size: u32, pool: &mut BufferPool, disk: &mut Disk) -> (r: BPlusTree)
        requires
            old(pool).wf(),
            old(pool).pool_size() >= 1,
            old(disk).wf(),
            !old(disk).view().dom().contains(file_name@),
            size as int * SIZE <= usize::MAX,
            2 * SIZE <= usize::MAX,
            no_page_of(old(pool).view(), file_name@),
        ensures
            final(pool).wf(),
            final(disk).wf(),
            final(pool).pool_size() == old(pool).pool_size(),
            r.file_name() == file_name@,
            r.handler_free_page() == 0,
            r.free_page() == 0,
            r.root_view().node_type is Root,
            r.root_view().parent_uuid == 0,
            r.root_view().data == fresh_root(),
            exists|c: Seq<u8>, salt: u16|
                {
                    &&& is_new_file(c, size)
                    &&& r.root_view().uuid == make_uuid(0, salt)
                    &&& #[trigger] final(pool).view() == slots_after_insert(
                        old(pool).view(),
                        old(pool).initial(),
                        old(disk).view().insert(file_name@, c),
                        file_name@,
                        0,
                        fresh_root(),
                        salt,
                    )
                    &&& final(disk).view() == old(disk).view().insert(
                        file_name@,
                        write_block(c, 1, index_header(read_block(c, 1), make_uuid(0, salt))),
                    )
                },
    {
        let disk_handler = DiskManager::create_file(disk, file_name, size);
        let ghost c = disk.view()[file_name@];
        let mut page = disk_handler.get_page(disk, 0);
        let mut item_handler = ItemManager::new_item_handler(file_name.to_owned(), 0);
        let mut root: Vec<u8> = Vec::new();
        root.push(1u8);
        let mut i: usize = 0;
        while i < INDEX_RECORD_SIZE - 1
            invariant
                i <= INDEX_RECORD_SIZE - 1,
                root@.len() == i + 1,
                root@[0] == 1u8,
                forall|k: int| 1 <= k < root@.len() ==> #[trigger] root@[k] == 0u8,
            decreases INDEX_RECORD_SIZE - 1 - i,
        {
            root.push(0u8);
            i = i + 1;
        }
        assert(root@ =~= fresh_root());
        proof {
            pool.lemma_wf();
            assert forall|k: int| 0 <= k < SIZE implies #[trigger] read_block(c, 2)[k] == 0 by {
                if 2 * SIZE + k < c.len() {
                    assert(c[2 * SIZE + k] == 0);
                }
            }
            lemma_fresh_walk(pool.view(), pool.initial(), disk.view(), file_name@, INDEX_RECORD_SIZE as int);
        }
        let root_copy = root.clone();
        assert(root_copy@ =~= root@);
        let uuid = item_handler.insert_item(pool, disk, root_copy);
        let ghost p0 = page@;
        write_be_u32(&mut page, 0, uuid);
        write_be_u32(&mut page, 4, 0u32);
        proof {
            crate::bytes::lemma_be_u32_bytes(uuid);
            assert(page@ =~= index_header(p0, uuid));
        }
        disk_handler.flush_page(disk, 0, page);
        let node = Node { node_type: NodeType::Root, parent_uuid: 0, uuid, content: IndexRecord { data: root } };
        BPlusTree { root: node, free_page: 0, item_handler }
    }

    /// Opens the index file `file_name`: reads the root's uuid and the first free
    /// page from the header page, and loads the root item through the pool.
    pub fn open_index(file_name: &str, pool: &mut BufferPool, disk: &Disk) -> (r: BPlusTree)
        requires
            old(pool).wf(),
            old(pool).pool_size() >= 1,
            disk.wf(),
            disk.view().dom().contains(file_name@),
            ({
                let p = read_block(disk.view()[file_name@], 1);
                let root_uuid = be_u32_at(p, 0) as u32;
                &&& get_ok(old(pool).view(), disk.view(), file_name@, root_uuid, 0)
                &&& find_in_page(page_for_uuid(old(pool).view(), disk.view(), file_name@, root_uuid, 0), root_uuid) is Some
            }),
        ensures
            final(pool).wf(),
            final(pool).pool_size() == old(pool).pool_size(),
            ({
                let p = read_block(disk.view()[file_name@], 1);
                let root_uuid = be_u32_at(p, 0) as u32;
                &&& r.file_name() == file_name@
                &&& r.handler_free_page() == 0
                &&& r.free_page() == be_u32_at(p, 4)
                &&& r.root_view().node_type is Root
                &&& r.root_view().parent_uuid == 0
                &&& r.root_view().uuid == root_uuid
                &&& Some(r.root_view().data) == find_in_page(page_for_uuid(old(pool).view(), disk.view(), file_name@, root_uuid, 0), root_uuid)
                &&& final(pool).view() == slots_after_get(old(pool).view(), old(pool).initial(), disk.view(), file_name@, root_uuid, 0)
                &&& final(pool).initial() == initial_after_get(old(pool).view(), old(pool).initial(), file_name@, root_uuid)
            }),
    {
        let disk_handler = DiskManager::get_file(disk, file_name);
        let page = disk_handler.get_page(disk, 0);
        let mut item_handler = ItemManager::new_item_handler(file_name.to_owned(), 0);
        let root_uuid = read_be_u32(&page, 0);
        let free_page = read_be_u32(&page, 4);
        let root = item_handler.get_item_by_uuid(pool, disk, root_uuid).unwrap();
        let node = Node { node_type: NodeType::Root, parent_uuid: 0, uuid: root_uuid, content: IndexRecord { data: root } };
        BPlusTree { root: node, free_page, item_handler }
    }
}

/// Opening an index right after `create_index` made it: the header page gives
/// the root's uuid and first free page 0, and the root's item is found through
/// the pool as `create_index` left it, holding the new root's record; so
/// `open_index` can be called and gives the root that `create_index` gave.
pub proof fn law_open_after_create_index(
    s: Seq<BufferView>,
    init: Seq<bool>,
    files: Map<Seq<char>, Seq<u8>>,
    name: Seq<char>,
    size: u32,
    c: Seq<u8>,
    salt: u16,
)
    requires
        s.len() >= 1,
        forall|i: int| 0 <= i < s.len() ==> (#[trigger] s[i]).data.len() == SIZE,
        shared_agree(s, init),
        no_page_of(s, name),
        !files.dom().contains(name),
        is_new_file(c, size),
    ensures
        ({
            let uuid = make_uuid(0, salt);
            let s2 = slots_after_insert(s, init, files.insert(name, c), name, 0, fresh_root(), salt);
            let f2 = files.insert(name, write_block(c, 1, index_header(read_block(c, 1), uuid)));
            let p = read_block(f2[name], 1);
            &&& be_u32_at(p, 0) == uuid
            &&& be_u32_at(p, 4) == 0
            &&& get_ok(s2, f2, name, uuid, 0)
            &&& find_in_page(page_for_uuid(s2, f2, name, uuid, 0), uuid) == Some(fresh_root())
        }),
{
    let files1 = files.insert(name, c);
    let uuid = make_uuid(0, salt);
    let hdr = index_header(read_block(c, 1), uuid);
    let f2 = files.insert(name, write_block(c, 1, hdr));
    assert forall|k: int| 0 <= k < SIZE implies #[trigger] read_block(files1[name], 2)[k] == 0 by {
        if 2 * SIZE + k < c.len() {
            assert(c[2 * SIZE + k] == 0);
        }
    }
    lemma_fresh_walk(s, init, files1, name, INDEX_RECORD_SIZE as int);
    assert(!cached(s, name, 1)) by {
        if cached(s, name, 1) {
            let w = choose|w: int| 0 <= w < s.len() && #[trigger] holds(s[w], name, 1);
            assert(s[w].file_name != name);
        }
    }
    let page = seen_page(s, files1, name, 1);
    assert(page == read_block(c, 2));
    assert(page[0] == 0 && page[1] == 0 && page[2] == 0 && page[3] == 0);
    assert(!is_formatted(page));
    lemma_judged(page, 0);
    let sw = walk_end(s, init, files1, name, 0).0;
    crate::buffer_pool::lemma_lru_next_sizes(s, name, 1, read_block(files1[name], 2));
    assert(sw[sw.len() - 1].data == judged(page, 0));
    assert(!has_uuid(items_of(judged(page, 0)), make_uuid(0, salt)));
    assert(insert_is_readable(s, init, files1, name, 0, INDEX_RECORD_SIZE as int, salt));
    assert(fresh_root().len() == INDEX_RECORD_SIZE);
    law_get_after_insert(s, init, files1, name, 0, fresh_root(), salt);
    law_uuid_names_its_page(0, salt);
    assert(read_block(hdr, 0).len() == SIZE);
    law_write_keeps_other_blocks(c, 1, hdr, 2);
    law_read_after_write(c, 1, hdr);
    let s2 = slots_after_insert(s, init, files1, name, 0, fresh_root(), salt);
    assert(seen_page(s2, f2, name, 1) == seen_page(s2, files1, name, 1));
    assert(page_for_uuid(s2, f2, name, uuid, 0) == page_for_uuid(s2, files1, name, uuid, 0));
    crate::bytes::lemma_be_u32_bytes(uuid);
    let p = read_block(f2[name], 1);
    assert(p == hdr);
    assert(p[0] == be_u32_bytes(uuid)[0] && p[1] == be_u32_bytes(uuid)[1]);
    assert(p[2] == be_u32_bytes(uuid)[2] && p[3] == be_u32_bytes(uuid)[3]);
    assert(p[4] == 0 && p[5] == 0 && p[6] == 0 && p[7] == 0);
}

proof fn lemma_search_fuel(
    s: Seq<BufferView>,
    init: Seq<bool>,
    files: Map<Seq<char>, Seq<u8>>,
    name: Seq<char>,
    free_page: u32,
    n: NodeView,
    key: u32,
    f1: nat,
    f2: nat,
)
    requires
        search_ok(s, init, files, name, free_page, n, key, f1),
        search_ok(s, init, files, name, free_page, n, key, f2),
    ensures
        search_from(s, init, files, name, free_page, n, key, f1) == search_from(s, init, files, name, free_page, n, key, f2),
    decreases f1, 1nat,
{
    if known(n.node_type) {
        let keys = node_keys(n);
        let i = stop_index(keys, key, n.node_type is Leaf, 0);
        if !(i < keys.len() && keys[i] == key && n.node_type is Leaf) {
            lemma_descend_fuel(s, init, files, name, free_page, n, i, key, f1, f2);
        }
    }
}

proof fn lemma_descend_fuel(
    s: Seq<BufferView>,
    init: Seq<bool>,
    files: Map<Seq<char>, Seq<u8>>,
    name: Seq<char>,
    free_page: u32,
    n: NodeView,
    index: int,
    key: u32,
    f1: nat,
    f2: nat,
)
    requires
        descend_ok(s, init, files, name, free_page, n, index, key, f1),
        descend_ok(s, init, files, name, free_page, n, index, key, f2),
    ensures
        descend_from(s, init, files, name, free_page, n, index, key, f1) == descend_from(
            s,
            init,
            files,
            name,
            free_page,
            n,
            index,
            key,
            f2,
        ),
    decreases f1, 0nat,
{
    match n.node_type {
        NodeType::Internal | NodeType::Root => {
            let children = children_of(n.data, entry_count(n.data));
            if 0 <= index < children.len() {
                let c = children[index] as u32;
                lemma_search_fuel(
                    slots_after_get(s, init, files, name, c, free_page),
                    initial_after_get(s, init, name, c),
                    files,
                    name,
                    free_page,
                    loaded_node(s, files, name, c, free_page),
                    key,
                    (f1 - 1) as nat,
                    (f2 - 1) as nat,
                );
            }
        },
        _ => {},
    }
}

/// Where a search can be made with `fuel` levels, `search_outcome` is what it
/// comes to with them.
pub proof fn lemma_search_outcome(
    s: Seq<BufferView>,
    init: Seq<bool>,
    files: Map<Seq<char>, Seq<u8>>,
    name: Seq<char>,
    free_page: u32,
    n: NodeView,
    key: u32,
    fuel: nat,
)
    requires
        search_ok(s, init, files, name, free_page, n, key, fuel),
    ensures
        searchable(s, init, files, name, free_page, n, key),
        search_outcome(s, init, files, name, free_page, n, key) == search_from(s, init, files, name, free_page, n, key, fuel),
{
    let f = choose|f: nat| search_ok(s, init, files, name, free_page, n, key, f);
    lemma_search_fuel(s, init, files, name, free_page, n, key, f, fuel);
}

proof fn lemma_judge_keeps_pool(
    s: Seq<BufferView>,
    init: Seq<bool>,
    files: Map<Seq<char>, Seq<u8>>,
    name: Seq<char>,
    page_id: u32,
    free_page: u32,
)
    requires
        s.len() >= 1,
        forall|i: int| 0 <= i < s.len() ==> (#[trigger] s[i]).data.len() == SIZE,
        shared_agree(s, init),
        judgeable(seen_page(s, files, name, page_id)),
    ensures
        ({
            let s1 = slots_after_judge(s, init, files, name, page_id, free_page);
            &&& s1.len() == s.len()
            &&& forall|i: int| 0 <= i < s1.len() ==> (#[trigger] s1[i]).data.len() == SIZE
            &&& shared_agree(s1, lru_next_initial(s, init, name, page_id))
        }),
{
    let page = read_block(files[name], page_id + 1);
    crate::buffer_pool::lemma_lru_next_sizes(s, name, page_id, page);
    crate::buffer_pool::lemma_lru_next_agree(s, init, name, page_id, page);
    let s0 = crate::buffer_pool::lru_next(s, name, page_id, page);
    let i0 = lru_next_initial(s, init, name, page_id);
    lemma_judged(seen_page(s, files, name, page_id), free_page);
    let b = BufferView { data: judged(seen_page(s, files, name, page_id), free_page), ..s0.last() };
    crate::buffer_pool::lemma_write_slot_sizes(s0, i0, s0.len() - 1, b);
    crate::buffer_pool::lemma_write_slot_agree(s0, i0, s0.len() - 1, b);
}

/// A search after an insert finds the pair, for a root whose search for the key
/// goes straight to a leaf without the key: `insert` stores the pair in that leaf,
/// and the next search from the same root, through the pool as the insert left
/// it, finds it, where the leaf's item is the only one with its uuid on its page
/// (and lies above the page's directory) and the leaf's entries before the place
/// the search stops at are live.
pub proof fn law_search_after_insert(
    s: Seq<BufferView>,
    init: Seq<bool>,
    files: Map<Seq<char>, Seq<u8>>,
    name: Seq<char>,
    free_page: u32,
    root: NodeView,
    key: u32,
    value: u32,
)
    requires
        s.len() >= 1,
        forall|i: int| 0 <= i < s.len() ==> (#[trigger] s[i]).data.len() == SIZE,
        shared_agree(s, init),
        search_ok(s, init, files, name, free_page, root, key, 1),
        !(root.node_type is Leaf),
        ({
            let (s1, i1, res) = search_from(s, init, files, name, free_page, root, key, 1);
            &&& res matches Ok((leaf, None))
            &&& insert_ok(s, init, files, name, free_page, root, key, value, 0)
            &&& (res matches Ok((leaf, None)) ==> {
                let keys = node_keys(leaf);
                let i = stop_index(keys, key, true, 0);
                &&& sole_item_above_directory(page_for_uuid(s1, files, name, leaf.uuid, free_page), leaf.uuid)
                &&& forall|j: int| 0 <= j < i ==> !#[trigger] deleted_at(leaf.data, j)
            })
        }),
    ensures
        insertable(s, init, files, name, free_page, root, key, value),
        ({
            let (s3, i3, r) = insert_outcome(s, init, files, name, free_page, root, key, value);
            &&& r == Ok::<(), Error>(())
            &&& searchable(s3, i3, files, name, free_page, root, key)
            &&& search_outcome(s3, i3, files, name, free_page, root, key).2 matches Ok((_, Some(kv))) && kv == (key, value)
        }),
{
    lemma_search_outcome(s, init, files, name, free_page, root, key, 1);
    let (s1, i1, res) = search_from(s, init, files, name, free_page, root, key, 1);
    let leaf = res->Ok_0.0;
    let keys = node_keys(root);
    let j = stop_index(keys, key, false, 0);
    let children = children_of(root.data, entry_count(root.data));
    assert(0 <= j < children.len());
    let c = children[j] as u32;
    let leaf0 = loaded_node(s, files, name, c, free_page);
    let sg = slots_after_get(s, init, files, name, c, free_page);
    let ig = initial_after_get(s, init, name, c);
    assert(search_from(sg, ig, files, name, free_page, leaf0, key, 0) == (s1, i1, res));
    assert(leaf0.node_type is Leaf);
    assert(leaf == leaf0);
    assert(s1 == sg && i1 == ig);
    assert(leaf.uuid == c);
    assert(insertable(s, init, files, name, free_page, root, key, value));
    let depth = choose|depth: nat| insert_ok(s, init, files, name, free_page, root, key, value, depth);
    assert(entry_count(leaf.data) < M);
    let new = with_pair(leaf.data, key, value);
    lemma_with_pair_bytes(leaf.data, key, value);
    lemma_judge_keeps_pool(s, init, files, name, (uuid_page(c) + 1) as u32, free_page);
    law_get_after_update(s1, i1, files, name, free_page, c, new);
    let s3 = slots_after_update(s1, i1, files, name, c, free_page, new);
    let i3 = lru_next_initial(s1, i1, name, (uuid_page(c) + 1) as u32);
    assert(insert_outcome(s, init, files, name, free_page, root, key, value) == (s3, i3, Ok::<(), Error>(())));
    let leaf2 = loaded_node(s3, files, name, c, free_page);
    assert(new[0] == leaf.data[0]);
    assert(new[1] == leaf.data[1] && new[2] == leaf.data[2] && new[3] == leaf.data[3] && new[4] == leaf.data[4]);
    assert(leaf2 == NodeView { data: new, ..leaf });
    law_leaf_search_finds_stored_pair(
        slots_after_get(s3, i3, files, name, c, free_page),
        initial_after_get(s3, i3, name, c),
        files,
        name,
        free_page,
        leaf,
        key,
        value,
        0,
    );
    assert(search_ok(s3, i3, files, name, free_page, root, key, 1));
    lemma_search_outcome(s3, i3, files, name, free_page, root, key, 1);
}

/// Opening an index later: where, since `create_index`, the file's header page
/// was not rewritten and the pool still shows the page of the root's item as it
/// was (cached, or written back and read again), `open_index` can be called and
/// gives the root that `create_index` gave, with first free page 0.
pub proof fn law_open_index_later(
    s: Seq<BufferView>,
    init: Seq<bool>,
    files: Map<Seq<char>, Seq<u8>>,
    name: Seq<char>,
    size: u32,
    c: Seq<u8>,
    salt: u16,
    later: Seq<BufferView>,
    later_files: Map<Seq<char>, Seq<u8>>,
)
    requires
        s.len() >= 1,
        forall|i: int| 0 <= i < s.len() ==> (#[trigger] s[i]).data.len() == SIZE,
        shared_agree(s, init),
        no_page_of(s, name),
        !files.dom().contains(name),
        is_new_file(c, size),
        ({
            let uuid = make_uuid(0, salt);
            let s2 = slots_after_insert(s, init, files.insert(name, c), name, 0, fresh_root(), salt);
            let f2 = files.insert(name, write_block(c, 1, index_header(read_block(c, 1), uuid)));
            &&& later_files.dom().contains(name)
            &&& read_block(later_files[name], 1) == read_block(f2[name], 1)
            &&& loadable(later, later_files, name, 1)
            &&& seen_page(later, later_files, name, 1) == seen_page(s2, f2, name, 1)
        }),
    ensures
        ({
            let uuid = make_uuid(0, salt);
            let p = read_block(later_files[name], 1);
            &&& be_u32_at(p, 0) == uuid
            &&& be_u32_at(p, 4) == 0
            &&& get_ok(later, later_files, name, uuid, 0)
            &&& find_in_page(page_for_uuid(later, later_files, name, uuid, 0), uuid) == Some(fresh_root())
        }),
{
    law_open_after_create_index(s, init, files, name, size, c, salt);
    law_uuid_names_its_page(0, salt);
}

proof fn lemma_with_pair_moved_byte(d: Seq<u8>, key: u32, value: u32, p: int)
    requires
        d.len() >= INDEX_RECORD_SIZE,
        1 <= entry_count(d) < M,
        index_pos(stop_index(keys_of(d, entry_count(d) - 1), key, true, 0) + 1) <= p < index_pos(entry_count(d) + 1),
    ensures
        with_pair(d, key, value)[p] == d[p - INDEX_INFO_SIZE],
{
    let c = entry_count(d);
    let keys = keys_of(d, c - 1);
    lemma_stop_index_bounds(keys, key, true, 0);
    let i = stop_index(keys, key, true, 0);
    let moved = Seq::new(
        d.len(),
        |j: int| if index_pos(i + 1) <= j < index_pos(c + 1) { d[j - INDEX_INFO_SIZE] } else { d[j] },
    );
    let at = index_pos(i);
    let e1 = put_u32(moved, at, 0);
    let e2 = put_u32(e1, at + 4, key);
    let e3 = put_u32(e2, at + 8, value);
    let e4 = e3.update(at + 12, 0u8);
    assert(moved[p] == d[p - INDEX_INFO_SIZE]);
    assert(e1[p] == moved[p]);
    assert(e2[p] == e1[p]);
    assert(e3[p] == e2[p]);
    assert(e4[p] == e3[p]);
    assert(with_pair(d, key, value) == put_u32(e4, INDEX_NUMBER_OFFSET as int, (c + 1) as u32));
}

/// Storing a pair in a leaf record keeps every entry it held: the entries before
/// the place where the search for the key stops stay where they were, the entries
/// from there on move up by one entry, each with its key, value and deleted mark,
/// the new pair takes that place, live, and the entry count grows by one.
pub proof fn law_stored_pair_keeps_entries(d: Seq<u8>, key: u32, value: u32)
    requires
        d.len() >= INDEX_RECORD_SIZE,
        1 <= entry_count(d) < M,
    ensures
        ({
            let c = entry_count(d);
            let i = stop_index(keys_of(d, c - 1), key, true, 0);
            let e = with_pair(d, key, value);
            &&& e.len() == d.len()
            &&& entry_count(e) == c + 1
            &&& 0 <= i < c
            &&& key_at(e, i) == key
            &&& value_at(e, i) == value
            &&& !deleted_at(e, i)
            &&& forall|j: int|
                0 <= j < i ==> key_at(e, j) == #[trigger] key_at(d, j) && value_at(e, j) == value_at(d, j) && deleted_at(
                    e,
                    j,
                ) == deleted_at(d, j)
            &&& forall|j: int|
                i <= j < c ==> key_at(e, j + 1) == #[trigger] key_at(d, j) && value_at(e, j + 1) == value_at(d, j)
                    && deleted_at(e, j + 1) == deleted_at(d, j)
        }),
{
    let c = entry_count(d);
    let keys = keys_of(d, c - 1);
    lemma_stop_index_bounds(keys, key, true, 0);
    let i = stop_index(keys, key, true, 0);
    let e = with_pair(d, key, value);
    lemma_with_pair_bytes(d, key, value);
    assert forall|j: int| 0 <= j < i implies key_at(e, j) == #[trigger] key_at(d, j) && value_at(e, j) == value_at(d, j)
        && deleted_at(e, j) == deleted_at(d, j) by {
        let p = index_pos(j) + 4;
        assert(e[p] == d[p] && e[p + 1] == d[p + 1] && e[p + 2] == d[p + 2] && e[p + 3] == d[p + 3]);
        assert(e[p + 4] == d[p + 4] && e[p + 5] == d[p + 5] && e[p + 6] == d[p + 6] && e[p + 7] == d[p + 7]);
        assert(e[p + 8] == d[p + 8]);
    }
    assert forall|j: int| i <= j < c implies key_at(e, j + 1) == #[trigger] key_at(d, j) && value_at(e, j + 1) == value_at(
        d,
        j,
    ) && deleted_at(e, j + 1) == deleted_at(d, j) by {
        let q = index_pos(j + 1) + 4;
        lemma_with_pair_moved_byte(d, key, value, q + 0);
        lemma_with_pair_moved_byte(d, key, value, q + 1);
        lemma_with_pair_moved_byte(d, key, value, q + 2);
        lemma_with_pair_moved_byte(d, key, value, q + 3);
        lemma_with_pair_moved_byte(d, key, value, q + 4);
        lemma_with_pair_moved_byte(d, key, value, q + 5);
        lemma_with_pair_moved_byte(d, key, value, q + 6);
        lemma_with_pair_moved_byte(d, key, value, q + 7);
        lemma_with_pair_moved_byte(d, key, value, q + 8);
        assert(e[q] == d[q - 13] && e[q + 1] == d[q - 12] && e[q + 2] == d[q - 11] && e[q + 3] == d[q - 10]);
        assert(e[q + 4] == d[q - 9] && e[q + 5] == d[q - 8] && e[q + 6] == d[q - 7] && e[q + 7] == d[q - 6]);
        assert(e[q + 8] == d[q - 5]);
    }
}

/// An inner node is searched the same way whether it is the root or an internal
/// node below it: where the search does not stop in it, it goes on into the child
/// at the place it stopped, for both kinds alike.
pub proof fn law_internal_searched_as_root(
    s: Seq<BufferView>,
    init: Seq<bool>,
    files: Map<Seq<char>, Seq<u8>>,
    name: Seq<char>,
    free_page: u32,
    n: NodeView,
    key: u32,
    fuel: nat,
)
    requires
        n.node_type is Internal,
    ensures
        ({
            let r = NodeView { node_type: NodeType::Root, ..n };
            &&& search_from(s, init, files, name, free_page, n, key, fuel) == search_from(
                s,
                init,
                files,
                name,
                free_page,
                r,
                key,
                fuel,
            )
            &&& search_ok(s, init, files, name, free_page, n, key, fuel) == search_ok(
                s,
                init,
                files,
                name,
                free_page,
                r,
                key,
                fuel,
            )
        }),
{
}

/// A search that does not stop in an inner node (root or internal) goes on into
/// the child named at the place it stopped, with one level fewer: it never ends in
/// an inner node without looking below it.
pub proof fn law_search_goes_below_inner_nodes(
    s: Seq<BufferView>,
    init: Seq<bool>,
    files: Map<Seq<char>, Seq<u8>>,
    name: Seq<char>,
    free_page: u32,
    n: NodeView,
    key: u32,
    fuel: nat,
)
    requires
        n.node_type is Internal || n.node_type is Root,
        fuel > 0,
        0 <= stop_index(node_keys(n), key, false, 0) < children_of(n.data, entry_count(n.data)).len(),
    ensures
        ({
            let c = children_of(n.data, entry_count(n.data))[stop_index(node_keys(n), key, false, 0)] as u32;
            search_from(s, init, files, name, free_page, n, key, fuel) == search_from(
                slots_after_get(s, init, files, name, c, free_page),
                initial_after_get(s, init, name, c),
                files,
                name,
                free_page,
                loaded_node(s, files, name, c, free_page),
                key,
                (fuel - 1) as nat,
            )
        }),
{
}

} // verus!
