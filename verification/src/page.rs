//! Slotted data pages holding variable-length items.
//!
//! Layout of a page of `SIZE` bytes, all numbers big-endian:
//! bytes 0..4 the page mark `IS_PAGE`, 4..8 the page number, 8..10 the number of
//! items, 10..12 the free size, then one 8-byte directory entry per item (offset
//! `u16`, uuid `u32`, size `u16`). An item's bytes are `offset - size .. offset`;
//! items are laid out from the end of the page downwards.
use vstd::prelude::*;
use crate::bytes::{be_u16_at, be_u32_at, be_u16_bytes, be_u32_bytes, read_be_u16, read_be_u32, write_be_u16, write_be_u32, lemma_be_u16_bytes, lemma_be_u32_bytes};
use crate::disk::{Disk, SIZE, PAGE_ID_LIMIT, read_block};
use crate::buffer_pool::{BufferPool, BufferView, lru_next, lru_next_initial, write_slot, cached, holds, last_holding, after_make_dirty, shared_agree, lemma_lru_next_sizes, lemma_write_slot_sizes, lemma_lru_next_agree, lemma_write_slot_agree, lemma_make_dirty_keeps};
use rand::Rng;

verus! {

/// The mark at the start of every formatted page.
pub const IS_PAGE: u32 = 1034800;

/// Bytes before the first directory entry.
pub const PAGE_HEADER_SIZE: usize = 12;

/// Bytes of one directory entry.
pub const ITEM_INFO_SIZE: usize = 8;

/// Free size of a freshly formatted page.
pub const EMPTY_FREE_SIZE: u16 = 4084;

/// A page whose free size is below this (a fifth of the page, rounded down) is full.
pub const FULL_FREE_SIZE: u16 = 819;

struct PageHeader {
    is_page: u32,
    page_number: u32,
    record_number: u16,
    free_size: u16,
}

/// One directory entry: where an item ends, its uuid and its size.
#[derive(Clone, Copy)]
pub struct ItemInfo {
    pub offset: u16,
    pub uuid: u32,
    pub size: u16,
}

/// A page's header and directory.
pub struct PageInfo {
    page_header: PageHeader,
    pub item_map: Vec<ItemInfo>,
}

/// Whether the page starts with the page mark.
pub open spec fn is_formatted(p: Seq<u8>) -> bool {
    be_u32_at(p, 0) == IS_PAGE
}

/// The page number field.
pub open spec fn page_number_of(p: Seq<u8>) -> int {
    be_u32_at(p, 4)
}

/// The item count field.
pub open spec fn record_count(p: Seq<u8>) -> int {
    be_u16_at(p, 8)
}

/// The free size field.
pub open spec fn free_size_of(p: Seq<u8>) -> int {
    be_u16_at(p, 10)
}

/// Where directory entry `i` starts.
pub open spec fn entry_pos(i: int) -> int {
    PAGE_HEADER_SIZE + ITEM_INFO_SIZE * i
}

/// Directory entry `i` of the page.
pub open spec fn entry_at(p: Seq<u8>, i: int) -> ItemInfo {
    ItemInfo {
        offset: be_u16_at(p, entry_pos(i)) as u16,
        uuid: be_u32_at(p, entry_pos(i) + 2) as u32,
        size: be_u16_at(p, entry_pos(i) + 6) as u16,
    }
}

/// The first `n` directory entries.
pub open spec fn directory(p: Seq<u8>, n: int) -> Seq<ItemInfo> {
    Seq::new(n as nat, |i: int| entry_at(p, i))
}

/// The page's directory, as its item count gives it.
pub open spec fn items_of(p: Seq<u8>) -> Seq<ItemInfo> {
    directory(p, record_count(p))
}

/// The 12 header bytes of a freshly formatted page numbered `page_number`.
pub open spec fn fresh_header(page_number: u32) -> Seq<u8> {
    be_u32_bytes(IS_PAGE) + be_u32_bytes(page_number) + be_u16_bytes(0) + be_u16_bytes(EMPTY_FREE_SIZE)
}

/// The page as `judge_page` leaves it: a formatted page stays as it is; any other
/// page gets a fresh header numbered `page_number` (the rest stays as it is).
pub open spec fn judged(p: Seq<u8>, page_number: u32) -> Seq<u8> {
    if is_formatted(p) {
        p
    } else {
        Seq::new(p.len(), |k: int| if k < PAGE_HEADER_SIZE { fresh_header(page_number)[k] } else { p[k] })
    }
}

/// Whether `judge_page` can read the page: the directory of a formatted page
/// must lie within it.
pub open spec fn judgeable(p: Seq<u8>) -> bool {
    p.len() == SIZE && (is_formatted(p) ==> entry_pos(record_count(p)) <= SIZE)
}

/// The bytes of an item.
pub open spec fn item_bytes(p: Seq<u8>, e: ItemInfo) -> Seq<u8> {
    p.subrange(e.offset - e.size, e.offset as int)
}

/// Whether an item's bytes lie within the page.
pub open spec fn item_in_bounds(e: ItemInfo) -> bool {
    e.size <= e.offset && e.offset <= SIZE
}

pub proof fn lemma_judged(p: Seq<u8>, page_number: u32)
    requires
        judgeable(p),
    ensures
        judged(p, page_number).len() == SIZE,
        is_formatted(judged(p, page_number)),
        judgeable(judged(p, page_number)),
        !is_formatted(p) ==> {
            &&& page_number_of(judged(p, page_number)) == page_number
            &&& record_count(judged(p, page_number)) == 0
            &&& free_size_of(judged(p, page_number)) == EMPTY_FREE_SIZE
        },
{
    if !is_formatted(p) {
        let q = judged(p, page_number);
        let h = fresh_header(page_number);
        lemma_be_u32_bytes(IS_PAGE);
        lemma_be_u32_bytes(page_number);
        lemma_be_u16_bytes(0);
        lemma_be_u16_bytes(EMPTY_FREE_SIZE);
        assert(h.subrange(0, 4) =~= be_u32_bytes(IS_PAGE));
        assert(h.subrange(4, 8) =~= be_u32_bytes(page_number));
        assert(h.subrange(8, 10) =~= be_u16_bytes(0));
        assert(h.subrange(10, 12) =~= be_u16_bytes(EMPTY_FREE_SIZE));
        assert(q[0] == h[0] && q[1] == h[1] && q[2] == h[2] && q[3] == h[3]);
        assert(q[4] == h[4] && q[5] == h[5] && q[6] == h[6] && q[7] == h[7]);
        assert(q[8] == h[8] && q[9] == h[9] && q[10] == h[10] && q[11] == h[11]);
    }
}

impl PageInfo {
    pub closed spec fn is_page(&self) -> u32 {
        self.page_header.is_page
    }

    pub closed spec fn page_number(&self) -> u32 {
        self.page_header.page_number
    }

    pub closed spec fn record_number(&self) -> u16 {
        self.page_header.record_number
    }

    pub closed spec fn free_size(&self) -> u16 {
        self.page_header.free_size
    }

    /// Whether this is the header and directory of page `p`.
    pub open spec fn describes(&self, p: Seq<u8>) -> bool {
        &&& self.is_page() == be_u32_at(p, 0)
        &&& self.page_number() == page_number_of(p)
        &&& self.record_number() == record_count(p)
        &&& self.free_size() == free_size_of(p)
        &&& self.items() == items_of(p)
    }

    /// The directory entries.
    pub closed spec fn items(&self) -> Seq<ItemInfo> {
        self.item_map@
    }

    /// Where the next directory entry goes.
    pub fn cal_offset(&self) -> (r: usize)
        requires
            self.items().len() * ITEM_INFO_SIZE + PAGE_HEADER_SIZE <= usize::MAX,
        ensures
            r == entry_pos(self.items().len() as int),
    {
        let number = self.item_map.len();
        number * 8 + 12
    }
}

/// Reads and writes items of the data pages of one file.
pub struct ItemHandler {
    pub file_name: String,
    pub free_page: u32,
}

/// Makes item handlers.
pub struct ItemManager {}

impl ItemManager {
    /// A handler for the pages of `file_name`, starting from page `size`.
    pub fn new_item_handler(file_name: String, size: u32) -> (r: ItemHandler)
        ensures
            r.file_name@ == file_name@,
            r.free_page == size,
    {
        ItemHandler { file_name, free_page: size }
    }
}

impl ItemHandler {
    /// Reads the header and directory of the page; a page without the page mark is
    /// first given a fresh header numbered `free_page`.
    fn judge_page(&self, page: &mut Vec<u8>) -> (r: Option<PageInfo>)
        requires
            judgeable(old(page)@),
        ensures
            final(page)@ == judged(old(page)@, self.free_page),
            r matches Some(info) && info.describes(final(page)@),
    {
        proof {
            lemma_judged(old(page)@, self.free_page);
        }
        let is_page = read_be_u32(page, 0);
        if is_page == IS_PAGE {
            let page_number = read_be_u32(page, 4);
            let record_number = read_be_u16(page, 8);
            let free_size = read_be_u16(page, 10);
            let mut records: Vec<ItemInfo> = Vec::new();
            let mut start: usize = 12;
            let mut index: u16 = 0;
            while index < record_number
                invariant
                    judgeable(page@),
                    is_formatted(page@),
                    record_number == record_count(page@),
                    index <= record_number,
                    start == entry_pos(index as int),
                    records@ == directory(page@, index as int),
                decreases record_number - index,
            {
                let offset = read_be_u16(page, start);
                start += 2;
                let uuid = read_be_u32(page, start);
                start += 4;
                let size = read_be_u16(page, start);
                start += 2;
                records.push(ItemInfo { offset, uuid, size });
                proof {
                    assert(records@ =~= directory(page@, index + 1));
                }
                index += 1;
            }
            let page_header = PageHeader { is_page, page_number, record_number, free_size };
            Some(PageInfo { page_header, item_map: records })
        } else {
            let ghost old_page = page@;
            let page_header = PageHeader {
                is_page: IS_PAGE,
                page_number: self.free_page,
                record_number: 0,
                free_size: 4084,
            };
            write_be_u32(page, 0, IS_PAGE);
            write_be_u32(page, 4, self.free_page);
            write_be_u16(page, 8, page_header.record_number);
            write_be_u16(page, 10, page_header.free_size);
            proof {
                let h = fresh_header(self.free_page);
                lemma_be_u32_bytes(IS_PAGE);
                lemma_be_u32_bytes(self.free_page);
                lemma_be_u16_bytes(0);
                lemma_be_u16_bytes(EMPTY_FREE_SIZE);
                assert(page@ =~= judged(old_page, self.free_page));
                assert(items_of(page@) =~= Seq::<ItemInfo>::empty());
            }
            Some(PageInfo { page_header, item_map: Vec::new() })
        }
    }
}

/// The page that an LRU access of page `page_id` of `name` finds: the buffered
/// copy on a hit, what the file holds on a miss.
pub open spec fn seen_page(s: Seq<BufferView>, files: Map<Seq<char>, Seq<u8>>, name: Seq<char>, page_id: u32) -> Seq<u8> {
    if cached(s, name, page_id) {
        s[last_holding(s, name, page_id)].data
    } else {
        read_block(files[name], page_id + 1)
    }
}

/// Whether an LRU access of the page can be made: on a miss the file must exist
/// and the page id must be in range.
pub open spec fn loadable(s: Seq<BufferView>, files: Map<Seq<char>, Seq<u8>>, name: Seq<char>, page_id: u32) -> bool {
    !cached(s, name, page_id) ==> files.dom().contains(name) && page_id < PAGE_ID_LIMIT
}

/// The slots after loading page `page_id` of `name` through the LRU pool and
/// judging it in its slot with `page_number` as the number of a fresh page.
pub open spec fn slots_after_judge(
    s: Seq<BufferView>,
    init: Seq<bool>,
    files: Map<Seq<char>, Seq<u8>>,
    name: Seq<char>,
    page_id: u32,
    page_number: u32,
) -> Seq<BufferView> {
    let s1 = lru_next(s, name, page_id, read_block(files[name], page_id + 1));
    let i1 = lru_next_initial(s, init, name, page_id);
    let b = s1.last();
    write_slot(s1, i1, s1.len() - 1, BufferView { data: judged(seen_page(s, files, name, page_id), page_number), ..b })
}

/// The first directory entry with this uuid.
pub open spec fn first_with_uuid(items: Seq<ItemInfo>, uuid: u32) -> int {
    choose|i: int| 0 <= i < items.len() && (#[trigger] items[i]).uuid == uuid && forall|j: int|
        0 <= j < i ==> (#[trigger] items[j]).uuid != uuid
}

pub open spec fn has_uuid(items: Seq<ItemInfo>, uuid: u32) -> bool {
    exists|i: int| 0 <= i < items.len() && (#[trigger] items[i]).uuid == uuid
}

/// What a lookup of `uuid` in page `p` gives: the bytes of the first item with
/// that uuid.
#[verifier::opaque]
pub open spec fn find_in_page(p: Seq<u8>, uuid: u32) -> Option<Seq<u8>> {
    if has_uuid(items_of(p), uuid) {
        Some(item_bytes(p, items_of(p)[first_with_uuid(items_of(p), uuid)]))
    } else {
        None
    }
}

/// Whether a lookup of `uuid` in page `p` can be made: the first item with that
/// uuid, if any, lies within the page.
#[verifier::opaque]
pub open spec fn lookup_ok(p: Seq<u8>, uuid: u32) -> bool {
    has_uuid(items_of(p), uuid) ==> item_in_bounds(items_of(p)[first_with_uuid(items_of(p), uuid)])
}

/// The page that holds items with this uuid.
pub open spec fn uuid_page(uuid: u32) -> u32 {
    (uuid / 65536) as u32
}

/// A uuid made for a page below 65536 names that page in its upper sixteen bits
/// and carries the salt in its lower sixteen.
pub proof fn law_uuid_names_its_page(page: u32, salt: u16)
    requires
        page < 65536,
    ensures
        uuid_page(make_uuid(page, salt)) == page,
        make_uuid(page, salt) % 65536 == salt,
{
    assert(uuid_page(make_uuid(page, salt)) == page && make_uuid(page, salt) % 65536 == salt) by (nonlinear_arith)
        requires
            page < 65536,
    ;
}

proof fn lemma_seen_page(s: Seq<BufferView>, files: Map<Seq<char>, Seq<u8>>, name: Seq<char>, page_id: u32)
    requires
        s.len() >= 1,
        forall|i: int| 0 <= i < s.len() ==> (#[trigger] s[i]).data.len() == SIZE,
    ensures
        lru_next(s, name, page_id, read_block(files[name], page_id + 1)).last().data == seen_page(s, files, name, page_id),
        holds(lru_next(s, name, page_id, read_block(files[name], page_id + 1)).last(), name, page_id),
        lru_next(s, name, page_id, read_block(files[name], page_id + 1)).len() == s.len(),
        seen_page(s, files, name, page_id).len() == SIZE,
{
    reveal(lru_next);
    if cached(s, name, page_id) {
        crate::buffer_pool::lemma_holding(s, name, page_id);
    }
}

/// Asks `rand`'s thread-local generator (`rand::thread_rng().gen::<u16>()`) for a
/// number. Nothing is stated of it: it is chance.
#[verifier::external_body]
fn random_u16() -> (r: u16) {
    rand::thread_rng().gen::<u16>()
}

impl ItemHandler {
    /// Loads page `p_id` into the last slot of the LRU pool, judges it there, and
    /// returns its header and directory with a copy of the judged page.
    fn load_and_judge(&self, pool: &mut BufferPool, disk: &Disk, p_id: u32) -> (r: (PageInfo, Vec<u8>))
        requires
            old(pool).wf(),
            old(pool).pool_size() >= 1,
            disk.wf(),
            loadable(old(pool).view(), disk.view(), self.file_name@, p_id),
            judgeable(seen_page(old(pool).view(), disk.view(), self.file_name@, p_id)),
        ensures
            final(pool).wf(),
            final(pool).pool_size() == old(pool).pool_size(),
            final(pool).view() == slots_after_judge(
                old(pool).view(),
                old(pool).initial(),
                disk.view(),
                self.file_name@,
                p_id,
                self.free_page,
            ),
            final(pool).initial() == lru_next_initial(old(pool).view(), old(pool).initial(), self.file_name@, p_id),
            r.1@ == judged(seen_page(old(pool).view(), disk.view(), self.file_name@, p_id), self.free_page),
            r.0.describes(r.1@),
            final(pool).view().last().data == r.1@,
    {
        proof {
            old(pool).lemma_wf();
            lemma_seen_page(old(pool).view(), disk.view(), self.file_name@, p_id);
        }
        let page = pool.get_page_lru(disk, self.file_name.as_str(), p_id);
        let mut b = page.buffer;
        let info = self.judge_page(&mut b.buffer).unwrap();
        let data = b.buffer.clone();
        assert(data@ =~= b.buffer@);
        proof {
            lemma_judged(seen_page(old(pool).view(), disk.view(), self.file_name@, p_id), self.free_page);
            pool.lemma_wf();
        }
        let last = pool.slots() - 1;
        pool.write_slot(last, b);
        proof {
            let s1 = pool.view();
            assert(s1.last().data == data@) by {
                assert(s1[last as int] == s1.last());
            }
        }
        (info, data)
    }

    /// The items of data page `page_id` (block `page_id + 2` of the file), in
    /// directory order; the page is loaded through the LRU pool and judged in its
    /// slot first.
    pub fn get_items_by_page(&mut self, pool: &mut BufferPool, disk: &Disk, page_id: u32) -> (r: Vec<Vec<u8>>)
        requires
            old(pool).wf(),
            old(pool).pool_size() >= 1,
            disk.wf(),
            page_id < u32::MAX,
            loadable(old(pool).view(), disk.view(), old(self).file_name@, (page_id + 1) as u32),
            judgeable(seen_page(old(pool).view(), disk.view(), old(self).file_name@, (page_id + 1) as u32)),
            ({
                let p = judged(
                    seen_page(old(pool).view(), disk.view(), old(self).file_name@, (page_id + 1) as u32),
                    old(self).free_page,
                );
                forall|i: int| 0 <= i < items_of(p).len() ==> item_in_bounds(#[trigger] items_of(p)[i])
            }),
        ensures
            *final(self) == *old(self),
            final(pool).wf(),
            final(pool).pool_size() == old(pool).pool_size(),
            final(pool).view() == slots_after_judge(
                old(pool).view(),
                old(pool).initial(),
                disk.view(),
                old(self).file_name@,
                (page_id + 1) as u32,
                old(self).free_page,
            ),
            final(pool).initial() == lru_next_initial(
                old(pool).view(),
                old(pool).initial(),
                old(self).file_name@,
                (page_id + 1) as u32,
            ),
            ({
                let p = judged(
                    seen_page(old(pool).view(), disk.view(), old(self).file_name@, (page_id + 1) as u32),
                    old(self).free_page,
                );
                &&& r@.len() == items_of(p).len()
                &&& forall|i: int| 0 <= i < r@.len() ==> (#[trigger] r@[i])@ == item_bytes(p, items_of(p)[i])
            }),
    {
        let p_id = page_id + 1;
        let (page_info, buffer) = self.load_and_judge(pool, disk, p_id);
        collect_items(&page_info, &buffer)
    }

    /// The bytes of the first item with this uuid on page `uuid / 65536`, if any;
    /// the page is loaded through the LRU pool and judged in its slot first.
    pub fn get_item_by_uuid(&mut self, pool: &mut BufferPool, disk: &Disk, uuid: u32) -> (r: Option<Vec<u8>>)
        requires
            old(pool).wf(),
            old(pool).pool_size() >= 1,
            disk.wf(),
            loadable(old(pool).view(), disk.view(), old(self).file_name@, (uuid_page(uuid) + 1) as u32),
            judgeable(seen_page(old(pool).view(), disk.view(), old(self).file_name@, (uuid_page(uuid) + 1) as u32)),
            lookup_ok(
                judged(
                    seen_page(old(pool).view(), disk.view(), old(self).file_name@, (uuid_page(uuid) + 1) as u32),
                    old(self).free_page,
                ),
                uuid,
            ),
        ensures
            *final(self) == *old(self),
            final(pool).wf(),
            final(pool).pool_size() == old(pool).pool_size(),
            final(pool).view() == slots_after_judge(
                old(pool).view(),
                old(pool).initial(),
                disk.view(),
                old(self).file_name@,
                (uuid_page(uuid) + 1) as u32,
                old(self).free_page,
            ),
            final(pool).initial() == lru_next_initial(
                old(pool).view(),
                old(pool).initial(),
                old(self).file_name@,
                (uuid_page(uuid) + 1) as u32,
            ),
            ({
                let p = judged(
                    seen_page(old(pool).view(), disk.view(), old(self).file_name@, (uuid_page(uuid) + 1) as u32),
                    old(self).free_page,
                );
                match r {
                    Some(v) => find_in_page(p, uuid) == Some(v@),
                    None => find_in_page(p, uuid) is None,
                }
            }),
    {
        let page_id = uuid >> 16;
        assert(page_id == uuid_page(uuid)) by (bit_vector)
            requires
                page_id == uuid >> 16,
        ;
        let p_id = page_id + 1;
        let (page_info, buffer) = self.load_and_judge(pool, disk, p_id);
        find_item(&page_info, &buffer, uuid)
    }
}

/// The bytes of all the page's items, in directory order.
fn collect_items(page_info: &PageInfo, buffer: &Vec<u8>) -> (r: Vec<Vec<u8>>)
    requires
        page_info.describes(buffer@),
        forall|i: int| 0 <= i < items_of(buffer@).len() ==> item_in_bounds(#[trigger] items_of(buffer@)[i]),
        buffer@.len() == SIZE,
    ensures
        r@.len() == items_of(buffer@).len(),
        forall|i: int| 0 <= i < r@.len() ==> (#[trigger] r@[i])@ == item_bytes(buffer@, items_of(buffer@)[i]),
{
    let ghost p = buffer@;
    let mut vec: Vec<Vec<u8>> = Vec::new();
    let mut n: usize = 0;
    while n < page_info.item_map.len()
        invariant
            p == buffer@,
            p.len() == SIZE,
            page_info.item_map@ == items_of(p),
            forall|i: int| 0 <= i < items_of(p).len() ==> item_in_bounds(#[trigger] items_of(p)[i]),
            n <= page_info.item_map.len(),
            vec@.len() == n,
            forall|i: int| 0 <= i < n ==> (#[trigger] vec@[i])@ == item_bytes(p, items_of(p)[i]),
        decreases page_info.item_map.len() - n,
    {
        let item_info = page_info.item_map[n];
        assert(item_in_bounds(items_of(p)[n as int]));
        let v = copy_range(buffer, item_info.offset as usize - item_info.size as usize, item_info.offset as usize);
        vec.push(v);
        n = n + 1;
    }
    vec
}

/// The bytes of the page's first item with this uuid, if any.
fn find_item(page_info: &PageInfo, buffer: &Vec<u8>, uuid: u32) -> (r: Option<Vec<u8>>)
    requires
        page_info.describes(buffer@),
        buffer@.len() == SIZE,
        lookup_ok(buffer@, uuid),
    ensures
        match r {
            Some(v) => find_in_page(buffer@, uuid) == Some(v@),
            None => find_in_page(buffer@, uuid) is None,
        },
{
    reveal(lookup_ok);
    reveal(find_in_page);
    let ghost p = buffer@;
    let ghost items = items_of(p);
    let mut n: usize = 0;
    while n < page_info.item_map.len()
        invariant
            p == buffer@,
            p.len() == SIZE,
            items == items_of(p),
            page_info.item_map@ == items,
            has_uuid(items, uuid) ==> item_in_bounds(items[first_with_uuid(items, uuid)]),
            n <= page_info.item_map.len(),
            forall|i: int| 0 <= i < n ==> (#[trigger] items[i]).uuid != uuid,
        decreases page_info.item_map.len() - n,
    {
        let item = page_info.item_map[n];
        if item.uuid == uuid {
            proof {
                reveal(find_in_page);
                reveal(lookup_ok);
                assert(has_uuid(items, uuid));
                let c = first_with_uuid(items, uuid);
                if c > n {
                    assert(items[n as int].uuid != uuid);
                }
                assert(c == n);
            }
            let v = copy_range(buffer, item.offset as usize - item.size as usize, item.offset as usize);
            return Some(v);
        }
        n = n + 1;
    }
    None
}

/// A copy of `buf[start..end]`.
pub(crate) fn copy_range(buf: &Vec<u8>, start: usize, end: usize) -> (r: Vec<u8>)
    requires
        start <= end <= buf.len(),
    ensures
        r@ == buf@.subrange(start as int, end as int),
{
    let mut v: Vec<u8> = Vec::new();
    let mut index = start;
    while index < end
        invariant
            start <= index <= end <= buf.len(),
            v@ == buf@.subrange(start as int, index as int),
        decreases end - index,
    {
        v.push(buf[index]);
        index = index + 1;
        assert(v@ =~= buf@.subrange(start as int, index as int));
    }
    v
}

/// Whether the judged page (numbered `page_number` if fresh) is full.
pub open spec fn judged_full(p: Seq<u8>, page_number: u32) -> bool {
    free_size_of(judged(p, page_number)) < FULL_FREE_SIZE
}

/// Whether the search for a page with room, starting at data page
/// `free_page`, can be made: each page it visits can be loaded and judged, and the
/// page number never passes `u32::MAX`.
pub open spec fn walk_ok(
    s: Seq<BufferView>,
    init: Seq<bool>,
    files: Map<Seq<char>, Seq<u8>>,
    name: Seq<char>,
    free_page: u32,
) -> bool
    decreases u32::MAX - free_page,
{
    let p_id = (free_page + 1) as u32;
    &&& free_page < u32::MAX
    &&& loadable(s, files, name, p_id)
    &&& judgeable(seen_page(s, files, name, p_id))
    &&& (judged_full(seen_page(s, files, name, p_id), free_page) ==> walk_ok(
        slots_after_judge(s, init, files, name, p_id, free_page),
        lru_next_initial(s, init, name, p_id),
        files,
        name,
        p_id,
    ))
}

/// Where the search for a page with room ends: the slots and their initial marks
/// then, and the data page found (its page id is one more).
#[verifier::opaque]
pub open spec fn walk_end(
    s: Seq<BufferView>,
    init: Seq<bool>,
    files: Map<Seq<char>, Seq<u8>>,
    name: Seq<char>,
    free_page: u32,
) -> (Seq<BufferView>, Seq<bool>, u32)
    decreases u32::MAX - free_page,
{
    let p_id = (free_page + 1) as u32;
    let s1 = slots_after_judge(s, init, files, name, p_id, free_page);
    let i1 = lru_next_initial(s, init, name, p_id);
    if free_page < u32::MAX && judged_full(seen_page(s, files, name, p_id), free_page) {
        walk_end(s1, i1, files, name, p_id)
    } else {
        (s1, i1, free_page)
    }
}

/// Where a new item ends: the end of the page, or where the last item starts.
pub open spec fn item_end(p: Seq<u8>) -> int {
    if record_count(p) == 0 {
        SIZE as int
    } else {
        let e = entry_at(p, record_count(p) - 1);
        e.offset - e.size
    }
}

/// Whether an item of `len` bytes can be put into the formatted page `p`: the
/// arithmetic of the header and directory neither underflows nor overflows and
/// the new directory entry lies within the page.
pub open spec fn insertable(p: Seq<u8>, len: int) -> bool {
    let n = record_count(p);
    &&& p.len() == SIZE
    &&& is_formatted(p)
    &&& entry_pos(n) + ITEM_INFO_SIZE <= SIZE
    &&& (n > 0 ==> entry_at(p, n - 1).size <= entry_at(p, n - 1).offset)
    &&& len <= item_end(p)
    &&& (len > 0 ==> item_end(p) <= SIZE)
    &&& len <= free_size_of(p)
}

/// The uuid of an item put on data page `page`: the page number in the upper 16
/// bits (shifted out bits dropped) and `salt` in the lower 16.
pub open spec fn make_uuid(page: u32, salt: u16) -> u32 {
    ((page as int * 65536) % 4294967296 + salt) as u32
}

/// Page `p` after putting `item` into it under `uuid`: the item's bytes just below
/// the last item, a new directory entry, and the item count and free size updated.
#[verifier::opaque]
pub open spec fn inserted(p: Seq<u8>, item: Seq<u8>, uuid: u32) -> Seq<u8> {
    let n = record_count(p);
    let end = item_end(p);
    let start = end - item.len();
    let h = entry_pos(n);
    Seq::new(
        p.len(),
        |k: int|
            if 10 <= k < 12 {
                be_u16_bytes((free_size_of(p) - item.len()) as u16)[k - 10]
            } else if 8 <= k < 10 {
                be_u16_bytes((n + 1) as u16)[k - 8]
            } else if h <= k < h + 2 {
                be_u16_bytes(end as u16)[k - h]
            } else if h + 2 <= k < h + 6 {
                be_u32_bytes(uuid)[k - h - 2]
            } else if h + 6 <= k < h + 8 {
                be_u16_bytes(item.len() as u16)[k - h - 6]
            } else if start <= k < end {
                item[k - start]
            } else {
                p[k]
            },
    )
}

/// The slots after `insert_item`: the search's end state, the found page's
/// predecessor page marked dirty, and the item put into the page in the last slot.
#[verifier::opaque]
pub open spec fn slots_after_insert(
    s: Seq<BufferView>,
    init: Seq<bool>,
    files: Map<Seq<char>, Seq<u8>>,
    name: Seq<char>,
    free_page: u32,
    item: Seq<u8>,
    salt: u16,
) -> Seq<BufferView> {
    let (sw, iw, f) = walk_end(s, init, files, name, free_page);
    let sd = after_make_dirty(sw, iw, name, f);
    write_slot(sd, iw, sd.len() - 1, BufferView { data: inserted(sw.last().data, item, make_uuid(f, salt)), ..sd.last() })
}

/// One step of the search keeps the number of slots and the page size, and
/// leaves the judged page in the last slot.
#[verifier::rlimit(80)]
proof fn lemma_step(
    s: Seq<BufferView>,
    init: Seq<bool>,
    files: Map<Seq<char>, Seq<u8>>,
    name: Seq<char>,
    p_id: u32,
    page_number: u32,
)
    requires
        s.len() >= 1,
        forall|i: int| 0 <= i < s.len() ==> (#[trigger] s[i]).data.len() == SIZE,
        judgeable(seen_page(s, files, name, p_id)),
        shared_agree(s, init),
    ensures
        ({
            let s1 = slots_after_judge(s, init, files, name, p_id, page_number);
            &&& s1.len() == s.len()
            &&& forall|i: int| 0 <= i < s.len() ==> (#[trigger] s1[i]).data.len() == SIZE
            &&& s1.last().data == judged(seen_page(s, files, name, p_id), page_number)
            &&& holds(s1.last(), name, p_id)
            &&& shared_agree(s1, lru_next_initial(s, init, name, p_id))
        }),
{
    lemma_seen_page(s, files, name, p_id);
    let page = seen_page(s, files, name, p_id);
    lemma_judged(page, page_number);
    let sl = lru_next(s, name, p_id, read_block(files[name], p_id + 1));
    lemma_lru_next_sizes(s, name, p_id, read_block(files[name], p_id + 1));
    let b = BufferView { data: judged(page, page_number), ..sl.last() };
    let i1 = lru_next_initial(s, init, name, p_id);
    lemma_write_slot_sizes(sl, i1, sl.len() - 1, b);
    let s1 = write_slot(sl, i1, sl.len() - 1, b);
    assert(s1[s1.len() - 1] == b);
    lemma_lru_next_agree(s, init, name, p_id, read_block(files[name], p_id + 1));
    lemma_write_slot_agree(sl, i1, sl.len() - 1, b);
}

proof fn lemma_walk_unfold(
    s: Seq<BufferView>,
    init: Seq<bool>,
    files: Map<Seq<char>, Seq<u8>>,
    name: Seq<char>,
    free_page: u32,
)
    requires
        walk_ok(s, init, files, name, free_page),
    ensures
        ({
            let p_id = (free_page + 1) as u32;
            let s1 = slots_after_judge(s, init, files, name, p_id, free_page);
            let i1 = lru_next_initial(s, init, name, p_id);
            &&& free_page < u32::MAX
            &&& loadable(s, files, name, p_id)
            &&& judgeable(seen_page(s, files, name, p_id))
            &&& judged_full(seen_page(s, files, name, p_id), free_page) ==> {
                &&& walk_ok(s1, i1, files, name, p_id)
                &&& walk_end(s, init, files, name, free_page) == walk_end(s1, i1, files, name, p_id)
            }
            &&& !judged_full(seen_page(s, files, name, p_id), free_page) ==> walk_end(s, init, files, name, free_page)
                == (s1, i1, free_page)
        }),
{
    reveal(walk_ok);
    reveal(walk_end);
}

proof fn lemma_walk(
    s: Seq<BufferView>,
    init: Seq<bool>,
    files: Map<Seq<char>, Seq<u8>>,
    name: Seq<char>,
    free_page: u32,
)
    requires
        walk_ok(s, init, files, name, free_page),
        s.len() >= 1,
        forall|i: int| 0 <= i < s.len() ==> (#[trigger] s[i]).data.len() == SIZE,
        shared_agree(s, init),
    ensures
        ({
            let (sw, iw, f) = walk_end(s, init, files, name, free_page);
            &&& sw.len() == s.len()
            &&& forall|i: int| 0 <= i < s.len() ==> (#[trigger] sw[i]).data.len() == SIZE
            &&& shared_agree(sw, iw)
            &&& holds(sw.last(), name, (f + 1) as u32)
            &&& f < u32::MAX
            &&& is_formatted(sw.last().data)
            &&& judgeable(sw.last().data)
            &&& !(free_size_of(sw.last().data) < FULL_FREE_SIZE)
        }),
    decreases u32::MAX - free_page,
{
    reveal(walk_ok);
    reveal(walk_end);
    let p_id = (free_page + 1) as u32;
    let page = seen_page(s, files, name, p_id);
    lemma_step(s, init, files, name, p_id, free_page);
    lemma_judged(page, free_page);
    let s1 = slots_after_judge(s, init, files, name, p_id, free_page);
    let i1 = lru_next_initial(s, init, name, p_id);
    if judged_full(page, free_page) {
        lemma_walk(s1, i1, files, name, p_id);
    }
}

proof fn lemma_inserted(p: Seq<u8>, item: Seq<u8>, uuid: u32, b0: Seq<u8>, b3: Seq<u8>, b5: Seq<u8>)
    requires
        insertable(p, item.len() as int),
        b0.len() == SIZE,
        forall|k: int| 0 <= k < SIZE && !(item_end(p) - item.len() <= k < item_end(p)) ==> #[trigger] b0[k] == p[k],
        forall|k: int| item_end(p) - item.len() <= k < item_end(p) ==> #[trigger] b0[k] == item[k - (item_end(p) - item.len())],
        ({
            let h = entry_pos(record_count(p));
            let end = item_end(p) as u16;
            let len = item.len() as u16;
            b3 == b0.update(h, (end / 256) as u8).update(h + 1, (end % 256) as u8).update(h + 2, (uuid / 16777216) as u8).update(
                h + 3,
                ((uuid / 65536) % 256) as u8,
            ).update(h + 4, ((uuid / 256) % 256) as u8).update(h + 5, (uuid % 256) as u8).update(
                h + 6,
                (len / 256) as u8,
            ).update(h + 7, (len % 256) as u8)
        }),
        ({
            let n1 = (record_count(p) + 1) as u16;
            let fr = (free_size_of(p) - item.len()) as u16;
            b5 == b3.update(8, (n1 / 256) as u8).update(9, (n1 % 256) as u8).update(10, (fr / 256) as u8).update(
                11,
                (fr % 256) as u8,
            )
        }),
    ensures
        b5 == inserted(p, item, uuid),
{
    reveal(inserted);
    let t = inserted(p, item, uuid);
    assert(b5.len() == t.len());
    assert forall|k: int| 0 <= k < b5.len() implies b5[k] == #[trigger] t[k] by {
    }
    assert(b5 =~= t);
}

impl ItemHandler {
    /// Looks for a data page with room, from page `free_page` on: each page is
    /// loaded through the LRU pool and judged in its slot; a full one moves
    /// `free_page` on. Then marks dirty the buffer of page `free_page`, and returns
    /// the found page's header and directory with a copy of it.
    fn find_free_page(&mut self, pool: &mut BufferPool, disk: &Disk) -> (r: (PageInfo, Vec<u8>))
        requires
            old(pool).wf(),
            old(pool).pool_size() >= 1,
            disk.wf(),
            walk_ok(old(pool).view(), old(pool).initial(), disk.view(), old(self).file_name@, old(self).free_page),
        ensures
            ({
                let (sw, iw, f) = walk_end(
                    old(pool).view(),
                    old(pool).initial(),
                    disk.view(),
                    old(self).file_name@,
                    old(self).free_page,
                );
                &&& final(self).free_page == f
                &&& final(self).file_name == old(self).file_name
                &&& final(pool).wf()
                &&& final(pool).pool_size() == old(pool).pool_size()
                &&& final(pool).view() == after_make_dirty(sw, iw, old(self).file_name@, f)
                &&& final(pool).initial() == iw
                &&& r.1@ == sw.last().data
                &&& r.0.describes(r.1@)
                &&& final(pool).view().last().data == r.1@
            }),
    {
        let ghost name = self.file_name@;
        let ghost target = walk_end(old(pool).view(), old(pool).initial(), disk.view(), name, old(self).free_page);
        loop
            invariant
                pool.wf(),
                pool.pool_size() >= 1,
                pool.pool_size() == old(pool).pool_size(),
                disk.wf(),
                self.file_name == old(self).file_name,
                name == self.file_name@,
                walk_ok(pool.view(), pool.initial(), disk.view(), name, self.free_page),
                walk_end(pool.view(), pool.initial(), disk.view(), name, self.free_page) == target,
                target == walk_end(old(pool).view(), old(pool).initial(), disk.view(), old(self).file_name@, old(self).free_page),
                name == old(self).file_name@,
            decreases u32::MAX - self.free_page,
        {
            let ghost s = pool.view();
            let ghost init = pool.initial();
            let ghost fp = self.free_page;
            proof {
                lemma_walk_unfold(s, init, disk.view(), name, fp);
            }
            let p_id = self.free_page + 1;
            let (page_info, data) = self.load_and_judge(pool, disk, p_id);
            let ghost s1 = pool.view();
            let ghost i1 = pool.initial();
            assert(page_info.free_size() == free_size_of(data@));
            assert(data@ == judged(seen_page(s, disk.view(), name, p_id), fp));
            if page_info.page_header.free_size < 819 {
                assert(judged_full(seen_page(s, disk.view(), name, p_id), fp));
                self.free_page += 1;
            } else {
                proof {
                    assert(!judged_full(seen_page(s, disk.view(), name, p_id), fp));
                    assert(s1 == slots_after_judge(s, init, disk.view(), name, p_id, fp));
                    assert(walk_end(s, init, disk.view(), name, fp) == (s1, i1, fp));
                    assert(target == (s1, i1, fp));
                    pool.lemma_wf();
                    assert(pool.view().last().data == data@);
                }
                pool.make_dirty(self.file_name.as_str(), self.free_page);
                proof {
                    pool.lemma_wf();
                    assert(pool.view()[pool.view().len() - 1].data == data@);
                }
                return (page_info, data);
            }
        }
    }

    /// Puts `item` into the first data page with room, from page `free_page` on,
    /// under the uuid `make_uuid(page, salt)`, and returns the uuid; see
    /// `slots_after_insert` for what becomes of the pool.
    pub fn insert_item_with(&mut self, pool: &mut BufferPool, disk: &Disk, item: Vec<u8>, salt: u16) -> (r: u32)
        requires
            old(pool).wf(),
            old(pool).pool_size() >= 1,
            disk.wf(),
            walk_ok(old(pool).view(), old(pool).initial(), disk.view(), old(self).file_name@, old(self).free_page),
            insertable(
                walk_end(old(pool).view(), old(pool).initial(), disk.view(), old(self).file_name@, old(self).free_page).0.last().data,
                item@.len() as int,
            ),
        ensures
            ({
                let (sw, iw, f) = walk_end(
                    old(pool).view(),
                    old(pool).initial(),
                    disk.view(),
                    old(self).file_name@,
                    old(self).free_page,
                );
                &&& final(self).free_page == f
                &&& final(self).file_name == old(self).file_name
                &&& r == make_uuid(f, salt)
                &&& final(pool).wf()
                &&& final(pool).pool_size() == old(pool).pool_size()
                &&& final(pool).initial() == iw
                &&& final(pool).view() == slots_after_insert(
                    old(pool).view(),
                    old(pool).initial(),
                    disk.view(),
                    old(self).file_name@,
                    old(self).free_page,
                    item@,
                    salt,
                )
            }),
    {
        proof {
            reveal(slots_after_insert);
        }
        let (page_info, mut buffer) = self.find_free_page(pool, disk);
        let ghost p = buffer@;
        let ghost n = record_count(p);
        let mut offset: usize = SIZE;
        if page_info.item_map.len() > 0 {
            let last_item = page_info.item_map[page_info.item_map.len() - 1];
            offset = (last_item.offset - last_item.size) as usize;
        }
        assert(offset == item_end(p));
        let fp = self.free_page;
        assert((fp << 16) as u64 + salt as u64 <= 0xffff_ffff) by (bit_vector);
        let uuid = (fp << 16) + salt as u32;
        assert(uuid == make_uuid(fp, salt)) by (bit_vector)
            requires
                uuid == (fp << 16) + salt as u32,
        ;
        let start = offset - item.len();
        let mut i: usize = 0;
        while i < item.len()
            invariant
                start + item.len() == offset,
                item.len() > 0 ==> offset <= SIZE,
                buffer@.len() == SIZE,
                i <= item.len(),
                forall|k: int| 0 <= k < SIZE && !(start <= k < start + i) ==> #[trigger] buffer@[k] == p[k],
                forall|k: int| start <= k < start + i ==> #[trigger] buffer@[k] == item@[k - start],
            decreases item.len() - i,
        {
            buffer.set(start + i, item[i]);
            i = i + 1;
        }
        let ghost b0 = buffer@;
        let head_offset = page_info.cal_offset();
        let record_number = page_info.page_header.record_number + 1;
        let free_size = page_info.page_header.free_size - item.len() as u16;
        write_be_u16(&mut buffer, head_offset, offset as u16);
        write_be_u32(&mut buffer, head_offset + 2, uuid);
        write_be_u16(&mut buffer, head_offset + 6, item.len() as u16);
        let ghost b3 = buffer@;
        write_be_u16(&mut buffer, 8, record_number);
        write_be_u16(&mut buffer, 10, free_size);
        proof {
            lemma_inserted(p, item@, uuid, b0, b3, buffer@);
            pool.lemma_wf();
        }
        let last = pool.slots() - 1;
        let mut b = pool.buffer_at(last);
        b.buffer = buffer;
        pool.write_slot(last, b);
        uuid
    }

    /// Puts `item` into the first data page with room, from page `free_page` on,
    /// under a uuid made of the page number and a random number from `rand`, and
    /// returns the uuid. The random number is the only thing that `insert_item_with`
    /// leaves to this function.
    pub fn insert_item(&mut self, pool: &mut BufferPool, disk: &Disk, item: Vec<u8>) -> (r: u32)
        requires
            old(pool).wf(),
            old(pool).pool_size() >= 1,
            disk.wf(),
            walk_ok(old(pool).view(), old(pool).initial(), disk.view(), old(self).file_name@, old(self).free_page),
            insertable(
                walk_end(old(pool).view(), old(pool).initial(), disk.view(), old(self).file_name@, old(self).free_page).0.last().data,
                item@.len() as int,
            ),
        ensures
            ({
                let (sw, iw, f) = walk_end(
                    old(pool).view(),
                    old(pool).initial(),
                    disk.view(),
                    old(self).file_name@,
                    old(self).free_page,
                );
                &&& final(self).free_page == f
                &&& final(self).file_name == old(self).file_name
                &&& exists|salt: u16| {
                    &&& r == make_uuid(f, salt)
                    &&& #[trigger] slots_after_insert(
                        old(pool).view(),
                        old(pool).initial(),
                        disk.view(),
                        old(self).file_name@,
                        old(self).free_page,
                        item@,
                        salt,
                    ) == final(pool).view()
                }
                &&& final(pool).wf()
                &&& final(pool).pool_size() == old(pool).pool_size()
                &&& final(pool).initial() == iw
            }),
    {
        let n16 = random_u16();
        self.insert_item_with(pool, disk, item, n16)
    }
}

proof fn lemma_first_uuid_is(items: Seq<ItemInfo>, uuid: u32, a: int)
    requires
        0 <= a < items.len(),
        items[a].uuid == uuid,
        forall|j: int| 0 <= j < a ==> (#[trigger] items[j]).uuid != uuid,
    ensures
        has_uuid(items, uuid),
        first_with_uuid(items, uuid) == a,
{
    let f = first_with_uuid(items, uuid);
    if f < a {
        assert(items[f].uuid != uuid);
    } else if f > a {
        assert(items[a].uuid != uuid);
    }
}

/// On page level: an item put into a page under a uuid that no item of the page
/// has, where the new directory entry stays below the item's bytes, is what a
/// lookup of that uuid finds.
pub proof fn lemma_find_after_inserted(p: Seq<u8>, item: Seq<u8>, uuid: u32)
    requires
        insertable(p, item.len() as int),
        item_end(p) <= SIZE,
        entry_pos(record_count(p) + 1) <= item_end(p) - item.len(),
        !has_uuid(items_of(p), uuid),
    ensures
        judgeable(inserted(p, item, uuid)),
        is_formatted(inserted(p, item, uuid)),
        find_in_page(inserted(p, item, uuid), uuid) == Some(item),
        lookup_ok(inserted(p, item, uuid), uuid),
{
    reveal(inserted);
    reveal(find_in_page);
    reveal(lookup_ok);
    let q = inserted(p, item, uuid);
    let n = record_count(p);
    let end = item_end(p);
    let start = end - item.len();
    let h = entry_pos(n);
    lemma_be_u16_bytes((n + 1) as u16);
    lemma_be_u16_bytes(end as u16);
    lemma_be_u16_bytes(item.len() as u16);
    lemma_be_u32_bytes(uuid);
    crate::bytes::lemma_be_bounds(p, 8);
    assert(q[8] == be_u16_bytes((n + 1) as u16)[0] && q[9] == be_u16_bytes((n + 1) as u16)[1]);
    assert(record_count(q) == n + 1);
    assert(q[0] == p[0] && q[1] == p[1] && q[2] == p[2] && q[3] == p[3]);
    assert(is_formatted(q));
    let items = items_of(q);
    assert forall|i: int| 0 <= i < n implies #[trigger] items[i] == entry_at(p, i) by {
        let e = entry_pos(i);
        assert(q[e] == p[e] && q[e + 1] == p[e + 1] && q[e + 2] == p[e + 2] && q[e + 3] == p[e + 3]);
        assert(q[e + 4] == p[e + 4] && q[e + 5] == p[e + 5] && q[e + 6] == p[e + 6] && q[e + 7] == p[e + 7]);
    }
    assert forall|i: int| 0 <= i < n implies (#[trigger] items[i]).uuid != uuid by {
        assert(items_of(p)[i] == entry_at(p, i));
    }
    assert(q[h] == be_u16_bytes(end as u16)[0] && q[h + 1] == be_u16_bytes(end as u16)[1]);
    assert(q[h + 2] == be_u32_bytes(uuid)[0] && q[h + 3] == be_u32_bytes(uuid)[1]);
    assert(q[h + 4] == be_u32_bytes(uuid)[2] && q[h + 5] == be_u32_bytes(uuid)[3]);
    assert(q[h + 6] == be_u16_bytes(item.len() as u16)[0] && q[h + 7] == be_u16_bytes(item.len() as u16)[1]);
    assert(items[n] == ItemInfo { offset: end as u16, uuid, size: item.len() as u16 });
    lemma_first_uuid_is(items, uuid, n);
    assert(item_bytes(q, items[n]) =~= item);
}

/// Whether the next `insert_item` (with this `salt`) puts its item where a later
/// `get_item_by_uuid` finds it: the data page it lands on is below page 65536, no
/// item there has the new uuid, the page is sane below the last item, and the new
/// directory entry stays below the new item's bytes.
pub open spec fn insert_is_readable(
    s: Seq<BufferView>,
    init: Seq<bool>,
    files: Map<Seq<char>, Seq<u8>>,
    name: Seq<char>,
    free_page: u32,
    len: int,
    salt: u16,
) -> bool {
    let (sw, iw, f) = walk_end(s, init, files, name, free_page);
    let p = sw.last().data;
    &&& f < 65536
    &&& item_end(p) <= SIZE
    &&& entry_pos(record_count(p) + 1) <= item_end(p) - len
    &&& !has_uuid(items_of(p), make_uuid(f, salt))
}

/// What a later `get_item_by_uuid(uuid)` sees, from a handler whose `free_page`
/// is `free_page`: the judged page that the LRU access of the uuid's page finds.
pub open spec fn page_for_uuid(s: Seq<BufferView>, files: Map<Seq<char>, Seq<u8>>, name: Seq<char>, uuid: u32, free_page: u32) -> Seq<u8> {
    judged(seen_page(s, files, name, (uuid_page(uuid) + 1) as u32), free_page)
}

/// Reading back what was written: after `insert_item_with` (or `insert_item`, whose
/// random number is `salt`) returned a uuid, `get_item_by_uuid` of that uuid, with
/// the pool as the insert left it, may be called and gives back the item, as long
/// as `insert_is_readable` holds (the page is sane and the uuid new on it).
pub proof fn law_get_after_insert(
    s: Seq<BufferView>,
    init: Seq<bool>,
    files: Map<Seq<char>, Seq<u8>>,
    name: Seq<char>,
    free_page: u32,
    item: Seq<u8>,
    salt: u16,
)
    requires
        s.len() >= 1,
        forall|i: int| 0 <= i < s.len() ==> (#[trigger] s[i]).data.len() == SIZE,
        shared_agree(s, init),
        walk_ok(s, init, files, name, free_page),
        insertable(walk_end(s, init, files, name, free_page).0.last().data, item.len() as int),
        insert_is_readable(s, init, files, name, free_page, item.len() as int, salt),
    ensures
        ({
            let (sw, iw, f) = walk_end(s, init, files, name, free_page);
            let s2 = slots_after_insert(s, init, files, name, free_page, item, salt);
            let uuid = make_uuid(f, salt);
            let p2 = page_for_uuid(s2, files, name, uuid, f);
            &&& loadable(s2, files, name, (uuid_page(uuid) + 1) as u32)
            &&& judgeable(seen_page(s2, files, name, (uuid_page(uuid) + 1) as u32))
            &&& lookup_ok(p2, uuid)
            &&& find_in_page(p2, uuid) == Some(item)
        }),
{
    lemma_walk(s, init, files, name, free_page);
    let (sw, iw, f) = walk_end(s, init, files, name, free_page);
    let p = sw.last().data;
    let uuid = make_uuid(f, salt);
    assert(uuid_page(uuid) == f) by (nonlinear_arith)
        requires
            uuid == make_uuid(f, salt),
            f < 65536,
    ;
    let q = inserted(p, item, uuid);
    lemma_find_after_inserted(p, item, uuid);
    lemma_judged(q, f);
    lemma_insert_slots(s, init, files, name, free_page, item, salt);
    let s2 = slots_after_insert(s, init, files, name, free_page, item, salt);
    lemma_seen_last(s2, files, name, (f + 1) as u32);
    let pid = (uuid_page(uuid) + 1) as u32;
    assert(pid == (f + 1) as u32);
    assert(seen_page(s2, files, name, pid) == q);
    assert(judged(q, f) == q);
    assert(page_for_uuid(s2, files, name, uuid, f) == q);
}

proof fn lemma_seen_last(s: Seq<BufferView>, files: Map<Seq<char>, Seq<u8>>, name: Seq<char>, page_id: u32)
    requires
        s.len() >= 1,
        holds(s.last(), name, page_id),
    ensures
        cached(s, name, page_id),
        seen_page(s, files, name, page_id) == s.last().data,
{
    let n = s.len() as int;
    assert(holds(s[n - 1], name, page_id));
    crate::buffer_pool::lemma_holding(s, name, page_id);
}

proof fn lemma_insert_slots(
    s: Seq<BufferView>,
    init: Seq<bool>,
    files: Map<Seq<char>, Seq<u8>>,
    name: Seq<char>,
    free_page: u32,
    item: Seq<u8>,
    salt: u16,
)
    requires
        s.len() >= 1,
        forall|i: int| 0 <= i < s.len() ==> (#[trigger] s[i]).data.len() == SIZE,
        shared_agree(s, init),
        walk_ok(s, init, files, name, free_page),
    ensures
        ({
            let (sw, iw, f) = walk_end(s, init, files, name, free_page);
            let s2 = slots_after_insert(s, init, files, name, free_page, item, salt);
            &&& s2.len() >= 1
            &&& holds(s2.last(), name, (f + 1) as u32)
            &&& s2.last().data == inserted(sw.last().data, item, make_uuid(f, salt))
        }),
{
    reveal(slots_after_insert);
    lemma_walk(s, init, files, name, free_page);
    let (sw, iw, f) = walk_end(s, init, files, name, free_page);
    lemma_make_dirty_keeps(sw, iw, name, f);
    let sd = after_make_dirty(sw, iw, name, f);
    let b = BufferView { data: inserted(sw.last().data, item, make_uuid(f, salt)), ..sd.last() };
    let s2 = write_slot(sd, iw, sd.len() - 1, b);
    let n = s2.len() as int;
    assert(s2[n - 1] == b);
    assert(sd[n - 1].file_name == sw[n - 1].file_name && sd[n - 1].page_id == sw[n - 1].page_id);
}

/// `q` with `new` written at `start`.
pub open spec fn splice(q: Seq<u8>, start: int, new: Seq<u8>) -> Seq<u8> {
    Seq::new(q.len(), |k: int| if start <= k < start + new.len() { new[k - start] } else { q[k] })
}

/// Page `p` after writing `new` over each of the first `n` items of `items` that
/// have this uuid, in directory order.
pub open spec fn updated(p: Seq<u8>, items: Seq<ItemInfo>, uuid: u32, new: Seq<u8>, n: int) -> Seq<u8>
    decreases n,
{
    if n <= 0 {
        p
    } else {
        let q = updated(p, items, uuid, new, n - 1);
        let e = items[n - 1];
        if e.uuid == uuid {
            splice(q, e.offset - e.size, new)
        } else {
            q
        }
    }
}

/// Whether `update_item_by_uuid(uuid, new)` can be made on page `p`: some item has
/// the uuid, and every item with it has the new item's size and lies within the
/// page.
pub open spec fn update_ok(p: Seq<u8>, uuid: u32, len: int) -> bool {
    &&& has_uuid(items_of(p), uuid)
    &&& forall|i: int|
        0 <= i < items_of(p).len() && (#[trigger] items_of(p)[i]).uuid == uuid ==> items_of(p)[i].size == len
            && item_in_bounds(items_of(p)[i])
}

proof fn lemma_updated_len(p: Seq<u8>, items: Seq<ItemInfo>, uuid: u32, new: Seq<u8>, n: int)
    ensures
        updated(p, items, uuid, new, n).len() == p.len(),
    decreases n,
{
    if n > 0 {
        lemma_updated_len(p, items, uuid, new, n - 1);
    }
}

/// Writes `new` over the bytes of the page's items with this uuid.
fn overwrite_items(page_info: &PageInfo, buffer: &mut Vec<u8>, uuid: u32, new_item: &Vec<u8>)
    requires
        page_info.describes(old(buffer)@),
        old(buffer)@.len() == SIZE,
        update_ok(old(buffer)@, uuid, new_item@.len() as int),
    ensures
        final(buffer)@ == updated(old(buffer)@, items_of(old(buffer)@), uuid, new_item@, items_of(old(buffer)@).len() as int),
{
    let ghost p = buffer@;
    let ghost items = items_of(p);
    let mut n: usize = 0;
    while n < page_info.item_map.len()
        invariant
            p.len() == SIZE,
            items == items_of(p),
            page_info.item_map@ == items,
            update_ok(p, uuid, new_item@.len() as int),
            n <= page_info.item_map.len(),
            buffer@ == updated(p, items, uuid, new_item@, n as int),
            buffer@.len() == SIZE,
        decreases page_info.item_map.len() - n,
    {
        let item = page_info.item_map[n];
        if item.uuid == uuid {
            assert(items[n as int].uuid == uuid);
            let offset = item.offset as usize;
            let size = item.size as usize;
            let start = offset - size;
            if size != new_item.len() {
                assert(false);
            }
            let ghost before = buffer@;
            let mut i: usize = 0;
            while i < size
                invariant
                    start + size == offset,
                    offset <= SIZE,
                    size == new_item@.len(),
                    buffer@.len() == SIZE,
                    before.len() == SIZE,
                    i <= size,
                    forall|k: int| 0 <= k < SIZE && !(start <= k < start + i) ==> #[trigger] buffer@[k] == before[k],
                    forall|k: int| start <= k < start + i ==> #[trigger] buffer@[k] == new_item@[k - start],
                decreases size - i,
            {
                buffer.set(i + start, new_item[i]);
                i = i + 1;
            }
            assert(buffer@ =~= splice(before, start as int, new_item@));
        }
        n = n + 1;
    }
}

impl ItemHandler {
    /// Writes `new_item` over every item with this uuid on page `uuid / 65536`
    /// (loaded through the LRU pool and judged in its slot first); the page's
    /// buffer is changed in place and is not marked dirty.
    pub fn update_item_by_uuid(&mut self, pool: &mut BufferPool, disk: &Disk, uuid: u32, new_item: Vec<u8>)
        requires
            old(pool).wf(),
            old(pool).pool_size() >= 1,
            disk.wf(),
            loadable(old(pool).view(), disk.view(), old(self).file_name@, (uuid_page(uuid) + 1) as u32),
            judgeable(seen_page(old(pool).view(), disk.view(), old(self).file_name@, (uuid_page(uuid) + 1) as u32)),
            update_ok(page_for_uuid(old(pool).view(), disk.view(), old(self).file_name@, uuid, old(self).free_page), uuid, new_item@.len() as int),
        ensures
            *final(self) == *old(self),
            final(pool).wf(),
            final(pool).pool_size() == old(pool).pool_size(),
            final(pool).initial() == lru_next_initial(
                old(pool).view(),
                old(pool).initial(),
                old(self).file_name@,
                (uuid_page(uuid) + 1) as u32,
            ),
            ({
                let s1 = slots_after_judge(
                    old(pool).view(),
                    old(pool).initial(),
                    disk.view(),
                    old(self).file_name@,
                    (uuid_page(uuid) + 1) as u32,
                    old(self).free_page,
                );
                let i1 = lru_next_initial(old(pool).view(), old(pool).initial(), old(self).file_name@, (uuid_page(uuid) + 1) as u32);
                let p = page_for_uuid(old(pool).view(), disk.view(), old(self).file_name@, uuid, old(self).free_page);
                final(pool).view() == write_slot(
                    s1,
                    i1,
                    s1.len() - 1,
                    BufferView { data: updated(p, items_of(p), uuid, new_item@, items_of(p).len() as int), ..s1.last() },
                )
            }),
    {
        let page_id = uuid >> 16;
        assert(page_id == uuid_page(uuid)) by (bit_vector)
            requires
                page_id == uuid >> 16,
        ;
        let p_id = page_id + 1;
        let (page_info, mut buffer) = self.load_and_judge(pool, disk, p_id);
        overwrite_items(&page_info, &mut buffer, uuid, &new_item);
        proof {
            pool.lemma_wf();
            lemma_updated_len(
                page_for_uuid(old(pool).view(), disk.view(), self.file_name@, uuid, self.free_page),
                items_of(page_for_uuid(old(pool).view(), disk.view(), self.file_name@, uuid, self.free_page)),
                uuid,
                new_item@,
                items_of(page_for_uuid(old(pool).view(), disk.view(), self.file_name@, uuid, self.free_page)).len() as int,
            );
        }
        let last = pool.slots() - 1;
        let mut b = pool.buffer_at(last);
        b.buffer = buffer;
        pool.write_slot(last, b);
    }
}

/// Exactly one item of the page has this uuid, and its bytes lie above the
/// directory.
pub open spec fn sole_item_above_directory(p: Seq<u8>, uuid: u32) -> bool {
    let items = items_of(p);
    let i = first_with_uuid(items, uuid);
    &&& has_uuid(items, uuid)
    &&& forall|j: int| 0 <= j < items.len() && j != i ==> (#[trigger] items[j]).uuid != uuid
    &&& entry_pos(items.len() as int) <= items[i].offset - items[i].size
}

proof fn lemma_updated_sole(p: Seq<u8>, items: Seq<ItemInfo>, uuid: u32, new: Seq<u8>, n: int, m: int)
    requires
        0 <= m < items.len(),
        n <= items.len(),
        items[m].uuid == uuid,
        forall|j: int| 0 <= j < items.len() && j != m ==> (#[trigger] items[j]).uuid != uuid,
    ensures
        updated(p, items, uuid, new, n) == if n > m { splice(p, items[m].offset - items[m].size, new) } else { p },
    decreases n,
{
    if n > 0 {
        lemma_updated_sole(p, items, uuid, new, n - 1, m);
    }
}

/// Reading back what was written: after `update_item_by_uuid(uuid, new)`, with the
/// pool as the update left it, `get_item_by_uuid(uuid)` may be called and gives
/// `new`, where exactly one item of the page has the uuid and its bytes lie above
/// the directory.
#[verifier::spinoff_prover]
pub proof fn law_get_after_update(
    s: Seq<BufferView>,
    init: Seq<bool>,
    files: Map<Seq<char>, Seq<u8>>,
    name: Seq<char>,
    free_page: u32,
    uuid: u32,
    new: Seq<u8>,
)
    requires
        s.len() >= 1,
        forall|i: int| 0 <= i < s.len() ==> (#[trigger] s[i]).data.len() == SIZE,
        shared_agree(s, init),
        loadable(s, files, name, (uuid_page(uuid) + 1) as u32),
        judgeable(seen_page(s, files, name, (uuid_page(uuid) + 1) as u32)),
        update_ok(page_for_uuid(s, files, name, uuid, free_page), uuid, new.len() as int),
        sole_item_above_directory(page_for_uuid(s, files, name, uuid, free_page), uuid),
    ensures
        ({
            let pid = (uuid_page(uuid) + 1) as u32;
            let s1 = slots_after_judge(s, init, files, name, pid, free_page);
            let i1 = lru_next_initial(s, init, name, pid);
            let p = page_for_uuid(s, files, name, uuid, free_page);
            let s2 = write_slot(
                s1,
                i1,
                s1.len() - 1,
                BufferView { data: updated(p, items_of(p), uuid, new, items_of(p).len() as int), ..s1.last() },
            );
            &&& loadable(s2, files, name, pid)
            &&& judgeable(seen_page(s2, files, name, pid))
            &&& lookup_ok(page_for_uuid(s2, files, name, uuid, free_page), uuid)
            &&& find_in_page(page_for_uuid(s2, files, name, uuid, free_page), uuid) == Some(new)
        }),
{
    let pid = (uuid_page(uuid) + 1) as u32;
    lemma_step(s, init, files, name, pid, free_page);
    let s1 = slots_after_judge(s, init, files, name, pid, free_page);
    let i1 = lru_next_initial(s, init, name, pid);
    let p = page_for_uuid(s, files, name, uuid, free_page);
    lemma_judged(seen_page(s, files, name, pid), free_page);
    let q = updated(p, items_of(p), uuid, new, items_of(p).len() as int);
    lemma_find_after_update(p, uuid, new);
    let b = BufferView { data: q, ..s1.last() };
    let s2 = write_slot(s1, i1, s1.len() - 1, b);
    assert(s2[s2.len() - 1] == b);
    lemma_seen_last(s2, files, name, pid);
    assert(judged(q, free_page) == q);
}

/// On page level: writing `new` over the sole item with `uuid`, whose bytes lie
/// above the directory, makes a lookup of `uuid` find `new`.
pub proof fn lemma_find_after_update(p: Seq<u8>, uuid: u32, new: Seq<u8>)
    requires
        p.len() == SIZE,
        is_formatted(p),
        judgeable(p),
        update_ok(p, uuid, new.len() as int),
        sole_item_above_directory(p, uuid),
    ensures
        is_formatted(updated(p, items_of(p), uuid, new, items_of(p).len() as int)),
        judgeable(updated(p, items_of(p), uuid, new, items_of(p).len() as int)),
        lookup_ok(updated(p, items_of(p), uuid, new, items_of(p).len() as int), uuid),
        find_in_page(updated(p, items_of(p), uuid, new, items_of(p).len() as int), uuid) == Some(new),
{
    reveal(find_in_page);
    reveal(lookup_ok);
    let items = items_of(p);
    let m = first_with_uuid(items, uuid);
    lemma_updated_sole(p, items, uuid, new, items.len() as int, m);
    let e = items[m];
    let start = e.offset - e.size;
    let q = splice(p, start, new);
    assert(updated(p, items, uuid, new, items.len() as int) == q);
    assert forall|k: int| 0 <= k < entry_pos(items.len() as int) implies #[trigger] q[k] == p[k] by {
    }
    assert(q[0] == p[0] && q[1] == p[1] && q[2] == p[2] && q[3] == p[3]);
    assert(q[8] == p[8] && q[9] == p[9]);
    assert(is_formatted(q));
    let items2 = items_of(q);
    assert forall|i: int| 0 <= i < items.len() implies #[trigger] items2[i] == items[i] by {
        let ep = entry_pos(i);
        assert(q[ep] == p[ep] && q[ep + 1] == p[ep + 1] && q[ep + 2] == p[ep + 2] && q[ep + 3] == p[ep + 3]);
        assert(q[ep + 4] == p[ep + 4] && q[ep + 5] == p[ep + 5] && q[ep + 6] == p[ep + 6] && q[ep + 7] == p[ep + 7]);
    }
    assert(items2 =~= items);
    assert(item_bytes(q, e) =~= new);
}

/// No slot holds a page of the file `name`.
pub open spec fn no_page_of(s: Seq<BufferView>, name: Seq<char>) -> bool {
    forall|i: int| 0 <= i < s.len() ==> (#[trigger] s[i]).file_name != name
}

/// For a file whose data page 0 is all zeros and of which no page is buffered,
/// the search for a page with room stops at once at data page 0, freshly
/// formatted, where an item of up to `EMPTY_FREE_SIZE` bytes fits.
pub proof fn lemma_fresh_walk(
    s: Seq<BufferView>,
    init: Seq<bool>,
    files: Map<Seq<char>, Seq<u8>>,
    name: Seq<char>,
    len: int,
)
    requires
        s.len() >= 1,
        forall|i: int| 0 <= i < s.len() ==> (#[trigger] s[i]).data.len() == SIZE,
        shared_agree(s, init),
        no_page_of(s, name),
        files.dom().contains(name),
        forall|k: int| 0 <= k < SIZE ==> #[trigger] read_block(files[name], 2)[k] == 0,
        0 <= len <= EMPTY_FREE_SIZE,
    ensures
        walk_ok(s, init, files, name, 0),
        walk_end(s, init, files, name, 0).2 == 0,
        insertable(walk_end(s, init, files, name, 0).0.last().data, len),
        walk_end(s, init, files, name, 0).0 == slots_after_judge(s, init, files, name, 1, 0),
        walk_end(s, init, files, name, 0).1 == lru_next_initial(s, init, name, 1),
{
    reveal(walk_ok);
    reveal(walk_end);
    let page = seen_page(s, files, name, 1);
    assert(!cached(s, name, 1)) by {
        if cached(s, name, 1) {
            let w = choose|w: int| 0 <= w < s.len() && #[trigger] holds(s[w], name, 1);
            assert(s[w].file_name != name);
        }
    }
    assert(page == read_block(files[name], 2));
    assert(page[0] == 0 && page[1] == 0 && page[2] == 0 && page[3] == 0);
    assert(!is_formatted(page));
    lemma_judged(page, 0);
    lemma_step(s, init, files, name, 1, 0);
    assert(!judged_full(page, 0));
}

/// Whether every item of page `p` lies within the page, at or above the lowest
/// item's start.
pub open spec fn items_laid(p: Seq<u8>) -> bool {
    forall|i: int|
        0 <= i < items_of(p).len() ==> {
            &&& item_end(p) <= (#[trigger] items_of(p)[i]).offset - items_of(p)[i].size
            &&& items_of(p)[i].size <= items_of(p)[i].offset <= SIZE
        }
}

/// The items of page `p` in directory order, as `get_items_by_page` lists them.
pub open spec fn listed_items(p: Seq<u8>) -> Seq<Seq<u8>> {
    Seq::new(items_of(p).len(), |i: int| item_bytes(p, items_of(p)[i]))
}

/// Whether the next insert of `item` into page `p` can be made and keeps the
/// directory below the items.
pub open spec fn insert_fits(p: Seq<u8>, len: int) -> bool {
    &&& insertable(p, len)
    &&& item_end(p) <= SIZE
    &&& entry_pos(record_count(p) + 1) <= item_end(p) - len
}

proof fn lemma_inserted_directory(p: Seq<u8>, item: Seq<u8>, uuid: u32)
    requires
        insert_fits(p, item.len() as int),
    ensures
        ({
            let q = inserted(p, item, uuid);
            &&& q.len() == SIZE
            &&& record_count(q) == record_count(p) + 1
            &&& items_of(q) == items_of(p).push(
                ItemInfo { offset: item_end(p) as u16, uuid, size: item.len() as u16 },
            )
        }),
{
    reveal(inserted);
    let q = inserted(p, item, uuid);
    let n = record_count(p);
    let end = item_end(p);
    let h = entry_pos(n);
    lemma_be_u16_bytes((n + 1) as u16);
    lemma_be_u16_bytes(end as u16);
    lemma_be_u16_bytes(item.len() as u16);
    lemma_be_u32_bytes(uuid);
    crate::bytes::lemma_be_bounds(p, 8);
    assert(q[8] == be_u16_bytes((n + 1) as u16)[0] && q[9] == be_u16_bytes((n + 1) as u16)[1]);
    assert(record_count(q) == n + 1);
    let items = items_of(q);
    let old_items = items_of(p);
    assert forall|i: int| 0 <= i < n implies #[trigger] items[i] == old_items[i] by {
        let e = entry_pos(i);
        assert(q[e] == p[e] && q[e + 1] == p[e + 1] && q[e + 2] == p[e + 2] && q[e + 3] == p[e + 3]);
        assert(q[e + 4] == p[e + 4] && q[e + 5] == p[e + 5] && q[e + 6] == p[e + 6] && q[e + 7] == p[e + 7]);
    }
    assert(q[h] == be_u16_bytes(end as u16)[0] && q[h + 1] == be_u16_bytes(end as u16)[1]);
    assert(q[h + 2] == be_u32_bytes(uuid)[0] && q[h + 3] == be_u32_bytes(uuid)[1]);
    assert(q[h + 4] == be_u32_bytes(uuid)[2] && q[h + 5] == be_u32_bytes(uuid)[3]);
    assert(q[h + 6] == be_u16_bytes(item.len() as u16)[0] && q[h + 7] == be_u16_bytes(item.len() as u16)[1]);
    let ne = ItemInfo { offset: end as u16, uuid, size: item.len() as u16 };
    assert(items[n] == ne);
    assert(items =~= old_items.push(ne));
}

proof fn lemma_inserted_bytes(p: Seq<u8>, item: Seq<u8>, uuid: u32, e: ItemInfo)
    requires
        insert_fits(p, item.len() as int),
        item_end(p) <= e.offset - e.size,
        e.size <= e.offset <= SIZE,
    ensures
        item_bytes(inserted(p, item, uuid), e) == item_bytes(p, e),
{
    reveal(inserted);
    let q = inserted(p, item, uuid);
    assert(item_bytes(q, e) =~= item_bytes(p, e));
}

proof fn lemma_inserted_new_bytes(p: Seq<u8>, item: Seq<u8>, uuid: u32)
    requires
        insert_fits(p, item.len() as int),
    ensures
        item_bytes(
            inserted(p, item, uuid),
            ItemInfo { offset: item_end(p) as u16, uuid, size: item.len() as u16 },
        ) == item,
{
    reveal(inserted);
    let q = inserted(p, item, uuid);
    assert(item_bytes(q, ItemInfo { offset: item_end(p) as u16, uuid, size: item.len() as u16 }) =~= item);
}

proof fn lemma_inserted_listed(p: Seq<u8>, item: Seq<u8>, uuid: u32)
    requires
        insert_fits(p, item.len() as int),
        items_laid(p),
    ensures
        ({
            let q = inserted(p, item, uuid);
            &&& items_laid(q)
            &&& item_end(q) == item_end(p) - item.len()
            &&& listed_items(q) == listed_items(p).push(item)
        }),
{
    let q = inserted(p, item, uuid);
    let n = record_count(p);
    let end = item_end(p);
    lemma_inserted_directory(p, item, uuid);
    let items = items_of(q);
    let old_items = items_of(p);
    let ne = ItemInfo { offset: end as u16, uuid, size: item.len() as u16 };
    assert(items[n] == ne);
    assert(item_end(q) == end - item.len());
    lemma_inserted_new_bytes(p, item, uuid);
    assert(listed_items(q) =~= listed_items(p).push(item)) by {
        assert forall|i: int| 0 <= i < n + 1 implies #[trigger] listed_items(q)[i] == listed_items(p).push(item)[i] by {
            if i < n {
                assert(items[i] == old_items[i]);
                lemma_inserted_bytes(p, item, uuid, old_items[i]);
            }
        }
    }
    assert(items_laid(q)) by {
        assert forall|i: int| 0 <= i < items_of(q).len() implies {
            &&& item_end(q) <= (#[trigger] items_of(q)[i]).offset - items_of(q)[i].size
            &&& items_of(q)[i].size <= items_of(q)[i].offset <= SIZE
        } by {
            if i < n {
                assert(items[i] == old_items[i]);
            }
        }
    }
}

proof fn lemma_first_push(old: Seq<ItemInfo>, ne: ItemInfo, v: u32)
    ensures
        has_uuid(old.push(ne), v) == (has_uuid(old, v) || ne.uuid == v),
        has_uuid(old, v) ==> first_with_uuid(old.push(ne), v) == first_with_uuid(old, v)
            && 0 <= first_with_uuid(old, v) < old.len(),
        !has_uuid(old, v) && ne.uuid == v ==> first_with_uuid(old.push(ne), v) == old.len(),
{
    let items = old.push(ne);
    let n = old.len() as int;
    if has_uuid(old, v) {
        let w = choose|w: int| 0 <= w < old.len() && (#[trigger] old[w]).uuid == v;
        let f = first_with_uuid(old, v);
        lemma_bottom_uuid(old, v, 0);
        assert(items[f] == old[f]);
        assert forall|j: int| 0 <= j < f implies (#[trigger] items[j]).uuid != v by {
            assert(items[j] == old[j]);
        }
        lemma_first_uuid_is(items, v, f);
    } else if ne.uuid == v {
        assert forall|j: int| 0 <= j < n implies (#[trigger] items[j]).uuid != v by {
            assert(items[j] == old[j]);
        }
        lemma_first_uuid_is(items, v, n);
    } else {
        assert forall|i: int| 0 <= i < items.len() implies (#[trigger] items[i]).uuid != v by {
            if i < n {
                assert(items[i] == old[i]);
            }
        }
    }
}

proof fn lemma_bottom_uuid(items: Seq<ItemInfo>, v: u32, k: int)
    requires
        0 <= k <= items.len(),
        exists|w: int| k <= w < items.len() && (#[trigger] items[w]).uuid == v,
        forall|j: int| 0 <= j < k ==> (#[trigger] items[j]).uuid != v,
    ensures
        0 <= first_with_uuid(items, v) < items.len(),
        items[first_with_uuid(items, v)].uuid == v,
        forall|j: int| 0 <= j < first_with_uuid(items, v) ==> (#[trigger] items[j]).uuid != v,
    decreases items.len() - k,
{
    if items[k].uuid == v {
        lemma_first_uuid_is(items, v, k);
    } else {
        lemma_bottom_uuid(items, v, k + 1);
    }
}

proof fn lemma_find_push(p: Seq<u8>, q: Seq<u8>, ne: ItemInfo, v: u32)
    requires
        items_of(q) == items_of(p).push(ne),
        has_uuid(items_of(p), v) ==> item_bytes(q, items_of(p)[first_with_uuid(items_of(p), v)]) == item_bytes(
            p,
            items_of(p)[first_with_uuid(items_of(p), v)],
        ),
    ensures
        find_in_page(q, v) == if has_uuid(items_of(p), v) {
            find_in_page(p, v)
        } else if ne.uuid == v {
            Some(item_bytes(q, ne))
        } else {
            None
        },
        !has_uuid(items_of(p), v) ==> find_in_page(p, v) is None,
{
    reveal(find_in_page);
    lemma_first_push(items_of(p), ne, v);
}

#[verifier::rlimit(50)]
proof fn lemma_inserted_find(p: Seq<u8>, item: Seq<u8>, uuid: u32, v: u32)
    requires
        insert_fits(p, item.len() as int),
        items_laid(p),
    ensures
        find_in_page(inserted(p, item, uuid), v) == if v != uuid || has_uuid(items_of(p), v) {
            find_in_page(p, v)
        } else {
            Some(item)
        },
{
    let q = inserted(p, item, uuid);
    lemma_inserted_directory(p, item, uuid);
    let old_items = items_of(p);
    let ne = ItemInfo { offset: item_end(p) as u16, uuid, size: item.len() as u16 };
    if has_uuid(old_items, v) {
        lemma_first_push(old_items, ne, v);
        lemma_inserted_bytes(p, item, uuid, old_items[first_with_uuid(old_items, v)]);
    }
    lemma_inserted_new_bytes(p, item, uuid);
    lemma_find_push(p, q, ne, v);
}

/// An insert into a page keeps every earlier item as it was and lists the new
/// item last; a lookup of any other uuid gives what it gave before, and a lookup
/// of the new uuid gives the new item unless an earlier item has that uuid.
pub proof fn law_insert_keeps_items(p: Seq<u8>, item: Seq<u8>, uuid: u32)
    requires
        insert_fits(p, item.len() as int),
        items_laid(p),
    ensures
        ({
            let q = inserted(p, item, uuid);
            &&& items_laid(q)
            &&& record_count(q) == record_count(p) + 1
            &&& item_end(q) == item_end(p) - item.len()
            &&& q.len() == SIZE
            &&& listed_items(q) == listed_items(p).push(item)
            &&& forall|u: u32| u != uuid ==> #[trigger] find_in_page(q, u) == find_in_page(p, u)
            &&& find_in_page(q, uuid) == if has_uuid(items_of(p), uuid) {
                find_in_page(p, uuid)
            } else {
                Some(item)
            }
        }),
{
    lemma_inserted_directory(p, item, uuid);
    lemma_inserted_listed(p, item, uuid);
    lemma_inserted_find(p, item, uuid, uuid);
    assert forall|u: u32| u != uuid implies #[trigger] find_in_page(inserted(p, item, uuid), u) == find_in_page(p, u) by {
        lemma_inserted_find(p, item, uuid, u);
    }
}

/// The page after inserting `items` under `uuids`, one after another.
pub open spec fn inserted_all(p: Seq<u8>, items: Seq<Seq<u8>>, uuids: Seq<u32>) -> Seq<u8>
    decreases items.len(),
{
    if items.len() == 0 {
        p
    } else {
        inserted_all(inserted(p, items[0], uuids[0]), items.drop_first(), uuids.drop_first())
    }
}

/// Whether each of those inserts can be made in turn (see `insert_fits`).
pub open spec fn inserts_fit(p: Seq<u8>, items: Seq<Seq<u8>>, uuids: Seq<u32>) -> bool
    decreases items.len(),
{
    items.len() == 0 || (insert_fits(p, items[0].len() as int) && inserts_fit(
        inserted(p, items[0], uuids[0]),
        items.drop_first(),
        uuids.drop_first(),
    ))
}

/// Inserting items one after another into a page lists them, after the page's
/// earlier items, in the order they were inserted.
pub proof fn law_items_after_inserts(p: Seq<u8>, items: Seq<Seq<u8>>, uuids: Seq<u32>)
    requires
        uuids.len() == items.len(),
        items_laid(p),
        inserts_fit(p, items, uuids),
    ensures
        listed_items(inserted_all(p, items, uuids)) == listed_items(p) + items,
    decreases items.len(),
{
    if items.len() == 0 {
        assert(listed_items(p) + items =~= listed_items(p));
    } else {
        law_insert_keeps_items(p, items[0], uuids[0]);
        let q = inserted(p, items[0], uuids[0]);
        law_items_after_inserts(q, items.drop_first(), uuids.drop_first());
        assert(listed_items(p).push(items[0]) + items.drop_first() =~= listed_items(p) + items);
    }
}

/// A page that `judge_page` formats afresh lists no items (so the law above lists,
/// for it, exactly the items inserted).
pub proof fn law_fresh_page_is_empty(p: Seq<u8>, page_number: u32)
    requires
        judgeable(p),
        !is_formatted(p),
    ensures
        items_laid(judged(p, page_number)),
        listed_items(judged(p, page_number)) == Seq::<Seq<u8>>::empty(),
{
    lemma_judged(p, page_number);
    assert(listed_items(judged(p, page_number)) =~= Seq::<Seq<u8>>::empty());
}

/// Whether no two items of page `p` share a byte.
pub open spec fn items_apart(p: Seq<u8>) -> bool {
    forall|i: int, j: int|
        0 <= i < items_of(p).len() && 0 <= j < items_of(p).len() && i != j ==> (#[trigger] items_of(p)[i]).offset
            <= (#[trigger] items_of(p)[j]).offset - items_of(p)[j].size || items_of(p)[j].offset <= items_of(p)[i].offset
            - items_of(p)[i].size
}

/// An insert keeps the items apart and the directory below them.
pub proof fn law_insert_keeps_apart(p: Seq<u8>, item: Seq<u8>, uuid: u32)
    requires
        insert_fits(p, item.len() as int),
        items_laid(p),
        items_apart(p),
    ensures
        items_apart(inserted(p, item, uuid)),
        entry_pos(record_count(inserted(p, item, uuid))) <= item_end(inserted(p, item, uuid)),
{
    lemma_inserted_directory(p, item, uuid);
    lemma_inserted_listed(p, item, uuid);
    let q = inserted(p, item, uuid);
    let n = record_count(p);
    let items = items_of(q);
    let old_items = items_of(p);
    assert forall|i: int, j: int|
        0 <= i < items.len() && 0 <= j < items.len() && i != j implies (#[trigger] items[i]).offset
        <= (#[trigger] items[j]).offset - items[j].size || items[j].offset <= items[i].offset - items[i].size by {
        if i < n && j < n {
            assert(items[i] == old_items[i] && items[j] == old_items[j]);
        } else if i < n {
            assert(items[i] == old_items[i]);
        } else {
            assert(items[j] == old_items[j]);
        }
    }
}

proof fn lemma_updated_outside(p: Seq<u8>, items: Seq<ItemInfo>, uuid: u32, new: Seq<u8>, n: int, k: int)
    requires
        0 <= n <= items.len(),
        0 <= k < p.len(),
        forall|i: int| 0 <= i < n && (#[trigger] items[i]).uuid == uuid ==> {
            &&& items[i].size == new.len()
            &&& items[i].size <= items[i].offset <= p.len()
            &&& !(items[i].offset - items[i].size <= k < items[i].offset)
        },
    ensures
        updated(p, items, uuid, new, n).len() == p.len(),
        updated(p, items, uuid, new, n)[k] == p[k],
    decreases n,
{
    lemma_updated_len(p, items, uuid, new, n);
    if n > 0 {
        lemma_updated_outside(p, items, uuid, new, n - 1, k);
    }
}

/// Updating the items with one uuid leaves the directory as it was, and a lookup
/// of any other uuid gives what it gave before, on a page whose items lie apart,
/// above its directory.
pub proof fn law_update_keeps_others(p: Seq<u8>, uuid: u32, new: Seq<u8>, v: u32)
    requires
        p.len() == SIZE,
        items_laid(p),
        items_apart(p),
        entry_pos(record_count(p)) <= item_end(p),
        update_ok(p, uuid, new.len() as int),
        v != uuid,
    ensures
        ({
            let q = updated(p, items_of(p), uuid, new, items_of(p).len() as int);
            &&& items_of(q) == items_of(p)
            &&& find_in_page(q, v) == find_in_page(p, v)
        }),
{
    reveal(find_in_page);
    let items = items_of(p);
    let n = items.len() as int;
    let q = updated(p, items, uuid, new, n);
    lemma_updated_len(p, items, uuid, new, n);
    assert forall|k: int| 0 <= k < entry_pos(record_count(p)) implies #[trigger] q[k] == p[k] by {
        assert forall|i: int| 0 <= i < n && (#[trigger] items[i]).uuid == uuid implies {
            &&& items[i].size == new.len()
            &&& items[i].size <= items[i].offset <= p.len()
            &&& !(items[i].offset - items[i].size <= k < items[i].offset)
        } by {}
        lemma_updated_outside(p, items, uuid, new, n, k);
    }
    crate::bytes::lemma_be_bounds(p, 8);
    assert(q[8] == p[8] && q[9] == p[9]);
    assert(record_count(q) == record_count(p));
    assert forall|i: int| 0 <= i < n implies #[trigger] items_of(q)[i] == items[i] by {
        let e = entry_pos(i);
        assert(q[e] == p[e] && q[e + 1] == p[e + 1] && q[e + 2] == p[e + 2] && q[e + 3] == p[e + 3]);
        assert(q[e + 4] == p[e + 4] && q[e + 5] == p[e + 5] && q[e + 6] == p[e + 6] && q[e + 7] == p[e + 7]);
    }
    assert(items_of(q) =~= items);
    if has_uuid(items, v) {
        let f = first_with_uuid(items, v);
        lemma_bottom_uuid(items, v, 0);
        let e = items[f];
        assert(item_bytes(q, e) =~= item_bytes(p, e)) by {
            assert forall|k: int| e.offset - e.size <= k < e.offset implies #[trigger] q[k] == p[k] by {
                assert forall|i: int| 0 <= i < n && (#[trigger] items[i]).uuid == uuid implies {
                    &&& items[i].size == new.len()
                    &&& items[i].size <= items[i].offset <= p.len()
                    &&& !(items[i].offset - items[i].size <= k < items[i].offset)
                } by {
                    assert(i != f);
                }
                lemma_updated_outside(p, items, uuid, new, n, k);
            }
        }
    }
}

/// The uuids that inserts into page `f` with the random parts `salts` get.
pub open spec fn salted_uuids(f: u32, salts: Seq<u16>) -> Seq<u32> {
    Seq::new(salts.len(), |i: int| make_uuid(f, salts[i]))
}

/// The pool and the handler's free page after inserting `items`, with the random
/// parts `salts`, one after another through a handler whose free page is
/// `free_page` (see `insert_item_with`).
pub open spec fn pool_after_inserts(
    s: Seq<BufferView>,
    init: Seq<bool>,
    files: Map<Seq<char>, Seq<u8>>,
    name: Seq<char>,
    free_page: u32,
    items: Seq<Seq<u8>>,
    salts: Seq<u16>,
) -> (Seq<BufferView>, Seq<bool>, u32)
    decreases items.len(),
{
    if items.len() == 0 {
        (s, init, free_page)
    } else {
        let (sw, iw, f) = walk_end(s, init, files, name, free_page);
        pool_after_inserts(
            slots_after_insert(s, init, files, name, free_page, items[0], salts[0]),
            iw,
            files,
            name,
            f,
            items.drop_first(),
            salts.drop_first(),
        )
    }
}

proof fn lemma_inserted_header(p: Seq<u8>, item: Seq<u8>, uuid: u32)
    requires
        insert_fits(p, item.len() as int),
    ensures
        is_formatted(inserted(p, item, uuid)),
        judgeable(inserted(p, item, uuid)),
{
    reveal(inserted);
    lemma_inserted_directory(p, item, uuid);
    let q = inserted(p, item, uuid);
    assert(q[0] == p[0] && q[1] == p[1] && q[2] == p[2] && q[3] == p[3]);
}

proof fn lemma_insert_step(
    s: Seq<BufferView>,
    init: Seq<bool>,
    files: Map<Seq<char>, Seq<u8>>,
    name: Seq<char>,
    f: u32,
    item: Seq<u8>,
    salt: u16,
)
    requires
        s.len() >= 1,
        forall|i: int| 0 <= i < s.len() ==> (#[trigger] s[i]).data.len() == SIZE,
        shared_agree(s, init),
        walk_ok(s, init, files, name, f),
        walk_end(s, init, files, name, f).2 == f,
        insert_fits(walk_end(s, init, files, name, f).0.last().data, item.len() as int),
    ensures
        ({
            let (sw, iw, g) = walk_end(s, init, files, name, f);
            let q = inserted(sw.last().data, item, make_uuid(f, salt));
            let s2 = slots_after_insert(s, init, files, name, f, item, salt);
            &&& s2.len() == s.len()
            &&& forall|i: int| 0 <= i < s2.len() ==> (#[trigger] s2[i]).data.len() == SIZE
            &&& shared_agree(s2, iw)
            &&& holds(s2.last(), name, (f + 1) as u32)
            &&& s2.last().data == q
            &&& cached(s2, name, (f + 1) as u32)
            &&& seen_page(s2, files, name, (f + 1) as u32) == q
            &&& is_formatted(q)
            &&& judgeable(q)
            &&& f < u32::MAX
        }),
{
    lemma_walk(s, init, files, name, f);
    lemma_insert_slots(s, init, files, name, f, item, salt);
    let (sw, iw, g) = walk_end(s, init, files, name, f);
    let p = sw.last().data;
    let q = inserted(p, item, make_uuid(f, salt));
    lemma_inserted_directory(p, item, make_uuid(f, salt));
    lemma_inserted_header(p, item, make_uuid(f, salt));
    reveal(slots_after_insert);
    lemma_make_dirty_keeps(sw, iw, name, f);
    let sd = after_make_dirty(sw, iw, name, f);
    let b = BufferView { data: q, ..sd.last() };
    lemma_write_slot_sizes(sd, iw, sd.len() - 1, b);
    lemma_write_slot_agree(sd, iw, sd.len() - 1, b);
    let s2 = slots_after_insert(s, init, files, name, f, item, salt);
    lemma_seen_last(s2, files, name, (f + 1) as u32);
}

proof fn lemma_next_walk(
    s: Seq<BufferView>,
    init: Seq<bool>,
    files: Map<Seq<char>, Seq<u8>>,
    name: Seq<char>,
    f: u32,
)
    requires
        s.len() >= 1,
        forall|i: int| 0 <= i < s.len() ==> (#[trigger] s[i]).data.len() == SIZE,
        shared_agree(s, init),
        f < u32::MAX,
        holds(s.last(), name, (f + 1) as u32),
        is_formatted(s.last().data),
        judgeable(s.last().data),
        !judged_full(s.last().data, f),
    ensures
        walk_ok(s, init, files, name, f),
        walk_end(s, init, files, name, f).2 == f,
        walk_end(s, init, files, name, f).0.last().data == s.last().data,
        walk_end(s, init, files, name, f).1 == lru_next_initial(s, init, name, (f + 1) as u32),
{
    reveal(walk_ok);
    reveal(walk_end);
    let p_id = (f + 1) as u32;
    lemma_seen_last(s, files, name, p_id);
    lemma_step(s, init, files, name, p_id, f);
}

proof fn lemma_walk_end_ge(s: Seq<BufferView>, init: Seq<bool>, files: Map<Seq<char>, Seq<u8>>, name: Seq<char>, f: u32)
    requires
        walk_ok(s, init, files, name, f),
    ensures
        walk_end(s, init, files, name, f).2 >= f,
    decreases u32::MAX - f,
{
    lemma_walk_unfold(s, init, files, name, f);
    let p_id = (f + 1) as u32;
    if judged_full(seen_page(s, files, name, p_id), f) {
        lemma_walk_end_ge(
            slots_after_judge(s, init, files, name, p_id, f),
            lru_next_initial(s, init, name, p_id),
            files,
            name,
            p_id,
        );
    }
}

proof fn lemma_handler_base(s: Seq<BufferView>, init: Seq<bool>, files: Map<Seq<char>, Seq<u8>>, name: Seq<char>, f: u32)
    requires
        s.len() >= 1,
        forall|i: int| 0 <= i < s.len() ==> (#[trigger] s[i]).data.len() == SIZE,
        shared_agree(s, init),
        walk_ok(s, init, files, name, f),
        walk_end(s, init, files, name, f).2 == f,
    ensures
        loadable(s, files, name, (f + 1) as u32),
        judgeable(seen_page(s, files, name, (f + 1) as u32)),
        judged(seen_page(s, files, name, (f + 1) as u32), f) == walk_end(s, init, files, name, f).0.last().data,
{
    lemma_walk_unfold(s, init, files, name, f);
    let p_id = (f + 1) as u32;
    if judged_full(seen_page(s, files, name, p_id), f) {
        lemma_walk_end_ge(
            slots_after_judge(s, init, files, name, p_id, f),
            lru_next_initial(s, init, name, p_id),
            files,
            name,
            p_id,
        );
        assert(false);
    }
    lemma_step(s, init, files, name, p_id, f);
}

proof fn lemma_handler_first(
    s: Seq<BufferView>,
    init: Seq<bool>,
    files: Map<Seq<char>, Seq<u8>>,
    name: Seq<char>,
    f: u32,
    items: Seq<Seq<u8>>,
    salts: Seq<u16>,
)
    requires
        s.len() >= 1,
        forall|i: int| 0 <= i < s.len() ==> (#[trigger] s[i]).data.len() == SIZE,
        shared_agree(s, init),
        items.len() == salts.len(),
        items.len() >= 1,
        walk_ok(s, init, files, name, f),
        walk_end(s, init, files, name, f).2 == f,
        items_laid(walk_end(s, init, files, name, f).0.last().data),
        inserts_fit(walk_end(s, init, files, name, f).0.last().data, items, salted_uuids(f, salts)),
    ensures
        ({
            let p = walk_end(s, init, files, name, f).0.last().data;
            let iw = walk_end(s, init, files, name, f).1;
            let uuids = salted_uuids(f, salts);
            let q = inserted(p, items[0], uuids[0]);
            let s1 = slots_after_insert(s, init, files, name, f, items[0], salts[0]);
            &&& s1.len() == s.len()
            &&& forall|i: int| 0 <= i < s1.len() ==> (#[trigger] s1[i]).data.len() == SIZE
            &&& shared_agree(s1, iw)
            &&& holds(s1.last(), name, (f + 1) as u32)
            &&& s1.last().data == q
            &&& cached(s1, name, (f + 1) as u32)
            &&& seen_page(s1, files, name, (f + 1) as u32) == q
            &&& is_formatted(q)
            &&& judgeable(q)
            &&& judged(q, f) == q
            &&& f < u32::MAX
            &&& items_laid(q)
            &&& listed_items(q) == listed_items(p).push(items[0])
            &&& salted_uuids(f, salts.drop_first()) == uuids.drop_first()
            &&& inserts_fit(q, items.drop_first(), uuids.drop_first())
            &&& inserted_all(p, items, uuids) == inserted_all(q, items.drop_first(), uuids.drop_first())
            &&& pool_after_inserts(s, init, files, name, f, items, salts) == pool_after_inserts(
                s1,
                iw,
                files,
                name,
                f,
                items.drop_first(),
                salts.drop_first(),
            )
        }),
{
    let p = walk_end(s, init, files, name, f).0.last().data;
    let uuids = salted_uuids(f, salts);
    lemma_insert_step(s, init, files, name, f, items[0], salts[0]);
    law_insert_keeps_items(p, items[0], uuids[0]);
    assert(salted_uuids(f, salts.drop_first()) =~= uuids.drop_first());
}

proof fn lemma_shift_not_full(p: Seq<u8>, items: Seq<Seq<u8>>, uuids: Seq<u32>, f: u32)
    requires
        items.len() >= 1,
        uuids.len() == items.len(),
        forall|j: int| 0 < j < items.len() ==> !#[trigger] judged_full(inserted_all(p, items.take(j), uuids.take(j)), f),
    ensures
        items.len() > 1 ==> !judged_full(inserted(p, items[0], uuids[0]), f),
        forall|j: int| 0 < j < items.len() - 1 ==> !#[trigger] judged_full(
            inserted_all(inserted(p, items[0], uuids[0]), items.drop_first().take(j), uuids.drop_first().take(j)),
            f,
        ),
{
    let q = inserted(p, items[0], uuids[0]);
    if items.len() > 1 {
        assert(items.take(1).drop_first() =~= Seq::<Seq<u8>>::empty());
        assert(uuids.take(1).drop_first() =~= Seq::<u32>::empty());
        assert(items.take(1)[0] == items[0] && uuids.take(1)[0] == uuids[0]);
        assert(inserted_all(q, items.take(1).drop_first(), uuids.take(1).drop_first()) == q);
        assert(inserted_all(p, items.take(1), uuids.take(1)) == q);
        assert(!judged_full(inserted_all(p, items.take(1), uuids.take(1)), f));
    }
    assert forall|j: int| 0 < j < items.len() - 1 implies !#[trigger] judged_full(
        inserted_all(q, items.drop_first().take(j), uuids.drop_first().take(j)),
        f,
    ) by {
        assert(items.take(j + 1).drop_first() =~= items.drop_first().take(j));
        assert(uuids.take(j + 1).drop_first() =~= uuids.drop_first().take(j));
        assert(items.take(j + 1)[0] == items[0] && uuids.take(j + 1)[0] == uuids[0]);
        assert(inserted_all(p, items.take(j + 1), uuids.take(j + 1)) == inserted_all(
            q,
            items.drop_first().take(j),
            uuids.drop_first().take(j),
        ));
        assert(!judged_full(inserted_all(p, items.take(j + 1), uuids.take(j + 1)), f));
    }
}

/// Inserts through a handler that stay on one page list their items there, after
/// the page's earlier items, in the order they were made: where the search for
/// room stops at page `f` and, after each insert but the last, the page is not
/// yet full, the page that `get_items_by_page(f)` then reads is the walk's page
/// with the items inserted, and lists them last.
#[verifier::spinoff_prover]
#[verifier::rlimit(60)]
pub proof fn law_items_after_handler_inserts(
    s: Seq<BufferView>,
    init: Seq<bool>,
    files: Map<Seq<char>, Seq<u8>>,
    name: Seq<char>,
    f: u32,
    items: Seq<Seq<u8>>,
    salts: Seq<u16>,
)
    requires
        s.len() >= 1,
        forall|i: int| 0 <= i < s.len() ==> (#[trigger] s[i]).data.len() == SIZE,
        shared_agree(s, init),
        items.len() == salts.len(),
        walk_ok(s, init, files, name, f),
        walk_end(s, init, files, name, f).2 == f,
        items_laid(walk_end(s, init, files, name, f).0.last().data),
        inserts_fit(walk_end(s, init, files, name, f).0.last().data, items, salted_uuids(f, salts)),
        forall|j: int| 0 < j < items.len() ==> !#[trigger] judged_full(
            inserted_all(walk_end(s, init, files, name, f).0.last().data, items.take(j), salted_uuids(f, salts).take(j)),
            f,
        ),
    ensures
        ({
            let p = walk_end(s, init, files, name, f).0.last().data;
            let (s2, i2, f2) = pool_after_inserts(s, init, files, name, f, items, salts);
            &&& f2 == f
            &&& loadable(s2, files, name, (f + 1) as u32)
            &&& judgeable(seen_page(s2, files, name, (f + 1) as u32))
            &&& judged(seen_page(s2, files, name, (f + 1) as u32), f) == inserted_all(p, items, salted_uuids(f, salts))
            &&& items_laid(judged(seen_page(s2, files, name, (f + 1) as u32), f))
            &&& listed_items(judged(seen_page(s2, files, name, (f + 1) as u32), f)) == listed_items(p) + items
        }),
    decreases items.len(),
{
    let p = walk_end(s, init, files, name, f).0.last().data;
    let uuids = salted_uuids(f, salts);
    if items.len() == 0 {
        lemma_handler_base(s, init, files, name, f);
        assert(listed_items(p) + items =~= listed_items(p));
    } else {
        lemma_handler_first(s, init, files, name, f, items, salts);
        lemma_shift_not_full(p, items, uuids, f);
        let iw = walk_end(s, init, files, name, f).1;
        let q = inserted(p, items[0], uuids[0]);
        let s1 = slots_after_insert(s, init, files, name, f, items[0], salts[0]);
        let rest = items.drop_first();
        let rs = salts.drop_first();
        if items.len() == 1 {
            assert(rest =~= Seq::<Seq<u8>>::empty());
            assert(rs =~= Seq::<u16>::empty());
            assert(listed_items(p).push(items[0]) =~= listed_items(p) + items);
        } else {
            lemma_next_walk(s1, iw, files, name, f);
            law_items_after_handler_inserts(s1, iw, files, name, f, rest, rs);
            assert(listed_items(p).push(items[0]) + rest =~= listed_items(p) + items);
        }
    }
}

proof fn lemma_laid_lookup(p: Seq<u8>, u: u32)
    requires
        items_laid(p),
    ensures
        lookup_ok(p, u),
{
    reveal(lookup_ok);
    if has_uuid(items_of(p), u) {
        lemma_first_push(items_of(p).drop_last(), items_of(p).last(), u);
        lemma_bottom_uuid(items_of(p), u, 0);
    }
}

proof fn lemma_find_stays(q: Seq<u8>, items: Seq<Seq<u8>>, uuids: Seq<u32>, u: u32)
    requires
        uuids.len() == items.len(),
        items_laid(q),
        inserts_fit(q, items, uuids),
        has_uuid(items_of(q), u),
    ensures
        find_in_page(inserted_all(q, items, uuids), u) == find_in_page(q, u),
        items_laid(inserted_all(q, items, uuids)),
    decreases items.len(),
{
    if items.len() > 0 {
        law_insert_keeps_items(q, items[0], uuids[0]);
        lemma_inserted_directory(q, items[0], uuids[0]);
        let q2 = inserted(q, items[0], uuids[0]);
        let w = choose|w: int| 0 <= w < items_of(q).len() && (#[trigger] items_of(q)[w]).uuid == u;
        assert(items_of(q2)[w] == items_of(q)[w]);
        lemma_find_stays(q2, items.drop_first(), uuids.drop_first(), u);
    }
}

/// Reading back by uuid after later inserts: the `i`-th of several items inserted
/// one after another into a page is what a lookup of its uuid gives, where the page
/// held no item with that uuid and no earlier insert used it.
pub proof fn law_find_after_inserts(p: Seq<u8>, items: Seq<Seq<u8>>, uuids: Seq<u32>, i: int)
    requires
        uuids.len() == items.len(),
        0 <= i < items.len(),
        items_laid(p),
        inserts_fit(p, items, uuids),
        !has_uuid(items_of(p), uuids[i]),
        forall|j: int| 0 <= j < i ==> #[trigger] uuids[j] != uuids[i],
    ensures
        find_in_page(inserted_all(p, items, uuids), uuids[i]) == Some(items[i]),
        lookup_ok(inserted_all(p, items, uuids), uuids[i]),
    decreases items.len(),
{
    law_insert_keeps_items(p, items[0], uuids[0]);
    lemma_inserted_directory(p, items[0], uuids[0]);
    let q = inserted(p, items[0], uuids[0]);
    let rest = items.drop_first();
    let ru = uuids.drop_first();
    if i == 0 {
        let n = items_of(p).len() as int;
        assert(items_of(q)[n].uuid == uuids[0]);
        lemma_find_stays(q, rest, ru, uuids[0]);
        lemma_laid_lookup(inserted_all(q, rest, ru), uuids[0]);
    } else {
        assert forall|w: int| 0 <= w < items_of(q).len() implies (#[trigger] items_of(q)[w]).uuid != uuids[i] by {
            if w < items_of(p).len() {
                assert(items_of(q)[w] == items_of(p)[w]);
            }
        }
        assert forall|j: int| 0 <= j < i - 1 implies #[trigger] ru[j] != ru[i - 1] by {
            assert(ru[j] == uuids[j + 1]);
        }
        law_find_after_inserts(q, rest, ru, i - 1);
    }
}

/// Reading back by uuid through the pool after later inserts: after inserts that
/// stay on page `f` (below 65536, see `law_items_after_handler_inserts`), a lookup
/// of the `i`-th item's uuid by the handler (whose free page is then `f`) can be
/// made and gives that item, where no earlier item of the page and no earlier
/// insert used its uuid.
pub proof fn law_read_back_after_handler_inserts(
    s: Seq<BufferView>,
    init: Seq<bool>,
    files: Map<Seq<char>, Seq<u8>>,
    name: Seq<char>,
    f: u32,
    items: Seq<Seq<u8>>,
    salts: Seq<u16>,
    i: int,
)
    requires
        s.len() >= 1,
        forall|k: int| 0 <= k < s.len() ==> (#[trigger] s[k]).data.len() == SIZE,
        shared_agree(s, init),
        items.len() == salts.len(),
        0 <= i < items.len(),
        f < 65536,
        walk_ok(s, init, files, name, f),
        walk_end(s, init, files, name, f).2 == f,
        items_laid(walk_end(s, init, files, name, f).0.last().data),
        inserts_fit(walk_end(s, init, files, name, f).0.last().data, items, salted_uuids(f, salts)),
        forall|j: int| 0 < j < items.len() ==> !#[trigger] judged_full(
            inserted_all(walk_end(s, init, files, name, f).0.last().data, items.take(j), salted_uuids(f, salts).take(j)),
            f,
        ),
        !has_uuid(items_of(walk_end(s, init, files, name, f).0.last().data), make_uuid(f, salts[i])),
        forall|j: int| 0 <= j < i ==> #[trigger] salts[j] != salts[i],
    ensures
        ({
            let s2 = pool_after_inserts(s, init, files, name, f, items, salts).0;
            let u = make_uuid(f, salts[i]);
            let pid = (uuid_page(u) + 1) as u32;
            &&& loadable(s2, files, name, pid)
            &&& judgeable(seen_page(s2, files, name, pid))
            &&& lookup_ok(page_for_uuid(s2, files, name, u, f), u)
            &&& find_in_page(page_for_uuid(s2, files, name, u, f), u) == Some(items[i])
        }),
{
    law_items_after_handler_inserts(s, init, files, name, f, items, salts);
    law_uuid_names_its_page(f, salts[i]);
    let p = walk_end(s, init, files, name, f).0.last().data;
    let uuids = salted_uuids(f, salts);
    assert forall|j: int| 0 <= j < i implies #[trigger] uuids[j] != uuids[i] by {
        law_uuid_names_its_page(f, salts[j]);
    }
    law_find_after_inserts(p, items, uuids, i);
}

} // verus!
