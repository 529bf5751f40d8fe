//! A fixed number of page buffers kept in memory in front of the database files,
//! with LRU and clock replacement.
//!
//! A new pool's slots all hold one and the same buffer (the builder's default
//! buffer); a change made through one such slot shows in all the slots that
//! still hold it. `initial()` marks those slots.
use vstd::prelude::*;
use crate::disk::{Disk, DiskManager, SIZE, PAGE_ID_LIMIT, read_block, write_block};

verus! {

/// A page in memory, with the file and page it came from.
pub struct Buffer {
    pub file_name: String,
    pub is_dirty: bool,
    pub page_id: u32,
    pub buffer: Vec<u8>,
    pub is_used: bool,
}

/// The value of a buffer.
pub struct BufferView {
    pub file_name: Seq<char>,
    pub is_dirty: bool,
    pub page_id: u32,
    pub data: Seq<u8>,
    pub is_used: bool,
}

impl Buffer {
    pub open spec fn view(&self) -> BufferView {
        BufferView {
            file_name: self.file_name@,
            is_dirty: self.is_dirty,
            page_id: self.page_id,
            data: self.buffer@,
            is_used: self.is_used,
        }
    }

    /// A copy of this buffer.
    pub fn duplicate(&self) -> (r: Buffer)
        ensures
            r@ == self@,
    {
        let data = self.buffer.clone();
        assert(data@ =~= self.buffer@);
        Buffer {
            file_name: self.file_name.clone(),
            is_dirty: self.is_dirty,
            page_id: self.page_id,
            buffer: data,
            is_used: self.is_used,
        }
    }
}

/// The default buffer: no file, page 0, clean, unused, all zeros.
pub open spec fn default_buffer() -> BufferView {
    BufferView {
        file_name: Seq::<char>::empty(),
        is_dirty: false,
        page_id: 0,
        data: Seq::new(SIZE as nat, |k: int| 0u8),
        is_used: false,
    }
}

/// `SIZE` zero bytes.
fn zero_page() -> (r: Vec<u8>)
    ensures
        r@ == Seq::new(SIZE as nat, |k: int| 0u8),
{
    let mut r: Vec<u8> = Vec::new();
    let mut k: usize = 0;
    while k < SIZE
        invariant
            k <= SIZE,
            r@.len() == k,
            forall|j: int| 0 <= j < k ==> #[trigger] r@[j] == 0u8,
        decreases SIZE - k,
    {
        r.push(0u8);
        k = k + 1;
    }
    assert(r@ =~= Seq::new(SIZE as nat, |k: int| 0u8));
    r
}

impl Default for Buffer {
    fn default() -> (r: Buffer)
        ensures
            r@ == default_buffer(),
    {
        let name = String::new();
        Buffer { file_name: name, is_dirty: false, page_id: 0, buffer: zero_page(), is_used: false }
    }
}

/// Whether buffer `b` holds page `page_id` of the file named `name`.
pub open spec fn holds(b: BufferView, name: Seq<char>, page_id: u32) -> bool {
    b.file_name == name && b.page_id == page_id
}

/// Whether some slot holds the page.
pub open spec fn cached(s: Seq<BufferView>, name: Seq<char>, page_id: u32) -> bool {
    exists|i: int| 0 <= i < s.len() && #[trigger] holds(s[i], name, page_id)
}

/// The first slot that holds the page.
pub open spec fn first_holding(s: Seq<BufferView>, name: Seq<char>, page_id: u32) -> int {
    choose|i: int|
        0 <= i < s.len() && #[trigger] holds(s[i], name, page_id) && forall|j: int|
            0 <= j < i ==> !#[trigger] holds(s[j], name, page_id)
}

/// The last slot that holds the page.
pub open spec fn last_holding(s: Seq<BufferView>, name: Seq<char>, page_id: u32) -> int {
    choose|i: int|
        0 <= i < s.len() && #[trigger] holds(s[i], name, page_id) && forall|j: int|
            i < j < s.len() ==> !#[trigger] holds(s[j], name, page_id)
}

proof fn lemma_top_holding(s: Seq<BufferView>, name: Seq<char>, page_id: u32, k: int) -> (i: int)
    requires
        0 <= k <= s.len(),
        exists|w: int| 0 <= w < k && #[trigger] holds(s[w], name, page_id),
        forall|j: int| k <= j < s.len() ==> !#[trigger] holds(s[j], name, page_id),
    ensures
        0 <= i < k,
        holds(s[i], name, page_id),
        forall|j: int| i < j < s.len() ==> !#[trigger] holds(s[j], name, page_id),
    decreases k,
{
    if holds(s[k - 1], name, page_id) {
        k - 1
    } else {
        lemma_top_holding(s, name, page_id, k - 1)
    }
}

proof fn lemma_bottom_holding(s: Seq<BufferView>, name: Seq<char>, page_id: u32, k: int) -> (i: int)
    requires
        0 <= k <= s.len(),
        exists|w: int| k <= w < s.len() && #[trigger] holds(s[w], name, page_id),
        forall|j: int| 0 <= j < k ==> !#[trigger] holds(s[j], name, page_id),
    ensures
        k <= i < s.len(),
        holds(s[i], name, page_id),
        forall|j: int| 0 <= j < i ==> !#[trigger] holds(s[j], name, page_id),
    decreases s.len() - k,
{
    if holds(s[k], name, page_id) {
        k
    } else {
        lemma_bottom_holding(s, name, page_id, k + 1)
    }
}

/// Where some slot holds the page, there are a first and a last such slot.
pub proof fn lemma_holding(s: Seq<BufferView>, name: Seq<char>, page_id: u32)
    requires
        cached(s, name, page_id),
    ensures
        0 <= first_holding(s, name, page_id) <= last_holding(s, name, page_id) < s.len(),
        holds(s[first_holding(s, name, page_id)], name, page_id),
        holds(s[last_holding(s, name, page_id)], name, page_id),
        forall|j: int| 0 <= j < first_holding(s, name, page_id) ==> !#[trigger] holds(s[j], name, page_id),
        forall|j: int| last_holding(s, name, page_id) < j < s.len() ==> !#[trigger] holds(s[j], name, page_id),
{
    let w = choose|w: int| 0 <= w < s.len() && #[trigger] holds(s[w], name, page_id);
    let a = lemma_bottom_holding(s, name, page_id, 0);
    let b = lemma_top_holding(s, name, page_id, s.len() as int);
    lemma_first_is(s, name, page_id, a);
    lemma_last_is(s, name, page_id, b);
    if a > b {
        assert(!holds(s[a], name, page_id));
    }
}

proof fn lemma_first_is(s: Seq<BufferView>, name: Seq<char>, page_id: u32, a: int)
    requires
        0 <= a < s.len(),
        holds(s[a], name, page_id),
        forall|j: int| 0 <= j < a ==> !#[trigger] holds(s[j], name, page_id),
    ensures
        first_holding(s, name, page_id) == a,
{
    let f = first_holding(s, name, page_id);
    if f < a {
        assert(!holds(s[f], name, page_id));
    } else if f > a {
        assert(!holds(s[a], name, page_id));
    }
}

proof fn lemma_last_is(s: Seq<BufferView>, name: Seq<char>, page_id: u32, b: int)
    requires
        0 <= b < s.len(),
        holds(s[b], name, page_id),
        forall|j: int| b < j < s.len() ==> !#[trigger] holds(s[j], name, page_id),
    ensures
        last_holding(s, name, page_id) == b,
{
    let l = last_holding(s, name, page_id);
    if l < b {
        assert(!holds(s[b], name, page_id));
    } else if l > b {
        assert(!holds(s[l], name, page_id));
    }
}

/// A clean buffer that holds `data` as page `page_id` of `name`.
pub open spec fn loaded(name: Seq<char>, page_id: u32, data: Seq<u8>, is_used: bool) -> BufferView {
    BufferView { file_name: name, is_dirty: false, page_id, data, is_used }
}

/// The slots after an LRU access of the page, `page` being what the file holds:
/// on a hit the first holding slot leaves its place and the last holding buffer
/// goes to the end; on a miss the first slot is dropped and the loaded page goes
/// to the end.
#[verifier::opaque]
pub open spec fn lru_next(s: Seq<BufferView>, name: Seq<char>, page_id: u32, page: Seq<u8>) -> Seq<BufferView> {
    if cached(s, name, page_id) {
        s.remove(first_holding(s, name, page_id)).push(s[last_holding(s, name, page_id)])
    } else {
        s.drop_first().push(loaded(name, page_id, page, false))
    }
}

/// Which slots hold the pool's first buffer after the same LRU access.
pub open spec fn lru_next_initial(s: Seq<BufferView>, init: Seq<bool>, name: Seq<char>, page_id: u32) -> Seq<bool> {
    if cached(s, name, page_id) {
        init.remove(first_holding(s, name, page_id)).push(init[last_holding(s, name, page_id)])
    } else {
        init.drop_first().push(false)
    }
}

/// Whether the clock finds a slot to replace: a clean one, or one both used and dirty.
pub open spec fn has_clock_victim(s: Seq<BufferView>) -> bool {
    exists|i: int| 0 <= i < s.len() && (!(#[trigger] s[i]).is_dirty || s[i].is_used)
}

/// The first slot whose flags are (`used`, `dirty`).
pub open spec fn first_with(s: Seq<BufferView>, used: bool, dirty: bool) -> int {
    choose|i: int|
        0 <= i < s.len() && (#[trigger] s[i]).is_used == used && s[i].is_dirty == dirty && forall|j: int|
            0 <= j < i ==> !((#[trigger] s[j]).is_used == used && s[j].is_dirty == dirty)
}

pub open spec fn some_with(s: Seq<BufferView>, used: bool, dirty: bool) -> bool {
    exists|i: int| 0 <= i < s.len() && (#[trigger] s[i]).is_used == used && s[i].is_dirty == dirty
}

/// The slot that the clock replaces: the first unused clean slot, else the first
/// used clean slot, else the first used dirty slot.
pub open spec fn clock_victim(s: Seq<BufferView>) -> int {
    if some_with(s, false, false) {
        first_with(s, false, false)
    } else if some_with(s, true, false) {
        first_with(s, true, false)
    } else {
        first_with(s, true, true)
    }
}

/// The slots after writing `b` into slot `i`: every slot that holds the same
/// buffer as slot `i` changes with it.
pub open spec fn write_slot(s: Seq<BufferView>, init: Seq<bool>, i: int, b: BufferView) -> Seq<BufferView> {
    Seq::new(s.len(), |k: int| if k == i || (init[i] && init[k]) { b } else { s[k] })
}

/// The slots after marking dirty the first buffer that holds the page.
pub open spec fn after_make_dirty(s: Seq<BufferView>, init: Seq<bool>, name: Seq<char>, page_id: u32) -> Seq<BufferView> {
    if cached(s, name, page_id) {
        let i = first_holding(s, name, page_id);
        write_slot(s, init, i, dirtied(s[i]))
    } else {
        s
    }
}

/// An LRU access keeps the number of slots and the page size.
pub proof fn lemma_lru_next_sizes(s: Seq<BufferView>, name: Seq<char>, page_id: u32, page: Seq<u8>)
    requires
        s.len() >= 1,
        page.len() == SIZE,
        forall|i: int| 0 <= i < s.len() ==> (#[trigger] s[i]).data.len() == SIZE,
    ensures
        lru_next(s, name, page_id, page).len() == s.len(),
        forall|i: int|
            0 <= i < s.len() ==> (#[trigger] lru_next(s, name, page_id, page)[i]).data.len() == SIZE,
{
    reveal(lru_next);
    if cached(s, name, page_id) {
        lemma_holding(s, name, page_id);
    }
    let t = lru_next(s, name, page_id, page);
    assert forall|i: int| 0 <= i < s.len() implies (#[trigger] t[i]).data.len() == SIZE by {
        if cached(s, name, page_id) {
            let f = first_holding(s, name, page_id);
            if i < f {
                assert(t[i] == s[i]);
            } else if i < s.len() - 1 {
                assert(t[i] == s[i + 1]);
            }
        } else {
            if i < s.len() - 1 {
                assert(t[i] == s[i + 1]);
            }
        }
    }
}

/// Writing a page of `SIZE` bytes into a slot keeps the number of slots and the
/// page size.
pub proof fn lemma_write_slot_sizes(s: Seq<BufferView>, init: Seq<bool>, i: int, b: BufferView)
    requires
        b.data.len() == SIZE,
        forall|k: int| 0 <= k < s.len() ==> (#[trigger] s[k]).data.len() == SIZE,
    ensures
        write_slot(s, init, i, b).len() == s.len(),
        forall|k: int| 0 <= k < s.len() ==> (#[trigger] write_slot(s, init, i, b)[k]).data.len() == SIZE,
{
}

/// Slots that share the pool's first buffer hold equal buffers.
pub open spec fn shared_agree(s: Seq<BufferView>, init: Seq<bool>) -> bool {
    &&& init.len() == s.len()
    &&& forall|i: int, j: int|
        0 <= i < s.len() && 0 <= j < s.len() && init[i] && init[j] ==> #[trigger] s[i] == #[trigger] s[j]
}

/// An LRU access keeps the shared slots in agreement.
pub proof fn lemma_lru_next_agree(s: Seq<BufferView>, init: Seq<bool>, name: Seq<char>, page_id: u32, page: Seq<u8>)
    requires
        s.len() >= 1,
        shared_agree(s, init),
    ensures
        shared_agree(lru_next(s, name, page_id, page), lru_next_initial(s, init, name, page_id)),
{
    reveal(lru_next);
    let t = lru_next(s, name, page_id, page);
    let ti = lru_next_initial(s, init, name, page_id);
    let n = s.len() as int;
    if cached(s, name, page_id) {
        lemma_holding(s, name, page_id);
        let f = first_holding(s, name, page_id);
        let l = last_holding(s, name, page_id);
        assert forall|i: int, j: int| 0 <= i < n && 0 <= j < n && ti[i] && ti[j] implies #[trigger] t[i] == #[trigger] t[j] by {
            let oi = if i < f { i } else if i < n - 1 { i + 1 } else { l };
            let oj = if j < f { j } else if j < n - 1 { j + 1 } else { l };
            assert(t[i] == s[oi] && ti[i] == init[oi]);
            assert(t[j] == s[oj] && ti[j] == init[oj]);
        }
    } else {
        assert forall|i: int, j: int| 0 <= i < n && 0 <= j < n && ti[i] && ti[j] implies #[trigger] t[i] == #[trigger] t[j] by {
            assert(i < n - 1 && j < n - 1);
            assert(t[i] == s[i + 1] && ti[i] == init[i + 1]);
            assert(t[j] == s[j + 1] && ti[j] == init[j + 1]);
        }
    }
}

/// Writing a slot keeps the shared slots in agreement.
pub proof fn lemma_write_slot_agree(s: Seq<BufferView>, init: Seq<bool>, i: int, b: BufferView)
    requires
        0 <= i < s.len(),
        shared_agree(s, init),
    ensures
        shared_agree(write_slot(s, init, i, b), init),
{
}

/// Marking dirty keeps the shared slots in agreement and every slot's file, page
/// and data.
pub proof fn lemma_make_dirty_keeps(s: Seq<BufferView>, init: Seq<bool>, name: Seq<char>, page_id: u32)
    requires
        shared_agree(s, init),
    ensures
        shared_agree(after_make_dirty(s, init, name, page_id), init),
        after_make_dirty(s, init, name, page_id).len() == s.len(),
        forall|k: int|
            0 <= k < s.len() ==> {
                &&& (#[trigger] after_make_dirty(s, init, name, page_id)[k]).data == s[k].data
                &&& after_make_dirty(s, init, name, page_id)[k].file_name == s[k].file_name
                &&& after_make_dirty(s, init, name, page_id)[k].page_id == s[k].page_id
            },
{
    if cached(s, name, page_id) {
        lemma_holding(s, name, page_id);
        let i = first_holding(s, name, page_id);
        let t = after_make_dirty(s, init, name, page_id);
        assert forall|k: int| 0 <= k < s.len() implies {
            &&& (#[trigger] t[k]).data == s[k].data
            &&& t[k].file_name == s[k].file_name
            &&& t[k].page_id == s[k].page_id
        } by {
            if k != i && init[i] && init[k] {
                assert(s[i] == s[k]);
            }
        }
    }
}

/// What a buffer looks like after it was written back to its file.
pub open spec fn flushed(b: BufferView) -> BufferView {
    BufferView { is_used: false, is_dirty: false, ..b }
}

/// What a buffer looks like once marked dirty.
pub open spec fn dirtied(b: BufferView) -> BufferView {
    BufferView { is_dirty: true, ..b }
}

/// A handle on a buffer that the pool handed out: a copy of it as it was then.
pub struct BufferReference {
    pub buffer: Buffer,
}

/// The buffer pool.
pub struct BufferPool {
    buffers: Vec<Buffer>,
    initial: Vec<bool>,
    pool_size: u32,
    ptr: u32,
}

/// Makes buffer pools.
pub struct BufferPoolBuilder {
    pool_size: u32,
}

/// A replacement policy (not implemented).
pub struct Replace {}

impl Default for BufferPoolBuilder {
    fn default() -> (r: BufferPoolBuilder)
        ensures
            r.size() == 5,
    {
        BufferPoolBuilder { pool_size: 5 }
    }
}

impl BufferPoolBuilder {
    /// The number of buffers that `build` makes.
    pub closed spec fn size(&self) -> u32 {
        self.pool_size
    }

    /// A builder for a pool of five buffers.
    pub fn new() -> (r: BufferPoolBuilder)
        ensures
            r.size() == 5,
    {
        BufferPoolBuilder::default()
    }

    /// A builder for a pool of `size` buffers.
    pub fn get(size: u32) -> (r: Self)
        ensures
            r.size() == size,
    {
        BufferPoolBuilder { pool_size: size }
    }

    /// The same builder, for a pool of `size` buffers.
    pub fn with_size(self, size: u32) -> (r: BufferPoolBuilder)
        ensures
            r.size() == size,
    {
        let mut b = self;
        b.pool_size = size;
        b
    }

    /// A pool whose `size()` slots all hold one default buffer.
    pub fn build(self) -> (r: BufferPool)
        ensures
            r.wf(),
            r.pool_size() == self.size(),
            r.view() == Seq::new(self.size() as nat, |i: int| default_buffer()),
            r.initial() == Seq::new(self.size() as nat, |i: int| true),
            r.ptr() == 0,
    {
        let mut buffers: Vec<Buffer> = Vec::new();
        let mut initial: Vec<bool> = Vec::new();
        let first = Buffer::default();
        let mut i: u32 = 0;
        while i < self.pool_size
            invariant
                i <= self.pool_size,
                first@ == default_buffer(),
                buffers.len() == i,
                initial.len() == i,
                forall|k: int| 0 <= k < i ==> #[trigger] buffers@[k]@ == default_buffer(),
                forall|k: int| 0 <= k < i ==> #[trigger] initial@[k],
            decreases self.pool_size - i,
        {
            buffers.push(first.duplicate());
            initial.push(true);
            i = i + 1;
        }
        let r = BufferPool { buffers, initial, pool_size: self.pool_size, ptr: 0 };
        assert forall|p: int, q: int|
            0 <= p < r.buffers.len() && 0 <= q < r.buffers.len() && r.initial@[p]
                && r.initial@[q] implies #[trigger] r.buffers@[p]@ == #[trigger] r.buffers@[q]@ by {
            assert(r.buffers@[p]@ == default_buffer());
            assert(r.buffers@[q]@ == default_buffer());
        }
        assert forall|p: int| 0 <= p < r.buffers.len() implies (#[trigger] r.buffers@[p]).buffer@.len() == SIZE by {
            assert(r.buffers@[p]@ == default_buffer());
        }
        assert(r.view() =~= Seq::new(self.size() as nat, |i: int| default_buffer()));
        assert(r.initial() =~= Seq::new(self.size() as nat, |i: int| true));
        r
    }
}

impl Default for BufferPool {
    fn default() -> (r: BufferPool)
        ensures
            r.wf(),
            r.pool_size() == 5,
            r.view() == Seq::new(5, |i: int| default_buffer()),
            r.initial() == Seq::new(5, |i: int| true),
            r.ptr() == 0,
    {
        BufferPoolBuilder::default().build()
    }
}

impl View for BufferPool {
    type V = Seq<BufferView>;

    /// The buffers, slot by slot.
    closed spec fn view(&self) -> Seq<BufferView> {
        Seq::new(self.buffers@.len(), |i: int| self.buffers@[i]@)
    }
}

impl BufferPool {

    /// Which slots still hold the buffer that the pool was built with.
    pub closed spec fn initial(&self) -> Seq<bool> {
        self.initial@
    }

    pub closed spec fn pool_size(&self) -> u32 {
        self.pool_size
    }

    /// The clock hand's position; the pool starts it at 0 and never moves it.
    pub closed spec fn ptr(&self) -> u32 {
        self.ptr
    }

    /// One slot per buffer, pages of `SIZE` bytes, and the slots that share the
    /// first buffer agree.
    pub closed spec fn wf(&self) -> bool {
        &&& self.buffers.len() == self.pool_size
        &&& self.initial.len() == self.pool_size
        &&& forall|i: int| 0 <= i < self.buffers.len() ==> (#[trigger] self.buffers@[i]).buffer@.len() == SIZE
        &&& forall|i: int, j: int|
            0 <= i < self.buffers.len() && 0 <= j < self.buffers.len() && self.initial@[i]
                && self.initial@[j] ==> #[trigger] self.buffers@[i]@ == #[trigger] self.buffers@[j]@
    }

    pub proof fn lemma_wf(&self)
        requires
            self.wf(),
        ensures
            self.view().len() == self.pool_size(),
            self.initial().len() == self.pool_size(),
            forall|i: int| 0 <= i < self.view().len() ==> (#[trigger] self.view()[i]).data.len() == SIZE,
            shared_agree(self.view(), self.initial()),
    {
        assert forall|i: int, j: int|
            0 <= i < self.view().len() && 0 <= j < self.view().len() && self.initial()[i] && self.initial()[j]
                implies #[trigger] self.view()[i] == #[trigger] self.view()[j] by {
            assert(self.buffers@[i]@ == self.buffers@[j]@);
        }
    }

    /// The number of slots.
    pub fn slots(&self) -> (r: usize)
        requires
            self.wf(),
        ensures
            r == self.view().len(),
            r == self.pool_size(),
    {
        self.buffers.len()
    }

    /// A copy of the buffer in slot `i`.
    pub fn buffer_at(&self, i: usize) -> (r: Buffer)
        requires
            self.wf(),
            i < self.view().len(),
        ensures
            r@ == self.view()[i as int],
    {
        self.buffers[i].duplicate()
    }

    /// The first slot that holds the page, if any.
    fn find_first(&self, name: &String, page_id: u32) -> (r: Option<usize>)
        requires
            self.wf(),
        ensures
            r is None <==> !cached(self.view(), name@, page_id),
            r matches Some(i) ==> i == first_holding(self.view(), name@, page_id) && i < self.buffers.len(),
    {
        let ghost s = self.view();
        let mut i: usize = 0;
        while i < self.buffers.len()
            invariant
                s == self.view(),
                i <= self.buffers.len(),
                forall|j: int| 0 <= j < i ==> !#[trigger] holds(s[j], name@, page_id),
            decreases self.buffers.len() - i,
        {
            if self.buffers[i].file_name == *name && self.buffers[i].page_id == page_id {
                proof {
                    assert(holds(s[i as int], name@, page_id));
                    let c = first_holding(s, name@, page_id);
                    assert(holds(s[c], name@, page_id));
                    if c < i {
                    } else if c > i {
                        assert(!holds(s[i as int], name@, page_id));
                    }
                }
                return Some(i);
            }
            i = i + 1;
        }
        None
    }

    /// The last slot that holds the page, given that one does.
    fn find_last(&self, name: &String, page_id: u32) -> (r: usize)
        requires
            self.wf(),
            cached(self.view(), name@, page_id),
        ensures
            r == last_holding(self.view(), name@, page_id),
            r < self.buffers.len(),
    {
        let ghost s = self.view();
        let mut i: usize = self.buffers.len();
        while i > 0
            invariant
                s == self.view(),
                i <= self.buffers.len(),
                cached(s, name@, page_id),
                forall|j: int| i <= j < s.len() ==> !#[trigger] holds(s[j], name@, page_id),
            decreases i,
        {
            let k = i - 1;
            if self.buffers[k].file_name == *name && self.buffers[k].page_id == page_id {
                proof {
                    assert(holds(s[k as int], name@, page_id));
                    let c = last_holding(s, name@, page_id);
                    assert(holds(s[c], name@, page_id));
                    if c > k {
                    } else if c < k {
                        assert(!holds(s[k as int], name@, page_id));
                    }
                }
                return k;
            }
            i = k;
        }
        proof {
            let w = choose|w: int| 0 <= w < s.len() && #[trigger] holds(s[w], name@, page_id);
            assert(!holds(s[w], name@, page_id));
        }
        0
    }

    /// Writes `b` into slot `i`, and into every slot that shares that slot's buffer.
    pub fn write_slot(&mut self, i: usize, b: Buffer)
        requires
            old(self).wf(),
            i < old(self).view().len(),
            b.buffer@.len() == SIZE,
        ensures
            final(self).wf(),
            final(self).pool_size() == old(self).pool_size(),
            final(self).initial() == old(self).initial(),
            final(self).view() == write_slot(old(self).view(), old(self).initial(), i as int, b@),
    {
        let ghost old_view = self.view();
        let ghost old_init = self.initial@;
        let ghost target = write_slot(old_view, self.initial@, i as int, b@);
        if self.initial[i] {
            let mut k: usize = 0;
            while k < self.buffers.len()
                invariant
                    self.buffers.len() == self.pool_size,
                    self.initial.len() == self.pool_size,
                    i < self.buffers.len(),
                    self.initial@[i as int],
                    self.initial@ == old_init,
                    b.buffer@.len() == SIZE,
                    k <= self.buffers.len(),
                    old_view.len() == self.buffers.len(),
                    target == write_slot(old_view, self.initial@, i as int, b@),
                    forall|j: int| 0 <= j < k ==> (#[trigger] self.buffers@[j])@ == target[j],
                    forall|j: int| k <= j < self.buffers.len() ==> (#[trigger] self.buffers@[j])@ == old_view[j],
                    forall|j: int| 0 <= j < self.buffers.len() ==> (#[trigger] self.buffers@[j]).buffer@.len() == SIZE,
                decreases self.buffers.len() - k,
            {
                if self.initial[k] || k == i {
                    self.buffers.set(k, b.duplicate());
                }
                k = k + 1;
            }
        } else {
            self.buffers.set(i, b);
        }
        proof {
            assert(self.view() =~= target);
            assert forall|p: int, q: int|
                0 <= p < self.buffers.len() && 0 <= q < self.buffers.len() && self.initial@[p]
                    && self.initial@[q] implies #[trigger] self.buffers@[p]@ == #[trigger] self.buffers@[q]@ by {
                assert(self.buffers@[p]@ == self.view()[p]);
                assert(self.buffers@[q]@ == self.view()[q]);
            }
        }
    }
}

impl BufferPool {
    /// The first slot whose flags are (`used`, `dirty`), if any.
    fn find_with(&self, used: bool, dirty: bool) -> (r: Option<usize>)
        requires
            self.wf(),
        ensures
            r is None <==> !some_with(self.view(), used, dirty),
            r matches Some(i) ==> i == first_with(self.view(), used, dirty) && i < self.buffers.len(),
    {
        let ghost s = self.view();
        let mut i: usize = 0;
        while i < self.buffers.len()
            invariant
                s == self.view(),
                i <= self.buffers.len(),
                forall|j: int| 0 <= j < i ==> !((#[trigger] s[j]).is_used == used && s[j].is_dirty == dirty),
            decreases self.buffers.len() - i,
        {
            if self.buffers[i].is_used == used && self.buffers[i].is_dirty == dirty {
                proof {
                    assert(s[i as int].is_used == used && s[i as int].is_dirty == dirty);
                    let c = first_with(s, used, dirty);
                    assert(s[c].is_used == used && s[c].is_dirty == dirty);
                    if c > i {
                        assert(!(s[i as int].is_used == used && s[i as int].is_dirty == dirty));
                    }
                }
                return Some(i);
            }
            i = i + 1;
        }
        None
    }

    /// Marks dirty the first buffer that holds page `page_id` of `file_name`, if any.
    pub fn make_dirty(&mut self, file_name: &str, page_id: u32)
        requires
            old(self).wf(),
        ensures
            final(self).wf(),
            final(self).pool_size() == old(self).pool_size(),
            final(self).initial() == old(self).initial(),
            final(self).view() == after_make_dirty(old(self).view(), old(self).initial(), file_name@, page_id),
            forall|k: int|
                0 <= k < old(self).view().len() ==> {
                    &&& (#[trigger] final(self).view()[k]).data == old(self).view()[k].data
                    &&& final(self).view()[k].file_name == old(self).view()[k].file_name
                    &&& final(self).view()[k].page_id == old(self).view()[k].page_id
                },
    {
        let name = file_name.to_owned();
        match self.find_first(&name, page_id) {
            Some(i) => {
                let mut b = self.buffers[i].duplicate();
                b.is_dirty = true;
                proof {
                    assert(b.buffer@ == self.view()[i as int].data);
                }
                let ghost s = self.view();
                self.write_slot(i, b);
                proof {
                    assert forall|k: int| 0 <= k < s.len() implies {
                        &&& (#[trigger] self.view()[k]).data == s[k].data
                        &&& self.view()[k].file_name == s[k].file_name
                        &&& self.view()[k].page_id == s[k].page_id
                    } by {
                        if k != i && old(self).initial@[i as int] && old(self).initial@[k] {
                            assert(old(self).buffers@[i as int]@ == old(self).buffers@[k]@);
                        }
                    }
                }
            },
            None => {},
        }
    }

    /// Returns the buffer that holds page `page_id` of `file_name`, with LRU
    /// replacement: a hit moves the buffer to the last slot; a miss reads the page
    /// from its file, drops the first slot and puts the page in the last slot.
    pub fn get_page_lru(&mut self, disk: &Disk, file_name: &str, page_id: u32) -> (r: BufferReference)
        requires
            old(self).wf(),
            old(self).pool_size() >= 1,
            disk.wf(),
            !cached(old(self).view(), file_name@, page_id) ==> disk.view().dom().contains(file_name@)
                && page_id < PAGE_ID_LIMIT,
        ensures
            final(self).wf(),
            final(self).pool_size() == old(self).pool_size(),
            final(self).view() == lru_next(
                old(self).view(),
                file_name@,
                page_id,
                read_block(disk.view()[file_name@], page_id + 1),
            ),
            final(self).initial() == lru_next_initial(old(self).view(), old(self).initial(), file_name@, page_id),
            r.buffer@ == final(self).view().last(),
    {
        let ghost s = self.view();
        let ghost init = self.initial@;
        proof {
            reveal(lru_next);
        }
        let name = file_name.to_owned();
        match self.find_first(&name, page_id) {
            Some(i) => {
                let j = self.find_last(&name, page_id);
                let b = self.buffers[j].duplicate();
                let shared = self.initial[j];
                self.buffers.remove(i);
                self.initial.remove(i);
                self.buffers.push(b.duplicate());
                self.initial.push(shared);
                proof {
                    assert(self.view() =~= s.remove(i as int).push(s[j as int]));
                    assert(self.initial@ =~= init.remove(i as int).push(init[j as int]));
                    let n = self.buffers.len() as int;
                    assert forall|p: int| 0 <= p < n implies (#[trigger] self.buffers@[p]).buffer@.len() == SIZE by {
                        if p < i {
                            assert(self.buffers@[p] == old(self).buffers@[p]);
                        } else if p < n - 1 {
                            assert(self.buffers@[p] == old(self).buffers@[p + 1]);
                        }
                    }
                    assert forall|p: int, q: int|
                        0 <= p < n && 0 <= q < n && self.initial@[p] && self.initial@[q]
                            implies #[trigger] self.buffers@[p]@ == #[trigger] self.buffers@[q]@ by {
                        let op = if p < i { p } else if p < n - 1 { p + 1 } else { j as int };
                        let oq = if q < i { q } else if q < n - 1 { q + 1 } else { j as int };
                        assert(self.buffers@[p]@ == old(self).buffers@[op]@);
                        assert(self.buffers@[q]@ == old(self).buffers@[oq]@);
                        assert(old(self).initial@[op] && old(self).initial@[oq]);
                    }
                }
                BufferReference { buffer: b }
            },
            None => {
                let disk_handler = DiskManager::get_file(disk, file_name);
                let page = disk_handler.get_page(disk, page_id);
                self.buffers.remove(0);
                self.initial.remove(0);
                let b = Buffer { file_name: name, is_dirty: false, page_id, buffer: page, is_used: false };
                self.buffers.push(b.duplicate());
                self.initial.push(false);
                proof {
                    assert(self.view() =~= s.drop_first().push(b@));
                    assert(self.initial@ =~= init.drop_first().push(false));
                    let n = self.buffers.len() as int;
                    assert forall|p: int| 0 <= p < n implies (#[trigger] self.buffers@[p]).buffer@.len() == SIZE by {
                        if p < n - 1 {
                            assert(self.buffers@[p] == old(self).buffers@[p + 1]);
                        }
                    }
                    assert forall|p: int, q: int|
                        0 <= p < n && 0 <= q < n && self.initial@[p] && self.initial@[q]
                            implies #[trigger] self.buffers@[p]@ == #[trigger] self.buffers@[q]@ by {
                        assert(self.buffers@[p] == old(self).buffers@[p + 1]);
                        assert(self.buffers@[q] == old(self).buffers@[q + 1]);
                    }
                }
                BufferReference { buffer: b }
            },
        }
    }

    /// Returns the buffer that holds page `page_id` of `file_name`, with clock
    /// replacement: a hit changes nothing; a miss reads the page from its file and
    /// puts it, marked used, in the slot that `clock_victim` picks, and returns the
    /// buffer that slot held before.
    pub fn get_page_clock(&mut self, disk: &Disk, file_name: &str, page_id: u32) -> (r: BufferReference)
        requires
            old(self).wf(),
            disk.wf(),
            !cached(old(self).view(), file_name@, page_id) ==> disk.view().dom().contains(file_name@)
                && page_id < PAGE_ID_LIMIT && has_clock_victim(old(self).view()),
        ensures
            final(self).wf(),
            final(self).pool_size() == old(self).pool_size(),
            cached(old(self).view(), file_name@, page_id) ==> {
                &&& final(self).view() == old(self).view()
                &&& final(self).initial() == old(self).initial()
                &&& r.buffer@ == old(self).view()[first_holding(old(self).view(), file_name@, page_id)]
            },
            !cached(old(self).view(), file_name@, page_id) ==> {
                let v = clock_victim(old(self).view());
                &&& final(self).view() == old(self).view().update(
                    v,
                    loaded(file_name@, page_id, read_block(disk.view()[file_name@], page_id + 1), true),
                )
                &&& final(self).initial() == old(self).initial().update(v, false)
                &&& r.buffer@ == old(self).view()[v]
            },
    {
        let ghost s = self.view();
        let name = file_name.to_owned();
        match self.find_first(&name, page_id) {
            Some(i) => {
                return BufferReference { buffer: self.buffers[i].duplicate() };
            },
            None => {},
        }
        let disk_handler = DiskManager::get_file(disk, file_name);
        let page = disk_handler.get_page(disk, page_id);
        let v = match self.find_with(false, false) {
            Some(v) => v,
            None => match self.find_with(true, false) {
                Some(v) => v,
                None => {
                    proof {
                        let w = choose|w: int| 0 <= w < s.len() && (!(#[trigger] s[w]).is_dirty || s[w].is_used);
                        if !s[w].is_dirty {
                            if s[w].is_used {
                                assert(some_with(s, true, false));
                            } else {
                                assert(some_with(s, false, false));
                            }
                        } else {
                            assert(some_with(s, true, true));
                        }
                    }
                    self.find_with(true, true).unwrap()
                },
            },
        };
        let old_buffer = self.buffers[v].duplicate();
        let b = Buffer { file_name: name, is_dirty: false, page_id, buffer: page, is_used: true };
        self.buffers.set(v, b);
        self.initial.set(v, false);
        proof {
            assert(self.view() =~= s.update(v as int, self.buffers@[v as int]@));
            let n = self.buffers.len() as int;
            assert forall|p: int| 0 <= p < n implies (#[trigger] self.buffers@[p]).buffer@.len() == SIZE by {
                if p != v {
                    assert(self.buffers@[p] == old(self).buffers@[p]);
                }
            }
            assert forall|p: int, q: int|
                0 <= p < n && 0 <= q < n && self.initial@[p] && self.initial@[q]
                    implies #[trigger] self.buffers@[p]@ == #[trigger] self.buffers@[q]@ by {
                assert(self.buffers@[p] == old(self).buffers@[p]);
                assert(self.buffers@[q] == old(self).buffers@[q]);
            }
        }
        BufferReference { buffer: old_buffer }
    }

    /// Writes the buffer in slot `index` back to its file and marks it clean and
    /// unused.
    pub fn flush_page(&mut self, disk: &mut Disk, index: usize)
        requires
            old(self).wf(),
            old(disk).wf(),
            index < old(self).pool_size(),
            old(disk).view().dom().contains(old(self).view()[index as int].file_name),
            old(self).view()[index as int].page_id < PAGE_ID_LIMIT,
            (old(self).view()[index as int].page_id + 2) * SIZE <= usize::MAX,
        ensures
            final(self).wf(),
            final(disk).wf(),
            final(self).pool_size() == old(self).pool_size(),
            final(self).initial() == old(self).initial(),
            final(self).view() == write_slot(
                old(self).view(),
                old(self).initial(),
                index as int,
                flushed(old(self).view()[index as int]),
            ),
            ({
                let b = old(self).view()[index as int];
                final(disk).view() == old(disk).view().insert(
                    b.file_name,
                    write_block(old(disk).view()[b.file_name], b.page_id + 1, b.data),
                )
            }),
    {
        let mut b = self.buffers[index].duplicate();
        b.is_used = false;
        b.is_dirty = false;
        let file_name = b.file_name.clone();
        let data = b.buffer.clone();
        assert(data@ =~= b.buffer@);
        proof {
            assert(b.buffer@ == self.view()[index as int].data);
        }
        let page_id = b.page_id;
        self.write_slot(index, b);
        let disk_handler = DiskManager::get_file(disk, file_name.as_str());
        disk_handler.flush_page(disk, page_id, data);
    }
}

/// At most one slot holds the page.
pub open spec fn held_at_most_once(s: Seq<BufferView>, name: Seq<char>, page_id: u32) -> bool {
    forall|i: int, j: int|
        0 <= i < s.len() && 0 <= j < s.len() && #[trigger] holds(s[i], name, page_id) && #[trigger] holds(
            s[j],
            name,
            page_id,
        ) ==> i == j
}

/// Asking the LRU pool again for the page it just gave changes nothing and gives
/// the same buffer, where no other slot held that page.
pub proof fn law_lru_again(s: Seq<BufferView>, init: Seq<bool>, name: Seq<char>, page_id: u32, page: Seq<u8>, page2: Seq<u8>)
    requires
        s.len() >= 1,
        init.len() == s.len(),
        held_at_most_once(s, name, page_id),
    ensures
        ({
            let t = lru_next(s, name, page_id, page);
            let ti = lru_next_initial(s, init, name, page_id);
            &&& lru_next(t, name, page_id, page2) == t
            &&& lru_next_initial(t, ti, name, page_id) == ti
            &&& lru_next(t, name, page_id, page2).last() == t.last()
        }),
{
    reveal(lru_next);
    let t = lru_next(s, name, page_id, page);
    let ti = lru_next_initial(s, init, name, page_id);
    let n = s.len() as int;
    if cached(s, name, page_id) {
        lemma_holding(s, name, page_id);
        let f = first_holding(s, name, page_id);
        let l = last_holding(s, name, page_id);
        assert(f == l);
        assert forall|i: int| 0 <= i < n - 1 implies !#[trigger] holds(t[i], name, page_id) by {
            if i < f {
                assert(t[i] == s[i]);
            } else {
                assert(t[i] == s[i + 1]);
                if holds(s[i + 1], name, page_id) {
                    assert(holds(s[f], name, page_id));
                }
            }
        }
    } else {
        assert forall|i: int| 0 <= i < n - 1 implies !#[trigger] holds(t[i], name, page_id) by {
            assert(t[i] == s[i + 1]);
        }
    }
    assert(holds(t[n - 1], name, page_id));
    assert(cached(t, name, page_id));
    lemma_holding(t, name, page_id);
    lemma_first_is(t, name, page_id, n - 1);
    lemma_last_is(t, name, page_id, n - 1);
    assert(t.remove(n - 1).push(t[n - 1]) =~= t);
    assert(ti.remove(n - 1).push(ti[n - 1]) =~= ti);
}


proof fn lemma_bottom_with(s: Seq<BufferView>, used: bool, dirty: bool, k: int) -> (i: int)
    requires
        0 <= k <= s.len(),
        exists|w: int| k <= w < s.len() && (#[trigger] s[w]).is_used == used && s[w].is_dirty == dirty,
        forall|j: int| 0 <= j < k ==> !((#[trigger] s[j]).is_used == used && s[j].is_dirty == dirty),
    ensures
        k <= i < s.len(),
        s[i].is_used == used && s[i].is_dirty == dirty,
        forall|j: int| 0 <= j < i ==> !((#[trigger] s[j]).is_used == used && s[j].is_dirty == dirty),
    decreases s.len() - k,
{
    if s[k].is_used == used && s[k].is_dirty == dirty {
        k
    } else {
        lemma_bottom_with(s, used, dirty, k + 1)
    }
}

proof fn lemma_first_with(s: Seq<BufferView>, used: bool, dirty: bool)
    requires
        some_with(s, used, dirty),
    ensures
        0 <= first_with(s, used, dirty) < s.len(),
        s[first_with(s, used, dirty)].is_used == used,
        s[first_with(s, used, dirty)].is_dirty == dirty,
{
    let a = lemma_bottom_with(s, used, dirty, 0);
}

/// Where the clock finds a slot to replace, that slot lies within the pool.
pub proof fn lemma_clock_victim(s: Seq<BufferView>)
    requires
        has_clock_victim(s),
    ensures
        0 <= clock_victim(s) < s.len(),
{
    let w = choose|w: int| 0 <= w < s.len() && (!(#[trigger] s[w]).is_dirty || s[w].is_used);
    if s[w].is_used && s[w].is_dirty {
        assert(some_with(s, true, true));
    } else if s[w].is_used {
        assert(some_with(s, true, false));
    } else {
        assert(some_with(s, false, false));
    }
    if some_with(s, false, false) {
        lemma_first_with(s, false, false);
    } else if some_with(s, true, false) {
        lemma_first_with(s, true, false);
    } else {
        lemma_first_with(s, true, true);
    }
}

/// Asking the clock pool again for a page it just loaded is a hit: the pool stays
/// as it is and hands out the loaded page, marked used.
pub proof fn law_clock_again(s: Seq<BufferView>, name: Seq<char>, page_id: u32, page: Seq<u8>)
    requires
        !cached(s, name, page_id),
        has_clock_victim(s),
    ensures
        ({
            let t = s.update(clock_victim(s), loaded(name, page_id, page, true));
            &&& cached(t, name, page_id)
            &&& t[first_holding(t, name, page_id)] == loaded(name, page_id, page, true)
        }),
{
    lemma_clock_victim(s);
    let v = clock_victim(s);
    let t = s.update(v, loaded(name, page_id, page, true));
    assert(holds(t[v], name, page_id));
    assert forall|j: int| 0 <= j < v implies !#[trigger] holds(t[j], name, page_id) by {
        assert(t[j] == s[j]);
    }
    lemma_first_is(t, name, page_id, v);
}

/// No two slots hold the same page of a named file.
pub open spec fn pages_distinct(s: Seq<BufferView>) -> bool {
    forall|i: int, j: int|
        0 <= i < s.len() && 0 <= j < s.len() && i != j && s[i].file_name.len() > 0 ==> !holds(
            #[trigger] s[j],
            #[trigger] s[i].file_name,
            s[i].page_id,
        )
}

/// An LRU access of a page of a named file keeps every page of a named file in at
/// most one slot.
pub proof fn law_lru_keeps_pages_distinct(s: Seq<BufferView>, name: Seq<char>, page_id: u32, page: Seq<u8>)
    requires
        s.len() >= 1,
        name.len() > 0,
        pages_distinct(s),
    ensures
        pages_distinct(lru_next(s, name, page_id, page)),
{
    reveal(lru_next);
    let t = lru_next(s, name, page_id, page);
    let n = s.len() as int;
    if cached(s, name, page_id) {
        lemma_holding(s, name, page_id);
        let f = first_holding(s, name, page_id);
        let l = last_holding(s, name, page_id);
        if f != l {
            assert(s[f].file_name.len() > 0);
            assert(holds(s[l], s[f].file_name, s[f].page_id));
        }
        assert forall|i: int, j: int|
            0 <= i < t.len() && 0 <= j < t.len() && i != j && t[i].file_name.len() > 0 implies !holds(
                #[trigger] t[j],
                #[trigger] t[i].file_name,
                t[i].page_id,
            ) by {
            let a = if i == n - 1 { f } else if i < f { i } else { i + 1 };
            let b = if j == n - 1 { f } else if j < f { j } else { j + 1 };
            assert(t[i] == s[a]);
            assert(t[j] == s[b]);
            assert(a != b);
        }
    } else {
        assert forall|i: int, j: int|
            0 <= i < t.len() && 0 <= j < t.len() && i != j && t[i].file_name.len() > 0 implies !holds(
                #[trigger] t[j],
                #[trigger] t[i].file_name,
                t[i].page_id,
            ) by {
            if i == n - 1 {
                assert(t[j] == s[j + 1]);
                assert(!holds(s[j + 1], name, page_id));
            } else if j == n - 1 {
                assert(t[i] == s[i + 1]);
                if holds(t[j], t[i].file_name, t[i].page_id) {
                    assert(holds(s[i + 1], name, page_id));
                }
            } else {
                assert(t[i] == s[i + 1]);
                assert(t[j] == s[j + 1]);
            }
        }
    }
}

/// A clock miss on a page of a named file keeps every page of a named file in at
/// most one slot.
pub proof fn law_clock_keeps_pages_distinct(s: Seq<BufferView>, name: Seq<char>, page_id: u32, page: Seq<u8>)
    requires
        !cached(s, name, page_id),
        has_clock_victim(s),
        pages_distinct(s),
    ensures
        pages_distinct(s.update(clock_victim(s), loaded(name, page_id, page, true))),
{
    lemma_clock_victim(s);
    let v = clock_victim(s);
    let t = s.update(v, loaded(name, page_id, page, true));
    assert forall|i: int, j: int|
        0 <= i < t.len() && 0 <= j < t.len() && i != j && t[i].file_name.len() > 0 implies !holds(
            #[trigger] t[j],
            #[trigger] t[i].file_name,
            t[i].page_id,
        ) by {
        if i == v {
            assert(t[j] == s[j]);
            assert(!holds(s[j], name, page_id));
        } else if j == v {
            assert(t[i] == s[i]);
            if holds(t[j], t[i].file_name, t[i].page_id) {
                assert(holds(s[i], name, page_id));
            }
        } else {
            assert(t[i] == s[i]);
            assert(t[j] == s[j]);
        }
    }
}

/// The clock replaces the first slot, in slot order, of the first kind that some
/// slot is of: unused and clean, else used and clean, else used and dirty. Every
/// slot before the one it replaces is not of that kind.
pub proof fn law_clock_victim_is_first(s: Seq<BufferView>)
    requires
        has_clock_victim(s),
    ensures
        ({
            let v = clock_victim(s);
            let unused_clean = exists|k: int| 0 <= k < s.len() && !(#[trigger] s[k]).is_used && !s[k].is_dirty;
            let used_clean = exists|k: int| 0 <= k < s.len() && (#[trigger] s[k]).is_used && !s[k].is_dirty;
            &&& 0 <= v < s.len()
            &&& unused_clean ==> !s[v].is_used && !s[v].is_dirty && forall|j: int|
                0 <= j < v ==> (#[trigger] s[j]).is_used || s[j].is_dirty
            &&& !unused_clean && used_clean ==> s[v].is_used && !s[v].is_dirty && forall|j: int|
                0 <= j < v ==> !(#[trigger] s[j]).is_used || s[j].is_dirty
            &&& !unused_clean && !used_clean ==> s[v].is_used && s[v].is_dirty && forall|j: int|
                0 <= j < v ==> !((#[trigger] s[j]).is_used && s[j].is_dirty)
        }),
{
    lemma_clock_victim(s);
    let unused_clean = exists|k: int| 0 <= k < s.len() && !(#[trigger] s[k]).is_used && !s[k].is_dirty;
    let used_clean = exists|k: int| 0 <= k < s.len() && (#[trigger] s[k]).is_used && !s[k].is_dirty;
    if unused_clean {
        let k = choose|k: int| 0 <= k < s.len() && !(#[trigger] s[k]).is_used && !s[k].is_dirty;
        assert(s[k].is_used == false && s[k].is_dirty == false);
        assert(some_with(s, false, false));
        lemma_bottom_with(s, false, false, 0);
    } else {
        assert(!some_with(s, false, false)) by {
            if some_with(s, false, false) {
                let k = choose|k: int| 0 <= k < s.len() && (#[trigger] s[k]).is_used == false && s[k].is_dirty == false;
                assert(!s[k].is_used && !s[k].is_dirty);
            }
        }
        if used_clean {
            let k = choose|k: int| 0 <= k < s.len() && (#[trigger] s[k]).is_used && !s[k].is_dirty;
            assert(s[k].is_used == true && s[k].is_dirty == false);
            assert(some_with(s, true, false));
            lemma_bottom_with(s, true, false, 0);
        } else {
            assert(!some_with(s, true, false)) by {
                if some_with(s, true, false) {
                    let k = choose|k: int| 0 <= k < s.len() && (#[trigger] s[k]).is_used == true && s[k].is_dirty == false;
                    assert(s[k].is_used && !s[k].is_dirty);
                }
            }
            let w = choose|w: int| 0 <= w < s.len() && (!(#[trigger] s[w]).is_dirty || s[w].is_used);
            if !s[w].is_dirty {
                if s[w].is_used {
                    assert(s[w].is_used && !s[w].is_dirty);
                } else {
                    assert(!s[w].is_used && !s[w].is_dirty);
                }
            }
            assert(s[w].is_used == true && s[w].is_dirty == true);
            assert(some_with(s, true, true));
            lemma_bottom_with(s, true, true, 0);
        }
    }
}

} // verus!
