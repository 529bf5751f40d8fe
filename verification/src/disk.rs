//! Database files as the storage engine sees them: named byte sequences made of
//! `SIZE`-byte blocks. Block 0 of a file is its header block; data page `n`
//! lives in block `n + 1`.
use vstd::prelude::*;
use crate::bytes::{le_u32_at, be_u32_at};
use rand::AsByteSliceMut;

verus! {

/// Size in bytes of a block of a database file, and of a page.
pub const SIZE: usize = 4096;

/// Exclusive upper bound on page ids whose byte position `(id + 1) * SIZE`
/// fits in a `u32`.
pub const PAGE_ID_LIMIT: u32 = 1048575;

/// The `SIZE` bytes that a read of block `block` gives: the file's bytes there,
/// and zeros past its end.
pub open spec fn read_block(data: Seq<u8>, block: int) -> Seq<u8> {
    Seq::new(SIZE as nat, |k: int| if block * SIZE + k < data.len() { data[block * SIZE + k] } else { 0u8 })
}

/// The file's bytes after writing `buf` at block `block`: a write past the end
/// fills the gap with zeros and extends the file.
pub open spec fn write_block(data: Seq<u8>, block: int, buf: Seq<u8>) -> Seq<u8> {
    let start = block * SIZE;
    let new_len = if data.len() >= start + buf.len() { data.len() as int } else { start + buf.len() };
    Seq::new(
        new_len as nat,
        |k: int|
            if start <= k < start + buf.len() {
                buf[k - start]
            } else if k < data.len() {
                data[k]
            } else {
                0u8
            },
    )
}

/// One database file: its name and its bytes.
pub struct DiskFile {
    pub file_name: String,
    pub data: Vec<u8>,
}

/// The set of database files, each named once.
pub struct Disk {
    files: Vec<DiskFile>,
}

impl View for Disk {
    type V = Map<Seq<char>, Seq<u8>>;

    /// The files' contents by name.
    closed spec fn view(&self) -> Map<Seq<char>, Seq<u8>> {
        Map::new(|n: Seq<char>| self.has_file(n), |n: Seq<char>| self.files@[self.index_of(n)].data@)
    }
}

impl Disk {
    /// No two files share a name.
    pub closed spec fn wf(&self) -> bool {
        forall|i: int, j: int|
            0 <= i < j < self.files.len() ==> #[trigger] self.files@[i].file_name@
                != #[trigger] self.files@[j].file_name@
    }

    pub closed spec fn has_file(&self, name: Seq<char>) -> bool {
        exists|i: int| 0 <= i < self.files.len() && #[trigger] self.files@[i].file_name@ == name
    }

    pub closed spec fn index_of(&self, name: Seq<char>) -> int {
        choose|i: int| 0 <= i < self.files.len() && #[trigger] self.files@[i].file_name@ == name
    }


    /// An empty set of files.
    pub fn new() -> (r: Disk)
        ensures
            r.wf(),
            r.view() == Map::<Seq<char>, Seq<u8>>::empty(),
    {
        let r = Disk { files: Vec::new() };
        assert(r.view() =~= Map::<Seq<char>, Seq<u8>>::empty());
        r
    }

    /// The position of the file named `name`, if there is one.
    fn find(&self, name: &String) -> (r: Option<usize>)
        requires
            self.wf(),
        ensures
            r is None <==> !self.view().dom().contains(name@),
            r matches Some(i) ==> i < self.files.len() && i == self.index_of(name@)
                && self.files@[i as int].file_name@ == name@,
    {
        let mut i: usize = 0;
        while i < self.files.len()
            invariant
                self.wf(),
                i <= self.files.len(),
                forall|j: int| 0 <= j < i ==> #[trigger] self.files@[j].file_name@ != name@,
            decreases self.files.len() - i,
        {
            if self.files[i].file_name == *name {
                proof {
                    assert(self.has_file(name@));
                    let c = self.index_of(name@);
                    assert(self.files@[c].file_name@ == name@);
                    if c != i {
                        if c < i {
                            assert(self.files@[c].file_name@ != self.files@[i as int].file_name@);
                        } else {
                            assert(self.files@[i as int].file_name@ != self.files@[c].file_name@);
                        }
                    }
                }
                return Some(i);
            }
            i = i + 1;
        }
        None
    }

    /// The bytes of the file named `name`, if there is one.
    pub fn file_data(&self, name: &String) -> (r: Option<Vec<u8>>)
        requires
            self.wf(),
        ensures
            match r {
                Some(d) => self.view().dom().contains(name@) && d@ == self.view()[name@],
                None => !self.view().dom().contains(name@),
            },
    {
        match self.find(name) {
            Some(i) => Some(self.files[i].data.clone()),
            None => None,
        }
    }

    /// Replaces the bytes of the file at position `i`.
    fn set_data(&mut self, i: usize, data: Vec<u8>)
        requires
            old(self).wf(),
            i < old(self).files.len(),
        ensures
            final(self).wf(),
            final(self).view() == old(self).view().insert(old(self).files@[i as int].file_name@, data@),
    {
        let ghost old_self = *self;
        let ghost n = self.files@[i as int].file_name@;
        let ghost d = data@;
        let name = self.files[i].file_name.clone();
        self.files.set(i, DiskFile { file_name: name, data });
        proof {
            assert(self.files@[i as int].file_name@ == n);
            assert forall|a: int, b: int|
                0 <= a < b < self.files.len() implies #[trigger] self.files@[a].file_name@
                != #[trigger] self.files@[b].file_name@ by {
                assert(old_self.files@[a].file_name@ == self.files@[a].file_name@);
                assert(old_self.files@[b].file_name@ == self.files@[b].file_name@);
            }
            assert forall|m: Seq<char>| #[trigger] self.has_file(m) == old_self.has_file(m) by {
                if old_self.has_file(m) {
                    let k = old_self.index_of(m);
                    assert(self.files@[k].file_name@ == old_self.files@[k].file_name@);
                }
                if self.has_file(m) {
                    let k = self.index_of(m);
                    assert(self.files@[k].file_name@ == old_self.files@[k].file_name@);
                }
            }
            assert forall|m: Seq<char>| #[trigger] self.has_file(m) implies self.files@[self.index_of(m)].data@
                == old_self.view().insert(n, d)[m] by {
                let k = self.index_of(m);
                let k2 = old_self.index_of(m);
                assert(self.files@[k2].file_name@ == old_self.files@[k2].file_name@);
                if k != k2 {
                    if k < k2 {
                        assert(self.files@[k].file_name@ != self.files@[k2].file_name@);
                    } else {
                        assert(self.files@[k2].file_name@ != self.files@[k].file_name@);
                    }
                }
                if m != n {
                    assert(k != i);
                }
            }
            assert(self.view() =~= old_self.view().insert(n, d));
        }
    }

    /// Adds a file named `name` holding `data`; nothing happens where a file of that
    /// name exists already.
    pub fn add_file(&mut self, name: String, data: Vec<u8>) -> (added: bool)
        requires
            old(self).wf(),
        ensures
            final(self).wf(),
            added == !old(self).view().dom().contains(name@),
            added ==> final(self).view() == old(self).view().insert(name@, data@),
            !added ==> final(self).view() == old(self).view(),
    {
        match self.find(&name) {
            Some(_) => false,
            None => {
                let ghost old_self = *self;
                let ghost n = name@;
                let ghost d = data@;
                self.files.push(DiskFile { file_name: name, data });
                proof {
                    let len = old_self.files.len() as int;
                    assert(self.files@[len].file_name@ == n);
                    assert forall|i: int, j: int|
                        0 <= i < j < self.files.len() implies #[trigger] self.files@[i].file_name@
                        != #[trigger] self.files@[j].file_name@ by {
                        if j == len {
                            assert(!old_self.has_file(n));
                            assert(old_self.files@[i] == self.files@[i]);
                        } else {
                            assert(old_self.files@[i] == self.files@[i]);
                            assert(old_self.files@[j] == self.files@[j]);
                        }
                    }
                    assert forall|m: Seq<char>| #[trigger] self.has_file(m) == (old_self.has_file(m) || m == n) by {
                        if old_self.has_file(m) {
                            let k = old_self.index_of(m);
                            assert(self.files@[k] == old_self.files@[k]);
                        }
                        if self.has_file(m) && m != n {
                            let k = self.index_of(m);
                            assert(k != len);
                            assert(self.files@[k] == old_self.files@[k]);
                        }
                    }
                    assert forall|m: Seq<char>| #[trigger] self.has_file(m) implies self.files@[self.index_of(m)].data@
                        == old_self.view().insert(n, d)[m] by {
                        let k = self.index_of(m);
                        if m == n {
                            if k != len {
                                assert(self.files@[k] == old_self.files@[k]);
                                assert(old_self.has_file(n));
                            }
                        } else {
                            let k2 = old_self.index_of(m);
                            assert(self.files@[k2] == old_self.files@[k2]);
                            if k != k2 {
                                if k < k2 {
                                    assert(self.files@[k].file_name@ != self.files@[k2].file_name@);
                                } else {
                                    assert(self.files@[k2].file_name@ != self.files@[k].file_name@);
                                }
                            }
                        }
                    }
                    assert(self.view() =~= old_self.view().insert(n, d));
                }
                true
            },
        }
    }
}

/// The `SIZE` bytes of block `block` of `data` (zeros past its end).
fn copy_block(data: &Vec<u8>, block: usize) -> (r: Vec<u8>)
    requires
        block * SIZE <= usize::MAX,
    ensures
        r@ == read_block(data@, block as int),
{
    let start = block * SIZE;
    let mut r: Vec<u8> = Vec::new();
    let mut k: usize = 0;
    while k < SIZE
        invariant
            start == block * SIZE,
            k <= SIZE,
            r@.len() == k,
            forall|j: int| 0 <= j < k ==> #[trigger] r@[j] == read_block(data@, block as int)[j],
        decreases SIZE - k,
    {
        if k < data.len() && start <= data.len() - k {
            if start + k < data.len() {
                r.push(data[start + k]);
            } else {
                r.push(0u8);
            }
        } else {
            r.push(0u8);
        }
        k = k + 1;
    }
    assert(r@ =~= read_block(data@, block as int));
    r
}

/// `data` with `buf` written at block `block`.
fn store_block(data: &Vec<u8>, block: usize, buf: &Vec<u8>) -> (r: Vec<u8>)
    requires
        block * SIZE + buf.len() <= usize::MAX,
    ensures
        r@ == write_block(data@, block as int, buf@),
{
    let start = block * SIZE;
    let ghost target = write_block(data@, block as int, buf@);
    let mut r: Vec<u8> = Vec::new();
    let end = if data.len() >= start + buf.len() { data.len() } else { start + buf.len() };
    let mut k: usize = 0;
    while k < end
        invariant
            start == block * SIZE,
            end == target.len(),
            start + buf.len() <= usize::MAX,
            k <= end,
            r@.len() == k,
            target == write_block(data@, block as int, buf@),
            forall|j: int| 0 <= j < k ==> #[trigger] r@[j] == target[j],
        decreases end - k,
    {
        if start <= k && k < start + buf.len() {
            r.push(buf[k - start]);
        } else if k < data.len() {
            r.push(data[k]);
        } else {
            r.push(0u8);
        }
        k = k + 1;
    }
    assert(r@ =~= target);
    r
}

/// What the header block of a new file holds: its length is `SIZE`, and every
/// byte but the first four (which hold the page count in the machine's byte
/// order) is zero.
pub open spec fn is_new_header_block(block: Seq<u8>) -> bool {
    &&& block.len() == SIZE
    &&& forall|k: int| 4 <= k < SIZE ==> #[trigger] block[k] == 0
}

/// The bytes of a new file of `page_size` blocks: a header block followed by
/// zero blocks, at least one block in all.
pub open spec fn is_new_file(data: Seq<u8>, page_size: u32) -> bool {
    &&& data.len() == (if page_size == 0 { 1 } else { page_size as int }) * SIZE
    &&& is_new_header_block(data.subrange(0, SIZE as int))
    &&& forall|k: int| SIZE <= k < data.len() ==> #[trigger] data[k] == 0
}

/// Calls `rand::AsByteSliceMut::as_byte_slice_mut` on the words and copies out
/// the bytes it shows: the words' own memory, four bytes per word, in the
/// machine's byte order. The contract states that there are four bytes per word,
/// that a zero word shows four zero bytes, and that every word shows either its
/// little-endian bytes or (for all words alike) its big-endian bytes; which of the
/// two is the machine's and is left unsaid.
#[verifier::external_body]
fn words_as_bytes(words: &mut Vec<u32>) -> (r: Vec<u8>)
    ensures
        final(words)@ == old(words)@,
        r@.len() == 4 * old(words)@.len(),
        forall|j: int| 0 <= j < r@.len() && old(words)@[j / 4] == 0 ==> #[trigger] r@[j] == 0,
        (forall|w: int| 0 <= w < old(words)@.len() ==> le_u32_at(r@, 4 * w) == #[trigger] old(words)@[w])
            || (forall|w: int| 0 <= w < old(words)@.len() ==> be_u32_at(r@, 4 * w) == #[trigger] old(words)@[w]),
{
    words.as_mut_slice().as_byte_slice_mut().to_vec()
}

/// Number of blocks of a page file, found in block 0 of the file.
pub struct DiskHeader {
    pub page_number: u32,
}

/// A handle on one database file.
pub struct DiskHandler {
    pub disk_header: DiskHeader,
    pub file_name: String,
}

/// Creates and opens database files.
pub struct DiskManager {}

impl DiskManager {
    /// Creates the file `file_name` with `page_size` blocks (at least one): a header
    /// block that holds `page_size` in its first four bytes, then zero blocks.
    pub fn create_file(disk: &mut Disk, file_name: &str, page_size: u32) -> (h: DiskHandler)
        requires
            old(disk).wf(),
            !old(disk).view().dom().contains(file_name@),
            page_size as int * SIZE <= usize::MAX,
        ensures
            final(disk).wf(),
            h.file_name@ == file_name@,
            h.disk_header.page_number == page_size,
            final(disk).view() == old(disk).view().insert(file_name@, final(disk).view()[file_name@]),
            is_new_file(final(disk).view()[file_name@], page_size),
            le_u32_at(final(disk).view()[file_name@], 0) == page_size || be_u32_at(
                final(disk).view()[file_name@],
                0,
            ) == page_size,
    {
        let mut words: Vec<u32> = Vec::new();
        let mut i: usize = 0;
        while i < 1024
            invariant
                i <= 1024,
                words@.len() == i,
                forall|j: int| 0 <= j < i ==> #[trigger] words@[j] == 0,
            decreases 1024 - i,
        {
            words.push(0u32);
            i = i + 1;
        }
        let zero_block = words_as_bytes(&mut words);
        words.set(0, page_size);
        let ghost header_words = words@;
        let header_block = words_as_bytes(&mut words);
        proof {
            assert(header_words[0] == page_size);
        }
        let mut data: Vec<u8> = Vec::new();
        let mut k: usize = 0;
        while k < SIZE
            invariant
                k <= SIZE,
                header_block@.len() == SIZE,
                data@.len() == k,
                forall|j: int| 0 <= j < k ==> #[trigger] data@[j] == header_block@[j],
            decreases SIZE - k,
        {
            data.push(header_block[k]);
            k = k + 1;
        }
        assert(data@ =~= header_block@);
        assert(le_u32_at(data@, 0) == page_size || be_u32_at(data@, 0) == page_size);
        assert forall|j: int| 4 <= j < SIZE implies #[trigger] data@[j] == 0 by {
            assert(words@[j / 4] == 0);
        }
        let mut index: u32 = 1;
        while index < page_size
            invariant
                1 <= index,
                index <= page_size || page_size == 0,
                page_size == 0 ==> index == 1,
                page_size as int * SIZE <= usize::MAX,
                data@.len() == index * SIZE,
                le_u32_at(data@, 0) == page_size || be_u32_at(data@, 0) == page_size,
                zero_block@.len() == SIZE,
                forall|j: int| 0 <= j < SIZE ==> #[trigger] zero_block@[j] == 0,
                forall|j: int| 4 <= j < SIZE ==> #[trigger] data@[j] == 0,
                forall|j: int| SIZE <= j < data@.len() ==> #[trigger] data@[j] == 0,
            decreases page_size - index,
        {
            let mut k: usize = 0;
            let ghost before = data@;
            while k < SIZE
                invariant
                    k <= SIZE,
                    zero_block@.len() == SIZE,
                    forall|j: int| 0 <= j < SIZE ==> #[trigger] zero_block@[j] == 0,
                    data@.len() == before.len() + k,
                    forall|j: int| 0 <= j < before.len() ==> #[trigger] data@[j] == before[j],
                    forall|j: int| before.len() <= j < data@.len() ==> #[trigger] data@[j] == 0,
                decreases SIZE - k,
            {
                data.push(zero_block[k]);
                k = k + 1;
            }
            index = index + 1;
        }
        if page_size == 0 {
            assert(data@.len() == 1 * SIZE);
        } else {
            assert(index == page_size);
            assert(data@.len() == page_size as int * SIZE);
        }
        assert(is_new_header_block(data@.subrange(0, SIZE as int)));
        assert(is_new_file(data@, page_size));
        let name = file_name.to_owned();
        let h = DiskHandler { disk_header: DiskHeader { page_number: page_size }, file_name: name.clone() };
        let ghost d = data@;
        disk.add_file(name, data);
        assert(disk.view()[file_name@] == d);
        h
    }

    /// Opens the file `file_name`: its page count is the little-endian `u32` at the
    /// start of its header block.
    pub fn get_file(disk: &Disk, file_name: &str) -> (h: DiskHandler)
        requires
            disk.wf(),
            disk.view().dom().contains(file_name@),
        ensures
            h.file_name@ == file_name@,
            h.disk_header.page_number == le_u32_at(read_block(disk.view()[file_name@], 0), 0),
    {
        let name = file_name.to_owned();
        let i = disk.find(&name).unwrap();
        let block = copy_block(&disk.files[i].data, 0);
        let size = crate::bytes::read_le_u32(&block, 0);
        DiskHandler { disk_header: DiskHeader { page_number: size }, file_name: name }
    }
}

impl DiskHandler {
    /// Reads page `page_id`, that is block `page_id + 1` of the file.
    pub fn get_page(&self, disk: &Disk, page_id: u32) -> (page: Vec<u8>)
        requires
            disk.wf(),
            disk.view().dom().contains(self.file_name@),
            page_id < PAGE_ID_LIMIT,
        ensures
            page@ == read_block(disk.view()[self.file_name@], page_id + 1),
    {
        let i = disk.find(&self.file_name).unwrap();
        let block = page_id as usize + 1;
        copy_block(&disk.files[i].data, block)
    }

    /// Writes `buffer` as page `page_id`, that is block `page_id + 1` of the file.
    pub fn flush_page(&self, disk: &mut Disk, page_id: u32, buffer: Vec<u8>)
        requires
            old(disk).wf(),
            old(disk).view().dom().contains(self.file_name@),
            page_id < PAGE_ID_LIMIT,
            (page_id + 2) * SIZE <= usize::MAX,
            buffer@.len() == SIZE,
        ensures
            final(disk).wf(),
            final(disk).view() == old(disk).view().insert(
                self.file_name@,
                write_block(old(disk).view()[self.file_name@], page_id + 1, buffer@),
            ),
    {
        let i = disk.find(&self.file_name).unwrap();
        let block = page_id as usize + 1;
        let data = store_block(&disk.files[i].data, block, &buffer);
        disk.set_data(i, data);
    }
}

/// Reading back a flushed page: `get_page` of a page after `flush_page` of it gives
/// the bytes flushed.
pub proof fn law_read_after_write(data: Seq<u8>, block: int, buf: Seq<u8>)
    requires
        0 <= block,
        buf.len() == SIZE,
    ensures
        read_block(write_block(data, block, buf), block) == buf,
{
    assert(read_block(write_block(data, block, buf), block) =~= buf);
}

/// A flush of one page leaves every other page as it was.
pub proof fn law_write_keeps_other_blocks(data: Seq<u8>, block: int, buf: Seq<u8>, other: int)
    requires
        0 <= block,
        0 <= other,
        other != block,
        buf.len() == SIZE,
    ensures
        read_block(write_block(data, block, buf), other) == read_block(data, other),
{
    let w = write_block(data, block, buf);
    assert forall|k: int| 0 <= k < SIZE implies #[trigger] read_block(w, other)[k] == read_block(data, other)[k] by {
        let a = other * SIZE + k;
        if other < block {
            assert(a < block * SIZE);
        } else {
            assert(a >= block * SIZE + SIZE);
        }
    }
    assert(read_block(w, other) =~= read_block(data, other));
}

} // verus!
