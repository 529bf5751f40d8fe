//! Tables: a table file's header page (data page 0) holds the first free page
//! (big-endian `u32` at bytes 0..4), the number of attributes (byte 4), and from
//! byte 5 on, per attribute, its type byte, the length of its name in bytes and
//! the name's UTF-8 bytes.
use vstd::prelude::*;
use vstd::utf8::{valid_utf8, decode_utf8, encode_utf8};
use crate::bytes::{be_u32_at, read_be_u32};
use crate::disk::{Disk, DiskManager, SIZE, read_block, write_block, is_new_file, law_read_after_write};
use vstd::utf8::encode_utf8_decode_utf8;
use vstd::utf8::encode_utf8_valid_utf8;
use crate::buffer_pool::BufferPool;
use crate::page::{ItemHandler, ItemManager};

verus! {

/// One attribute of a table: its name and its type.
#[derive(Clone)]
pub struct Format {
    pub attr_name: String,
    pub attr_type: u8,
}

/// The value of an attribute.
pub struct FormatView {
    pub attr_name: Seq<char>,
    pub attr_type: u8,
}

impl Format {
    pub open spec fn view(&self) -> FormatView {
        FormatView { attr_name: self.attr_name@, attr_type: self.attr_type }
    }

    /// A copy of this attribute.
    pub fn duplicate(&self) -> (r: Format)
        ensures
            r@ == self@,
    {
        Format { attr_name: self.attr_name.clone(), attr_type: self.attr_type }
    }
}

/// The values of a sequence of attributes.
pub open spec fn views(fs: Seq<Format>) -> Seq<FormatView> {
    Seq::new(fs.len(), |i: int| fs[i]@)
}

/// The string that `String::from_utf8_lossy` makes of bytes that are not valid
/// UTF-8.
pub uninterp spec fn utf8_lossy(bytes: Seq<u8>) -> Seq<char>;

/// The string that `String::from_utf8_lossy` makes of `bytes`: valid UTF-8 as it
/// is.
pub open spec fn lossy_string(bytes: Seq<u8>) -> Seq<char> {
    if valid_utf8(bytes) {
        decode_utf8(bytes)
    } else {
        utf8_lossy(bytes)
    }
}

/// Calls `String::from_utf8_lossy` and takes the string it gives. By its
/// documentation, valid UTF-8 comes back as the same string; the contract states
/// that, and names what other bytes give.
#[verifier::external_body]
pub(crate) fn string_from_bytes(bytes: &[u8]) -> (r: String)
    ensures
        r@ == lossy_string(bytes@),
        valid_utf8(bytes@) ==> r@ == decode_utf8(bytes@),
        !valid_utf8(bytes@) ==> r@ == utf8_lossy(bytes@),
{
    String::from_utf8_lossy(bytes).into_owned()
}

/// The header bytes of one attribute: type, name length (modulo 256), name.
pub open spec fn attr_record(f: FormatView) -> Seq<u8> {
    seq![f.attr_type, (encode_utf8(f.attr_name).len() % 256) as u8] + encode_utf8(f.attr_name)
}

/// The header bytes of the attributes, one after the other.
pub open spec fn attrs_encoding(attrs: Seq<FormatView>) -> Seq<u8>
    decreases attrs.len(),
{
    if attrs.len() == 0 {
        Seq::empty()
    } else {
        attr_record(attrs[0]) + attrs_encoding(attrs.drop_first())
    }
}

/// Page `p` with a table header written into it: first free page 0, the number of
/// attributes (modulo 256) and the attributes.
pub open spec fn table_header(p: Seq<u8>, attrs: Seq<FormatView>) -> Seq<u8> {
    let enc = attrs_encoding(attrs);
    Seq::new(
        p.len(),
        |k: int|
            if k < 4 {
                0u8
            } else if k == 4 {
                (attrs.len() % 256) as u8
            } else if 5 <= k < 5 + enc.len() {
                enc[k - 5]
            } else {
                p[k]
            },
    )
}

/// Whether `count` attributes can be read from `p` at `pos` without running off
/// the page.
pub open spec fn attrs_fit(p: Seq<u8>, pos: int, count: nat) -> bool
    decreases count,
{
    count == 0 || (0 <= pos && pos + 2 <= p.len() && pos + 2 + p[pos + 1] <= p.len() && attrs_fit(
        p,
        pos + 2 + p[pos + 1],
        (count - 1) as nat,
    ))
}

/// The `count` attributes read from `p` at `pos`.
pub open spec fn parse_attrs(p: Seq<u8>, pos: int, count: nat) -> Seq<FormatView>
    decreases count,
{
    if count == 0 {
        Seq::empty()
    } else {
        let size = p[pos + 1] as int;
        seq![FormatView { attr_name: lossy_string(p.subrange(pos + 2, pos + 2 + size)), attr_type: p[pos] }]
            + parse_attrs(p, pos + 2 + size, (count - 1) as nat)
    }
}

/// Whether a table header page can be read: its attributes lie within it.
pub open spec fn header_readable(p: Seq<u8>) -> bool {
    p.len() == SIZE && attrs_fit(p, 5, p[4] as nat)
}

proof fn lemma_encoding_push(attrs: Seq<FormatView>, f: FormatView)
    ensures
        attrs_encoding(attrs.push(f)) == attrs_encoding(attrs) + attr_record(f),
    decreases attrs.len(),
{
    if attrs.len() == 0 {
        assert(attrs.push(f).drop_first() =~= Seq::<FormatView>::empty());
        assert(attrs_encoding(attrs.push(f).drop_first()) == Seq::<u8>::empty());
        assert(attrs.push(f)[0] == f);
        assert(attrs_encoding(attrs.push(f)) =~= attr_record(f) + Seq::<u8>::empty());
        assert(attrs_encoding(attrs) == Seq::<u8>::empty());
        assert(attrs_encoding(attrs.push(f)) =~= attrs_encoding(attrs) + attr_record(f));
    } else {
        lemma_encoding_push(attrs.drop_first(), f);
        assert(attrs.push(f).drop_first() =~= attrs.drop_first().push(f));
        assert(attrs_encoding(attrs.push(f)) =~= attrs_encoding(attrs) + attr_record(f));
    }
}

/// Makes and opens tables; holds the buffer pool and the files.
pub struct TableManager {
    pub buffer_pool: BufferPool,
    pub disk: Disk,
}

/// An open table: its file, attributes and data pages.
pub struct TableHandler {
    pub file_name: String,
    pub attr_num: u8,
    pub attr_format: Vec<Format>,
    pub page_handler: ItemHandler,
}

impl TableManager {
    /// Writes the first free page number, big-endian, into bytes 0..4.
    fn save_free(page: &mut Vec<u8>, free_page: u32)
        requires
            old(page)@.len() == SIZE,
        ensures
            final(page)@.len() == SIZE,
            be_u32_at(final(page)@, 0) == free_page,
            forall|k: int| 4 <= k < SIZE ==> #[trigger] final(page)@[k] == old(page)@[k],
    {
        crate::bytes::write_be_u32(page, 0, free_page);
    }

    /// Writes the attributes from byte `s` on.
    fn save_attr(page: &mut Vec<u8>, attrs: &Vec<Format>, s: usize)
        requires
            old(page)@.len() == SIZE,
            s + attrs_encoding(views(attrs@)).len() <= SIZE,
        ensures
            final(page)@.len() == SIZE,
            forall|k: int|
                0 <= k < SIZE && !(s <= k < s + attrs_encoding(views(attrs@)).len()) ==> #[trigger] final(page)@[k]
                    == old(page)@[k],
            forall|k: int|
                s <= k < s + attrs_encoding(views(attrs@)).len() ==> #[trigger] final(page)@[k] == attrs_encoding(
                    views(attrs@),
                )[k - s],
    {
        let ghost all = views(attrs@);
        let ghost old_page = page@;
        let mut start = s;
        let mut i: usize = 0;
        proof {
            assert(all.take(0) =~= Seq::<FormatView>::empty());
            assert(all.take(all.len() as int) =~= all);
        }
        while i < attrs.len()
            invariant
                all == views(attrs@),
                old_page.len() == SIZE,
                page@.len() == SIZE,
                s + attrs_encoding(all).len() <= SIZE,
                i <= attrs.len(),
                start == s + attrs_encoding(all.take(i as int)).len(),
                forall|k: int| 0 <= k < SIZE && !(s <= k < start) ==> #[trigger] page@[k] == old_page[k],
                forall|k: int| s <= k < start ==> #[trigger] page@[k] == attrs_encoding(all.take(i as int))[k - s],
            decreases attrs.len() - i,
        {
            let attr = &attrs[i];
            let name = attr.attr_name.as_str().as_bytes();
            let ghost rec = attr_record(all[i as int]);
            let ghost before = page@;
            let ghost prev = attrs_encoding(all.take(i as int));
            proof {
                assert(all.take(i + 1) =~= all.take(i as int).push(all[i as int]));
                lemma_encoding_push(all.take(i as int), all[i as int]);
                lemma_prefix_encoding_len(all, (i + 1) as int);
                assert(all[i as int] == attr@);
                assert(rec =~= seq![attr.attr_type, (name@.len() % 256) as u8] + name@);
            }
            page.set(start, attr.attr_type);
            page.set(start + 1, (name.len() % 256) as u8);
            write_bytes(page, start + 2, name);
            start = start + 2 + name.len();
            i = i + 1;
            proof {
                assert(attrs_encoding(all.take(i as int)) == prev + rec);
                assert forall|k: int| s <= k < start implies #[trigger] page@[k] == attrs_encoding(all.take(i as int))[k - s] by {
                    if k < start - name@.len() - 2 {
                        assert(page@[k] == before[k]);
                    }
                }
            }
        }
        proof {
            assert(all.take(attrs.len() as int) =~= all);
        }
    }

    /// Creates the table file `file_name` with `size` blocks and writes its header
    /// page: first free page 0, the number of attributes and the attributes.
    pub fn create_table(&mut self, file_name: &str, attrs: Vec<Format>, size: u32) -> (r: TableHandler)
        requires
            old(self).disk.wf(),
            !old(self).disk.view().dom().contains(file_name@),
            size as int * SIZE <= usize::MAX,
            2 * SIZE <= usize::MAX,
            5 + attrs_encoding(views(attrs@)).len() <= SIZE,
        ensures
            final(self).disk.wf(),
            final(self).buffer_pool == old(self).buffer_pool,
            exists|c: Seq<u8>|
                is_new_file(c, size) && #[trigger] final(self).disk.view() == old(self).disk.view().insert(
                    file_name@,
                    write_block(c, 1, table_header(read_block(c, 1), views(attrs@))),
                ),
            r.file_name@ == file_name@,
            r.attr_num == (attrs@.len() % 256) as u8,
            views(r.attr_format@) == views(attrs@),
            r.page_handler.file_name@ == file_name@,
            r.page_handler.free_page == 0,
    {
        let disk_handler = DiskManager::create_file(&mut self.disk, file_name, size);
        let ghost c = self.disk.view()[file_name@];
        let mut page = disk_handler.get_page(&self.disk, 0);
        let ghost p0 = page@;
        let mut c_attrs: Vec<Format> = Vec::new();
        let mut i: usize = 0;
        while i < attrs.len()
            invariant
                i <= attrs.len(),
                c_attrs@.len() == i,
                forall|k: int| 0 <= k < i ==> (#[trigger] c_attrs@[k])@ == attrs@[k]@,
            decreases attrs.len() - i,
        {
            c_attrs.push(attrs[i].duplicate());
            i = i + 1;
        }
        assert(views(c_attrs@) =~= views(attrs@));
        TableManager::save_free(&mut page, 0u32);
        let attr_num = (attrs.len() % 256) as u8;
        page.set(4, attr_num);
        TableManager::save_attr(&mut page, &attrs, 5);
        proof {
            assert(page@ =~= table_header(p0, views(attrs@)));
        }
        disk_handler.flush_page(&mut self.disk, 0, page);
        let name = file_name.to_owned();
        TableHandler {
            file_name: name.clone(),
            attr_num,
            attr_format: c_attrs,
            page_handler: ItemManager::new_item_handler(name, 0),
        }
    }

    /// Opens the table file `file_name`: reads its header page.
    pub fn open_table(&self, file_name: &str) -> (r: TableHandler)
        requires
            self.disk.wf(),
            self.disk.view().dom().contains(file_name@),
            header_readable(read_block(self.disk.view()[file_name@], 1)),
        ensures
            ({
                let p = read_block(self.disk.view()[file_name@], 1);
                &&& r.file_name@ == file_name@
                &&& r.attr_num == p[4]
                &&& views(r.attr_format@) == parse_attrs(p, 5, p[4] as nat)
                &&& r.page_handler.file_name@ == file_name@
                &&& r.page_handler.free_page == be_u32_at(p, 0)
            }),
    {
        let disk_handler = DiskManager::get_file(&self.disk, file_name);
        let page = disk_handler.get_page(&self.disk, 0);
        TableHandler::get_table_handler(file_name, &page)
    }
}

/// Writes `bytes` into `page[at..at + bytes.len()]`.
fn write_bytes(page: &mut Vec<u8>, at: usize, bytes: &[u8])
    requires
        at + bytes@.len() <= old(page)@.len(),
        at + bytes@.len() <= usize::MAX,
    ensures
        final(page)@.len() == old(page)@.len(),
        forall|k: int|
            0 <= k < old(page)@.len() && !(at <= k < at + bytes@.len()) ==> #[trigger] final(page)@[k] == old(page)@[k],
        forall|k: int| at <= k < at + bytes@.len() ==> #[trigger] final(page)@[k] == bytes@[k - at],
{
    let mut index: usize = 0;
    while index < bytes.len()
        invariant
            page@.len() == old(page)@.len(),
            at + bytes@.len() <= page@.len(),
            at + bytes@.len() <= usize::MAX,
            index <= bytes@.len(),
            forall|k: int|
                0 <= k < page@.len() && !(at <= k < at + index) ==> #[trigger] page@[k] == old(page)@[k],
            forall|k: int| at <= k < at + index ==> #[trigger] page@[k] == bytes@[k - at],
        decreases bytes@.len() - index,
    {
        page.set(at + index, bytes[index]);
        index += 1;
    }
}

proof fn lemma_prefix_encoding_len(all: Seq<FormatView>, i: int)
    requires
        0 <= i <= all.len(),
    ensures
        attrs_encoding(all.take(i)).len() <= attrs_encoding(all).len(),
    decreases all.len() - i,
{
    if i < all.len() {
        lemma_prefix_encoding_len(all, i + 1);
        assert(all.take(i + 1) =~= all.take(i).push(all[i]));
        lemma_encoding_push(all.take(i), all[i]);
    } else {
        assert(all.take(i) =~= all);
    }
}

impl TableHandler {
    /// Reads a table header page: the first free page, the number of attributes and
    /// the attributes (names decoded with `String::from_utf8_lossy`).
    fn get_table_handler(file_name: &str, page: &Vec<u8>) -> (r: TableHandler)
        requires
            header_readable(page@),
        ensures
            r.file_name@ == file_name@,
            r.attr_num == page@[4],
            views(r.attr_format@) == parse_attrs(page@, 5, page@[4] as nat),
            r.page_handler.file_name@ == file_name@,
            r.page_handler.free_page == be_u32_at(page@, 0),
    {
        let free_id = read_be_u32(page, 0);
        let attr_num = page[4];
        let mut formats: Vec<Format> = Vec::new();
        let mut start: usize = 5;
        let mut index: u8 = 0;
        let ghost p = page@;
        while index < attr_num
            invariant
                p == page@,
                p.len() == SIZE,
                attr_num == p[4],
                index <= attr_num,
                attrs_fit(p, start as int, (attr_num - index) as nat),
                views(formats@) + parse_attrs(p, start as int, (attr_num - index) as nat) == parse_attrs(
                    p,
                    5,
                    attr_num as nat,
                ),
            decreases attr_num - index,
        {
            let ghost pos = start as int;
            let attr_type = page[start];
            start += 1;
            let attr_size = page[start];
            start += 1;
            proof {
                assert(start + attr_size <= SIZE);
            }
            let name = crate::page::copy_range(page, start, start + attr_size as usize);
            start = start + attr_size as usize;
            let attr_name = string_from_bytes(name.as_slice());
            let ghost before = views(formats@);
            formats.push(Format { attr_name, attr_type });
            proof {
                let f = FormatView { attr_name: attr_name@, attr_type };
                assert(parse_attrs(p, pos, (attr_num - index) as nat) == seq![f] + parse_attrs(
                    p,
                    start as int,
                    (attr_num - index - 1) as nat,
                ));
                assert(views(formats@) =~= before.push(f));
                assert(before.push(f) + parse_attrs(p, start as int, (attr_num - index - 1) as nat) =~= before + (
                seq![f] + parse_attrs(p, start as int, (attr_num - index - 1) as nat)));
            }
            index += 1;
        }
        proof {
            assert(views(formats@) =~= views(formats@) + Seq::<FormatView>::empty());
        }
        let name = file_name.to_owned();
        TableHandler {
            file_name: name.clone(),
            attr_num,
            attr_format: formats,
            page_handler: ItemManager::new_item_handler(name, free_id),
        }
    }
}

/// Whether attributes can be written into a table header and read back as they
/// are: fewer than 256 of them, each name shorter than 256 bytes, all within the
/// page.
pub open spec fn attrs_storable(attrs: Seq<FormatView>) -> bool {
    &&& attrs.len() < 256
    &&& forall|i: int| 0 <= i < attrs.len() ==> encode_utf8((#[trigger] attrs[i]).attr_name).len() < 256
    &&& 5 + attrs_encoding(attrs).len() <= SIZE
}

proof fn lemma_parse_encoding(p: Seq<u8>, pos: int, attrs: Seq<FormatView>)
    requires
        0 <= pos,
        pos + attrs_encoding(attrs).len() <= p.len(),
        p.subrange(pos, pos + attrs_encoding(attrs).len()) == attrs_encoding(attrs),
        forall|i: int| 0 <= i < attrs.len() ==> encode_utf8((#[trigger] attrs[i]).attr_name).len() < 256,
    ensures
        attrs_fit(p, pos, attrs.len()),
        parse_attrs(p, pos, attrs.len()) == attrs,
    decreases attrs.len(),
{
    if attrs.len() > 0 {
        let f = attrs[0];
        let bytes = encode_utf8(f.attr_name);
        let rest = attrs.drop_first();
        let enc = attrs_encoding(attrs);
        let r = attr_record(f);
        assert(enc == r + attrs_encoding(rest));
        assert(encode_utf8(attrs[0].attr_name).len() < 256);
        assert(p[pos] == enc[0]);
        assert(p[pos + 1] == enc[1]);
        assert(p[pos + 1] == bytes.len());
        let next = pos + 2 + bytes.len();
        assert(p.subrange(pos + 2, next) =~= bytes) by {
            assert forall|k: int| 0 <= k < bytes.len() implies #[trigger] p.subrange(pos + 2, next)[k] == bytes[k] by {
                assert(p[pos + 2 + k] == enc[2 + k]);
            }
        }
        assert(p.subrange(next, next + attrs_encoding(rest).len()) =~= attrs_encoding(rest)) by {
            assert forall|k: int| 0 <= k < attrs_encoding(rest).len() implies #[trigger] p.subrange(
                next,
                next + attrs_encoding(rest).len(),
            )[k] == attrs_encoding(rest)[k] by {
                assert(p[next + k] == enc[r.len() + k]);
            }
        }
        assert forall|i: int| 0 <= i < rest.len() implies encode_utf8((#[trigger] rest[i]).attr_name).len() < 256 by {
            assert(rest[i] == attrs[i + 1]);
        }
        lemma_parse_encoding(p, next, rest);
        encode_utf8_valid_utf8(f.attr_name);
        encode_utf8_decode_utf8(f.attr_name);
        assert(parse_attrs(p, pos, attrs.len()) =~= seq![f] + rest);
        assert(seq![f] + rest =~= attrs);
    }
}

/// Reading a table back: the header page that `create_table` writes, read by
/// `open_table`, gives the attributes as they were given, their number, and first
/// free page 0, for attributes that `attrs_storable` admits.
pub proof fn law_open_after_create(p: Seq<u8>, attrs: Seq<FormatView>)
    requires
        p.len() == SIZE,
        attrs_storable(attrs),
    ensures
        header_readable(table_header(p, attrs)),
        table_header(p, attrs)[4] == attrs.len(),
        parse_attrs(table_header(p, attrs), 5, table_header(p, attrs)[4] as nat) == attrs,
        be_u32_at(table_header(p, attrs), 0) == 0,
{
    let q = table_header(p, attrs);
    let enc = attrs_encoding(attrs);
    assert(q.subrange(5, 5 + enc.len() as int) =~= enc);
    lemma_parse_encoding(q, 5, attrs);
}

/// Reading a table back through the files: after `create_table`, the file's
/// header page, read as `open_table` reads it, holds the attributes given.
pub proof fn law_open_after_create_file(c: Seq<u8>, attrs: Seq<FormatView>)
    requires
        attrs_storable(attrs),
    ensures
        ({
            let f = write_block(c, 1, table_header(read_block(c, 1), attrs));
            let p = read_block(f, 1);
            &&& header_readable(p)
            &&& p[4] == attrs.len()
            &&& parse_attrs(p, 5, p[4] as nat) == attrs
            &&& be_u32_at(p, 0) == 0
        }),
{
    law_read_after_write(c, 1, table_header(read_block(c, 1), attrs));
    law_open_after_create(read_block(c, 1), attrs);
}

/// The values of a record of `count` values stored from `pos` on, each a length
/// byte followed by that many bytes; `None` unless the record ends exactly after
/// the last value.
pub open spec fn split_fields(b: Seq<u8>, pos: int, count: nat) -> Option<Seq<Seq<u8>>>
    decreases count,
{
    if count == 0 {
        if pos == b.len() {
            Some(Seq::empty())
        } else {
            None
        }
    } else if 0 <= pos < b.len() && pos + 1 + b[pos] <= b.len() {
        match split_fields(b, pos + 1 + b[pos], (count - 1) as nat) {
            Some(rest) => Some(seq![b.subrange(pos + 1, pos + 1 + b[pos])] + rest),
            None => None,
        }
    } else {
        None
    }
}

impl TableHandler {
    /// Splits a stored record into its values, one per attribute: each value is a
    /// length byte followed by that many bytes. `None` where the record is not
    /// exactly that.
    pub fn parse_item(&self, item: &Vec<u8>) -> (r: Option<Vec<Vec<u8>>>)
        ensures
            match r {
                Some(v) => split_fields(item@, 0, self.attr_num as nat) == Some(
                    Seq::new(v@.len(), |i: int| v@[i]@),
                ),
                None => split_fields(item@, 0, self.attr_num as nat) is None,
            },
    {
        let mut fields: Vec<Vec<u8>> = Vec::new();
        let mut pos: usize = 0;
        let mut index: u8 = 0;
        while index < self.attr_num
            invariant
                index <= self.attr_num,
                pos <= item@.len(),
                ({
                    let got = Seq::new(fields@.len(), |i: int| fields@[i]@);
                    match split_fields(item@, pos as int, (self.attr_num - index) as nat) {
                        Some(rest) => split_fields(item@, 0, self.attr_num as nat) == Some(got + rest),
                        None => split_fields(item@, 0, self.attr_num as nat) is None,
                    }
                }),
            decreases self.attr_num - index,
        {
            if pos >= item.len() {
                return None;
            }
            let size = item[pos] as usize;
            if size > item.len() - pos - 1 {
                return None;
            }
            let ghost got = Seq::new(fields@.len(), |i: int| fields@[i]@);
            let field = crate::page::copy_range(item, pos + 1, pos + 1 + size);
            fields.push(field);
            proof {
                let got2 = Seq::new(fields@.len(), |i: int| fields@[i]@);
                assert(got2 =~= got.push(field@));
                match split_fields(item@, (pos + 1 + size) as int, (self.attr_num - index - 1) as nat) {
                    Some(rest) => {
                        assert(got2 + rest =~= got + (seq![field@] + rest));
                    },
                    None => {},
                }
            }
            pos = pos + 1 + size;
            index = index + 1;
        }
        if pos != item.len() {
            return None;
        }
        proof {
            let got = Seq::new(fields@.len(), |i: int| fields@[i]@);
            assert(got + Seq::<Seq<u8>>::empty() =~= got);
        }
        Some(fields)
    }
}

} // verus!
