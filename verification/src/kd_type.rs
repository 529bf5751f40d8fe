//! The types file (`types.setting`): per type its object id (big-endian `u32`),
//! its kind letter (one byte), its length, the length of its name and the name.
//! The file is read through a buffer of 512 bytes.
use vstd::prelude::*;
use vstd::utf8::{encode_utf8, encode_utf8_decode_utf8, encode_utf8_valid_utf8};
use crate::bytes::{be_u32_at, be_u32_bytes, read_be_u32, write_be_u32, lemma_be_u32_bytes};
use crate::record::lossy_string;
use crate::global::{Global, OID};
use crate::kd_database::{in_buffer, SETTING_BUFFER_SIZE};

verus! {

/// A data type: its name, object id, kind letter and length in bytes (0 where it
/// varies).
pub struct kd_type {
    pub typ_name: String,
    pub typ_oid: OID,
    pub typ_type: char,
    pub typ_len: u8,
}

/// The value of a type.
pub struct TypeView {
    pub typ_name: Seq<char>,
    pub typ_oid: u32,
    pub typ_type: char,
    pub typ_len: u8,
}

impl kd_type {
    pub open spec fn view(&self) -> TypeView {
        TypeView { typ_name: self.typ_name@, typ_oid: self.typ_oid, typ_type: self.typ_type, typ_len: self.typ_len }
    }
}

/// The values of a sequence of types.
pub open spec fn type_views(ts: Seq<kd_type>) -> Seq<TypeView> {
    Seq::new(ts.len(), |i: int| ts[i]@)
}

/// The kind letter's byte: the low eight bits of its code.
pub open spec fn kind_byte(c: char) -> u8 {
    (c as u32 % 256) as u8
}

/// The bytes of one type.
pub open spec fn type_record(t: TypeView) -> Seq<u8> {
    be_u32_bytes(t.typ_oid) + seq![kind_byte(t.typ_type), t.typ_len, (encode_utf8(t.typ_name).len() % 256) as u8]
        + encode_utf8(t.typ_name)
}

/// The bytes of the types, one after the other.
pub open spec fn types_encoding(ts: Seq<TypeView>) -> Seq<u8>
    decreases ts.len(),
{
    if ts.len() == 0 {
        Seq::empty()
    } else {
        type_record(ts[0]) + types_encoding(ts.drop_first())
    }
}

/// Whether `count` types can be read from `b` at `off`.
pub open spec fn types_fit(b: Seq<u8>, off: int, count: nat) -> bool
    decreases count,
{
    count == 0 || (0 <= off && off + 7 <= b.len() && off + 7 + b[off + 6] <= b.len() && types_fit(
        b,
        off + 7 + b[off + 6],
        (count - 1) as nat,
    ))
}

/// The `count` types read from `b` at `off`.
pub open spec fn parse_types(b: Seq<u8>, off: int, count: nat) -> Seq<TypeView>
    decreases count,
{
    if count == 0 {
        Seq::empty()
    } else {
        let size = b[off + 6] as int;
        seq![TypeView {
            typ_oid: be_u32_at(b, off) as u32,
            typ_type: b[off + 4] as char,
            typ_len: b[off + 5],
            typ_name: lossy_string(b.subrange(off + 7, off + 7 + size)),
        }] + parse_types(b, off + 7 + size, (count - 1) as nat)
    }
}

/// The five types of a new database, with object ids from `first` on.
pub open spec fn default_types(first: u32) -> Seq<TypeView> {
    seq![
        TypeView { typ_name: "u32"@, typ_oid: (first + 1) as u32, typ_type: 'u', typ_len: 4 },
        TypeView { typ_name: "i32"@, typ_oid: (first + 2) as u32, typ_type: 'i', typ_len: 4 },
        TypeView { typ_name: "float"@, typ_oid: (first + 3) as u32, typ_type: 'f', typ_len: 4 },
        TypeView { typ_name: "char"@, typ_oid: (first + 4) as u32, typ_type: 'c', typ_len: 0 },
        TypeView { typ_name: "varchar"@, typ_oid: (first + 5) as u32, typ_type: 'v', typ_len: 0 },
    ]
}

proof fn lemma_types_encoding_push(ts: Seq<TypeView>, t: TypeView)
    ensures
        types_encoding(ts.push(t)) == types_encoding(ts) + type_record(t),
    decreases ts.len(),
{
    if ts.len() == 0 {
        assert(ts.push(t).drop_first() =~= Seq::<TypeView>::empty());
        assert(types_encoding(ts.push(t).drop_first()) == Seq::<u8>::empty());
        assert(ts.push(t)[0] == t);
        assert(types_encoding(ts.push(t)) =~= types_encoding(ts) + type_record(t));
    } else {
        lemma_types_encoding_push(ts.drop_first(), t);
        assert(ts.push(t).drop_first() =~= ts.drop_first().push(t));
        assert(types_encoding(ts.push(t)) =~= types_encoding(ts) + type_record(t));
    }
}

/// Whether types can be written to the types file and read back: fewer than 256
/// of them, kind letters below code 256, names shorter than 256 bytes, and all of
/// it within the 512-byte buffer.
pub open spec fn types_storable(ts: Seq<TypeView>) -> bool {
    &&& ts.len() < 256
    &&& forall|i: int| 0 <= i < ts.len() ==> (#[trigger] ts[i]).typ_type as u32 <= 255
    &&& forall|i: int| 0 <= i < ts.len() ==> encode_utf8((#[trigger] ts[i]).typ_name).len() < 256
    &&& types_encoding(ts).len() <= SETTING_BUFFER_SIZE
}

proof fn lemma_parse_types_encoding(p: Seq<u8>, pos: int, ts: Seq<TypeView>)
    requires
        0 <= pos,
        pos + types_encoding(ts).len() <= p.len(),
        p.subrange(pos, pos + types_encoding(ts).len()) == types_encoding(ts),
        forall|i: int| 0 <= i < ts.len() ==> (#[trigger] ts[i]).typ_type as u32 <= 255,
        forall|i: int| 0 <= i < ts.len() ==> encode_utf8((#[trigger] ts[i]).typ_name).len() < 256,
    ensures
        types_fit(p, pos, ts.len()),
        parse_types(p, pos, ts.len()) == ts,
    decreases ts.len(),
{
    if ts.len() > 0 {
        let t = ts[0];
        let bytes = encode_utf8(t.typ_name);
        let rest = ts.drop_first();
        let enc = types_encoding(ts);
        let r = type_record(t);
        assert(enc == r + types_encoding(rest));
        assert(encode_utf8(ts[0].typ_name).len() < 256);
        assert(ts[0].typ_type as u32 <= 255);
        lemma_be_u32_bytes(t.typ_oid);
        assert(p[pos] == enc[0] && p[pos + 1] == enc[1] && p[pos + 2] == enc[2] && p[pos + 3] == enc[3]);
        assert(be_u32_at(p, pos) == t.typ_oid);
        assert(p[pos + 4] == enc[4]);
        assert(p[pos + 4] as char == t.typ_type);
        assert(p[pos + 5] == enc[5]);
        assert(p[pos + 6] == enc[6]);
        assert(p[pos + 6] == bytes.len());
        let next = pos + 7 + bytes.len();
        assert(p.subrange(pos + 7, next) =~= bytes) by {
            assert forall|k: int| 0 <= k < bytes.len() implies #[trigger] p.subrange(pos + 7, next)[k] == bytes[k] by {
                assert(p[pos + 7 + k] == enc[7 + k]);
            }
        }
        assert(p.subrange(next, next + types_encoding(rest).len()) =~= types_encoding(rest)) by {
            assert forall|k: int| 0 <= k < types_encoding(rest).len() implies #[trigger] p.subrange(
                next,
                next + types_encoding(rest).len(),
            )[k] == types_encoding(rest)[k] by {
                assert(p[next + k] == enc[r.len() + k]);
            }
        }
        assert forall|i: int| 0 <= i < rest.len() implies (#[trigger] rest[i]).typ_type as u32 <= 255 by {
            assert(rest[i] == ts[i + 1]);
        }
        assert forall|i: int| 0 <= i < rest.len() implies encode_utf8((#[trigger] rest[i]).typ_name).len() < 256 by {
            assert(rest[i] == ts[i + 1]);
        }
        lemma_parse_types_encoding(p, next, rest);
        encode_utf8_valid_utf8(t.typ_name);
        encode_utf8_decode_utf8(t.typ_name);
        assert(parse_types(p, pos, ts.len()) =~= seq![t] + rest);
        assert(seq![t] + rest =~= ts);
    }
}

/// Reading types back: the bytes that `save_types` makes, read by `load_types`
/// through the 512-byte buffer, give the same types, for types that
/// `types_storable` admits.
pub proof fn law_load_after_save(ts: Seq<TypeView>)
    requires
        types_storable(ts),
    ensures
        types_fit(in_buffer(types_encoding(ts)), 0, ts.len()),
        parse_types(in_buffer(types_encoding(ts)), 0, ts.len()) == ts,
{
    let enc = types_encoding(ts);
    let b = in_buffer(enc);
    assert(b.subrange(0, enc.len() as int) =~= enc);
    lemma_parse_types_encoding(b, 0, ts);
}

/// A new type.
fn make_type(name: &str, oid: OID, kind: char, len: u8) -> (r: kd_type)
    ensures
        r@ == (TypeView { typ_name: name@, typ_oid: oid, typ_type: kind, typ_len: len }),
{
    kd_type { typ_name: name.to_owned(), typ_oid: oid, typ_type: kind, typ_len: len }
}

impl kd_type {
    /// The five types of a new database (u32, i32, float, char, varchar), each
    /// with the next object id from `global`.
    pub fn init_types_if_none(global: &mut Global) -> (r: Vec<kd_type>)
        requires
            old(global).view().oid as int + 5 <= u32::MAX,
        ensures
            type_views(r@) == default_types(old(global).view().oid),
            final(global).view() == (crate::global::GlobalView { oid: (old(global).view().oid + 5) as u32, ..old(global).view() }),
    {
        let mut types: Vec<kd_type> = Vec::new();
        let o1 = global.get_and_add_oid();
        types.push(make_type("u32", o1, 'u', 4));
        let o2 = global.get_and_add_oid();
        types.push(make_type("i32", o2, 'i', 4));
        let o3 = global.get_and_add_oid();
        types.push(make_type("float", o3, 'f', 4));
        let o4 = global.get_and_add_oid();
        types.push(make_type("char", o4, 'c', 0));
        let o5 = global.get_and_add_oid();
        types.push(make_type("varchar", o5, 'v', 0));
        assert(type_views(types@) =~= default_types(old(global).view().oid));
        types
    }

    /// The bytes of the types file.
    pub fn save_types(types: &Vec<kd_type>) -> (r: Vec<u8>)
        ensures
            r@ == types_encoding(type_views(types@)),
    {
        let ghost all = type_views(types@);
        let mut r: Vec<u8> = Vec::new();
        let mut i: usize = 0;
        proof {
            assert(all.take(0) =~= Seq::<TypeView>::empty());
        }
        while i < types.len()
            invariant
                all == type_views(types@),
                i <= types@.len(),
                r@ == types_encoding(all.take(i as int)),
            decreases types@.len() - i,
        {
            let t = &types[i];
            let ghost before = r@;
            r.push(0u8);
            r.push(0u8);
            r.push(0u8);
            r.push(0u8);
            let at = r.len() - 4;
            write_be_u32(&mut r, at, t.typ_oid);
            r.push(char_low_byte(t.typ_type));
            r.push(t.typ_len);
            let name = t.typ_name.as_str().as_bytes();
            r.push((name.len() % 256) as u8);
            let mut k: usize = 0;
            let ghost mid = r@;
            while k < name.len()
                invariant
                    k <= name@.len(),
                    r@ == mid + name@.subrange(0, k as int),
                decreases name@.len() - k,
            {
                r.push(name[k]);
                k = k + 1;
                assert(r@ =~= mid + name@.subrange(0, k as int));
            }
            proof {
                lemma_be_u32_bytes(t.typ_oid);
                assert(name@.subrange(0, name@.len() as int) =~= name@);
                assert(all[i as int] == t@);
                assert(r@ =~= before + type_record(t@));
                assert(all.take(i + 1) =~= all.take(i as int).push(all[i as int]));
                lemma_types_encoding_push(all.take(i as int), all[i as int]);
            }
            i = i + 1;
        }
        proof {
            assert(all.take(types@.len() as int) =~= all);
        }
        r
    }

    /// The `type_number` types read from the 512-byte buffer of the types file.
    pub fn load_types(buffer: &Vec<u8>, type_number: u8) -> (r: Vec<kd_type>)
        requires
            types_fit(buffer@, 0, type_number as nat),
        ensures
            type_views(r@) == parse_types(buffer@, 0, type_number as nat),
    {
        let ghost b = buffer@;
        let mut off_set: usize = 0;
        let mut types: Vec<kd_type> = Vec::new();
        let mut index: u8 = 0;
        let data_len = buffer.len();
        while index < type_number
            invariant
                b == buffer@,
                data_len == b.len(),
                index <= type_number,
                types_fit(b, off_set as int, (type_number - index) as nat),
                type_views(types@) + parse_types(b, off_set as int, (type_number - index) as nat) == parse_types(
                    b,
                    0,
                    type_number as nat,
                ),
            decreases type_number - index,
        {
            let ghost before = type_views(types@);
            let ghost pos = off_set as int;
            let oid = read_be_u32(buffer, off_set);
            off_set += 4;
            let k_type = buffer[off_set];
            off_set += 1;
            let k_len = buffer[off_set];
            off_set += 1;
            let name_len = buffer[off_set];
            off_set += 1;
            let name = crate::page::copy_range(buffer, off_set, off_set + name_len as usize);
            let name = crate::record::string_from_bytes(name.as_slice());
            off_set += name_len as usize;
            let t = kd_type { typ_name: name, typ_oid: oid, typ_type: k_type as char, typ_len: k_len };
            types.push(t);
            proof {
                let tv = TypeView { typ_name: name@, typ_oid: oid, typ_type: k_type as char, typ_len: k_len };
                assert(parse_types(b, pos, (type_number - index) as nat) == seq![tv] + parse_types(
                    b,
                    off_set as int,
                    (type_number - index - 1) as nat,
                ));
                assert(type_views(types@) =~= before.push(tv));
                assert(before.push(tv) + parse_types(b, off_set as int, (type_number - index - 1) as nat) =~= before + (
                seq![tv] + parse_types(b, off_set as int, (type_number - index - 1) as nat)));
            }
            index += 1;
        }
        proof {
            assert(type_views(types@) + Seq::<TypeView>::empty() =~= type_views(types@));
        }
        types
    }
}

impl kd_type {
    /// Whether `type_number` types can be read from `buffer` by `load_types`.
    pub fn types_readable(buffer: &Vec<u8>, type_number: u8) -> (r: bool)
        ensures
            r == types_fit(buffer@, 0, type_number as nat),
    {
        let len = buffer.len();
        let mut pos: usize = 0;
        let mut left: u8 = type_number;
        while left > 0
            invariant
                len == buffer@.len(),
                pos <= len,
                left <= type_number,
                types_fit(buffer@, 0, type_number as nat) == types_fit(buffer@, pos as int, left as nat),
            decreases left,
        {
            if len - pos < 7 {
                return false;
            }
            let size = buffer[pos + 6] as usize;
            if len - pos - 7 < size {
                return false;
            }
            pos = pos + 7 + size;
            left = left - 1;
        }
        true
    }
}

/// The low eight bits of a character's code.
fn char_low_byte(c: char) -> (r: u8)
    ensures
        r == kind_byte(c),
{
    let code = c as u32;
    (code % 256) as u8
}

} // verus!
