//! The encoder: a pure structural mirror of the decoder's grammar. For every
//! construct the decoder reads, the encoder writes the identical byte layout.
//!
//! The byte string of a document is fixed by the spec functions here
//! ([`enc_doc`], [`enc_value`], [`enc_list`], [`enc_fields`]); the executable
//! encoder is verified to append exactly that byte string, after checking
//! that the value fits the wire format's length fields.

use vstd::prelude::*;
use vstd::string::StrSliceExecFns;
use vstd::utf8::encode_utf8;

use crate::error::Error;
use crate::value::{
    bytes_views, enc_ok_compounds, enc_ok_entries, enc_ok_list, enc_ok_lists, enc_ok_value,
    ints_views, lemma_view_compounds, lemma_view_entries, lemma_view_lists, longs_views,
    name_bytes, name_ok, names_views, tag_of, view_compounds, view_entries, view_list, view_lists,
    view_value, NbtList, NbtListV, NbtV, NbtValue, MAX_LEN, MAX_NAME, TAG_BYTE, TAG_BYTE_ARRAY,
    TAG_COMPOUND, TAG_DOUBLE, TAG_END, TAG_FLOAT, TAG_INT, TAG_INT_ARRAY, TAG_LIST, TAG_LONG,
    TAG_LONG_ARRAY, TAG_SHORT, TAG_STRING,
};
use crate::wire::{
    enc_u16, enc_u32, enc_u64, push_u16, push_u32, push_u64, u16_from_i16, u32_from_i32,
    u64_from_i64, u8_from_i8, u16_of_i16, u32_of_i32, u64_of_i64, u8_of_i8,
};

verus! {

broadcast use {vstd::std_specs::vec::group_vec_axioms, vstd::utf8::encode_utf8_valid_utf8};

/// Diagnostic marker: the root or entry name does not fit the 16-bit length
/// field.
const LOC_ENC_NAME: u32 = 0xffff_0001;

/// Diagnostic marker: the value holds a string or count too large for the
/// wire format.
const LOC_ENC_VALUE: u32 = 0xffff_0002;

// ---------------------------------------------------------------------------
// The byte string of each construct.
// ---------------------------------------------------------------------------

/// An element count: a (non-negative) big-endian signed 32-bit integer.
pub open spec fn enc_count(n: int) -> Seq<u8> {
    enc_u32(n as u32)
}

/// A length-prefixed string: big-endian unsigned 16-bit byte length, then
/// the UTF-8 bytes themselves.
pub open spec fn enc_name(n: Seq<u8>) -> Seq<u8> {
    enc_u16(n.len() as u16) + n
}

/// The concatenation of `f` applied to the elements of `s` from `i` on.
pub open spec fn enc_each<A>(s: Seq<A>, f: spec_fn(A) -> Seq<u8>, i: int) -> Seq<u8>
    decreases s.len() - i,
{
    if i < 0 || i >= s.len() {
        Seq::empty()
    } else {
        f(s[i]) + enc_each(s, f, i + 1)
    }
}

pub open spec fn eb_i8(x: i8) -> Seq<u8> {
    seq![u8_of_i8(x)]
}

pub open spec fn f_i8() -> spec_fn(i8) -> Seq<u8> {
    |x: i8| eb_i8(x)
}

pub open spec fn f_i16() -> spec_fn(i16) -> Seq<u8> {
    |x: i16| enc_u16(u16_of_i16(x))
}

pub open spec fn f_i32() -> spec_fn(i32) -> Seq<u8> {
    |x: i32| enc_u32(u32_of_i32(x))
}

pub open spec fn f_i64() -> spec_fn(i64) -> Seq<u8> {
    |x: i64| enc_u64(u64_of_i64(x))
}

pub open spec fn f_u32() -> spec_fn(u32) -> Seq<u8> {
    |x: u32| enc_u32(x)
}

pub open spec fn f_u64() -> spec_fn(u64) -> Seq<u8> {
    |x: u64| enc_u64(x)
}

/// A byte-array payload: count, then one byte per element.
pub open spec fn eb_bytes(s: Seq<i8>) -> Seq<u8> {
    enc_count(s.len() as int) + enc_each(s, f_i8(), 0)
}

/// An int-array payload: count, then four bytes per element.
pub open spec fn eb_ints(s: Seq<i32>) -> Seq<u8> {
    enc_count(s.len() as int) + enc_each(s, f_i32(), 0)
}

/// A long-array payload: count, then eight bytes per element.
pub open spec fn eb_longs(s: Seq<i64>) -> Seq<u8> {
    enc_count(s.len() as int) + enc_each(s, f_i64(), 0)
}

pub open spec fn f_bytes() -> spec_fn(Seq<i8>) -> Seq<u8> {
    |x: Seq<i8>| eb_bytes(x)
}

pub open spec fn f_ints() -> spec_fn(Seq<i32>) -> Seq<u8> {
    |x: Seq<i32>| eb_ints(x)
}

pub open spec fn f_longs() -> spec_fn(Seq<i64>) -> Seq<u8> {
    |x: Seq<i64>| eb_longs(x)
}

pub open spec fn f_name() -> spec_fn(Seq<u8>) -> Seq<u8> {
    |x: Seq<u8>| enc_name(x)
}

/// The payload bytes of a value. A payload carries no tag and no name; those
/// belong to the construct that contains the value.
pub open spec fn enc_value(v: NbtV) -> Seq<u8>
    decreases v, 0int, 0int,
{
    match v {
        NbtV::Byte(x) => eb_i8(x),
        NbtV::Short(x) => enc_u16(u16_of_i16(x)),
        NbtV::Int(x) => enc_u32(u32_of_i32(x)),
        NbtV::Long(x) => enc_u64(u64_of_i64(x)),
        NbtV::Float(x) => enc_u32(x),
        NbtV::Double(x) => enc_u64(x),
        NbtV::ByteArray(s) => eb_bytes(s),
        NbtV::String(b) => enc_name(b),
        NbtV::List(l) => enc_list(l),
        NbtV::Compound(es) => enc_fields(es, 0),
        NbtV::IntArray(s) => eb_ints(s),
        NbtV::LongArray(s) => eb_longs(s),
    }
}

/// The fields of a compound from entry `i` on: each entry as tag byte, name
/// and payload, closed by a single End byte.
pub open spec fn enc_fields(es: Seq<(Seq<u8>, NbtV)>, i: int) -> Seq<u8>
    decreases es, 1int, es.len() - i,
{
    if i < 0 || i >= es.len() {
        seq![TAG_END]
    } else {
        seq![tag_of(es[i].1)] + enc_name(es[i].0) + enc_value(es[i].1) + enc_fields(es, i + 1)
    }
}

/// A list payload: the element-kind tag once, the count once, then each
/// element's payload only.
pub open spec fn enc_list(l: NbtListV) -> Seq<u8>
    decreases l, 0int, 0int,
{
    match l {
        NbtListV::ByteList(s) => seq![TAG_BYTE] + enc_count(s.len() as int) + enc_each(
            s,
            f_i8(),
            0,
        ),
        NbtListV::ShortList(s) => seq![TAG_SHORT] + enc_count(s.len() as int) + enc_each(
            s,
            f_i16(),
            0,
        ),
        NbtListV::IntList(s) => seq![TAG_INT] + enc_count(s.len() as int) + enc_each(
            s,
            f_i32(),
            0,
        ),
        NbtListV::LongList(s) => seq![TAG_LONG] + enc_count(s.len() as int) + enc_each(
            s,
            f_i64(),
            0,
        ),
        NbtListV::FloatList(s) => seq![TAG_FLOAT] + enc_count(s.len() as int) + enc_each(
            s,
            f_u32(),
            0,
        ),
        NbtListV::DoubleList(s) => seq![TAG_DOUBLE] + enc_count(s.len() as int) + enc_each(
            s,
            f_u64(),
            0,
        ),
        NbtListV::ByteArrayList(s) => seq![TAG_BYTE_ARRAY] + enc_count(s.len() as int) + enc_each(
            s,
            f_bytes(),
            0,
        ),
        NbtListV::StringList(s) => seq![TAG_STRING] + enc_count(s.len() as int) + enc_each(
            s,
            f_name(),
            0,
        ),
        NbtListV::ListList(s) => seq![TAG_LIST] + enc_count(s.len() as int) + enc_lists(s, 0),
        NbtListV::CompoundList(s) => seq![TAG_COMPOUND] + enc_count(s.len() as int)
            + enc_compounds(s, 0),
        NbtListV::IntArrayList(s) => seq![TAG_INT_ARRAY] + enc_count(s.len() as int) + enc_each(
            s,
            f_ints(),
            0,
        ),
        NbtListV::LongArrayList(s) => seq![TAG_LONG_ARRAY] + enc_count(s.len() as int) + enc_each(
            s,
            f_longs(),
            0,
        ),
        NbtListV::EmptyList => seq![TAG_END] + enc_count(0),
    }
}

pub open spec fn enc_lists(s: Seq<NbtListV>, i: int) -> Seq<u8>
    decreases s, 1int, s.len() - i,
{
    if i < 0 || i >= s.len() {
        Seq::empty()
    } else {
        enc_list(s[i]) + enc_lists(s, i + 1)
    }
}

pub open spec fn enc_compounds(s: Seq<Seq<(Seq<u8>, NbtV)>>, i: int) -> Seq<u8>
    decreases s, 1int, s.len() - i,
{
    if i < 0 || i >= s.len() {
        Seq::empty()
    } else {
        enc_fields(s[i], 0) + enc_compounds(s, i + 1)
    }
}

/// A whole document: the root value's tag byte, the root name, then the root
/// payload.
pub open spec fn enc_doc(n: Seq<u8>, v: NbtV) -> Seq<u8> {
    seq![tag_of(v)] + enc_name(n) + enc_value(v)
}

// ---------------------------------------------------------------------------
// The encodability check: decides `enc_ok_value` on the view.
// ---------------------------------------------------------------------------

/// Whether a string's UTF-8 byte string fits the 16-bit length field.
pub(crate) fn str_wire_len_ok(s: &String) -> (r: bool)
    ensures
        r == (name_bytes(*s).len() <= MAX_NAME),
{
    let bv = s.as_str().as_bytes_vec();
    bv.len() <= MAX_NAME
}

/// The tag byte this value carries on the wire.
pub(crate) fn tag_byte(v: &NbtValue) -> (t: u8)
    ensures
        t == tag_of(v@),
{
    match v {
        NbtValue::Byte(_) => TAG_BYTE,
        NbtValue::Short(_) => TAG_SHORT,
        NbtValue::Int(_) => TAG_INT,
        NbtValue::Long(_) => TAG_LONG,
        NbtValue::Float(_) => TAG_FLOAT,
        NbtValue::Double(_) => TAG_DOUBLE,
        NbtValue::ByteArray(_) => TAG_BYTE_ARRAY,
        NbtValue::String(_) => TAG_STRING,
        NbtValue::List(_) => TAG_LIST,
        NbtValue::Compound(_) => TAG_COMPOUND,
        NbtValue::IntArray(_) => TAG_INT_ARRAY,
        NbtValue::LongArray(_) => TAG_LONG_ARRAY,
    }
}

pub(crate) fn check_value(v: &NbtValue) -> (r: bool)
    ensures
        r == enc_ok_value(v@),
    decreases v,
{
    match v {
        NbtValue::Byte(_) => true,
        NbtValue::Short(_) => true,
        NbtValue::Int(_) => true,
        NbtValue::Long(_) => true,
        NbtValue::Float(_) => true,
        NbtValue::Double(_) => true,
        NbtValue::ByteArray(s) => s.len() <= MAX_LEN,
        NbtValue::String(s) => {
            proof {
                vstd::utf8::encode_utf8_valid_utf8(s@);
            }
            str_wire_len_ok(s)
        },
        NbtValue::List(l) => check_list(l),
        NbtValue::Compound(es) => check_fields(es),
        NbtValue::IntArray(s) => s.len() <= MAX_LEN,
        NbtValue::LongArray(s) => s.len() <= MAX_LEN,
    }
}

pub(crate) fn check_fields(es: &Vec<(String, NbtValue)>) -> (r: bool)
    ensures
        r == enc_ok_entries(view_entries(es@, 0), 0),
    decreases es,
{
    let ghost ves = view_entries(es@, 0);
    proof {
        lemma_view_entries(es@, 0);
    }
    let mut i: usize = 0;
    while i < es.len()
        invariant
            0 <= i <= es.len(),
            enc_ok_entries(ves, 0) == enc_ok_entries(ves, i as int),
        decreases es.len() - i,
    {
        if !str_wire_len_ok(&es[i].0) {
            assert(!name_ok(ves[i as int].0));
            return false;
        }
        if !check_value(&es[i].1) {
            return false;
        }
        proof {
            vstd::utf8::encode_utf8_valid_utf8(es@[i as int].0@);
        }
        i = i + 1;
    }
    true
}

pub(crate) fn check_list(l: &NbtList) -> (r: bool)
    ensures
        r == enc_ok_list(l@),
    decreases l,
{
    match l {
        NbtList::ByteList(s) => s.len() <= MAX_LEN,
        NbtList::ShortList(s) => s.len() <= MAX_LEN,
        NbtList::IntList(s) => s.len() <= MAX_LEN,
        NbtList::LongList(s) => s.len() <= MAX_LEN,
        NbtList::FloatList(s) => s.len() <= MAX_LEN,
        NbtList::DoubleList(s) => s.len() <= MAX_LEN,
        NbtList::ByteArrayList(s) => {
            if s.len() > MAX_LEN {
                return false;
            }
            let mut i: usize = 0;
            while i < s.len()
                invariant
                    0 <= i <= s.len(),
                    forall|j: int| 0 <= j < i ==> #[trigger] bytes_views(s@)[j].len() <= MAX_LEN,
                decreases s.len() - i,
            {
                if s[i].len() > MAX_LEN {
                    assert(bytes_views(s@)[i as int].len() > MAX_LEN);
                    return false;
                }
                i = i + 1;
            }
            true
        },
        NbtList::StringList(s) => {
            if s.len() > MAX_LEN {
                return false;
            }
            let mut i: usize = 0;
            while i < s.len()
                invariant
                    0 <= i <= s.len(),
                    forall|j: int| 0 <= j < i ==> name_ok(#[trigger] names_views(s@)[j]),
                decreases s.len() - i,
            {
                if !str_wire_len_ok(&s[i]) {
                    assert(!name_ok(names_views(s@)[i as int]));
                    return false;
                }
                proof {
                    vstd::utf8::encode_utf8_valid_utf8(s@[i as int]@);
                    assert(names_views(s@)[i as int] == name_bytes(s@[i as int]));
                }
                i = i + 1;
            }
            true
        },
        NbtList::ListList(s) => {
            let ghost vs = view_lists(s@, 0);
            proof {
                lemma_view_lists(s@, 0);
            }
            if s.len() > MAX_LEN {
                return false;
            }
            let mut i: usize = 0;
            while i < s.len()
                invariant
                    0 <= i <= s.len(),
                    enc_ok_lists(vs, 0) == enc_ok_lists(vs, i as int),
                decreases s.len() - i,
            {
                if !check_list(&s[i]) {
                    return false;
                }
                i = i + 1;
            }
            true
        },
        NbtList::CompoundList(s) => {
            let ghost vs = view_compounds(s@, 0);
            proof {
                lemma_view_compounds(s@, 0);
            }
            if s.len() > MAX_LEN {
                return false;
            }
            let mut i: usize = 0;
            while i < s.len()
                invariant
                    0 <= i <= s.len(),
                    enc_ok_compounds(vs, 0) == enc_ok_compounds(vs, i as int),
                decreases s.len() - i,
            {
                if !check_fields(&s[i]) {
                    return false;
                }
                i = i + 1;
            }
            true
        },
        NbtList::IntArrayList(s) => {
            if s.len() > MAX_LEN {
                return false;
            }
            let mut i: usize = 0;
            while i < s.len()
                invariant
                    0 <= i <= s.len(),
                    forall|j: int| 0 <= j < i ==> #[trigger] ints_views(s@)[j].len() <= MAX_LEN,
                decreases s.len() - i,
            {
                if s[i].len() > MAX_LEN {
                    assert(ints_views(s@)[i as int].len() > MAX_LEN);
                    return false;
                }
                i = i + 1;
            }
            true
        },
        NbtList::LongArrayList(s) => {
            if s.len() > MAX_LEN {
                return false;
            }
            let mut i: usize = 0;
            while i < s.len()
                invariant
                    0 <= i <= s.len(),
                    forall|j: int| 0 <= j < i ==> #[trigger] longs_views(s@)[j].len() <= MAX_LEN,
                decreases s.len() - i,
            {
                if s[i].len() > MAX_LEN {
                    assert(longs_views(s@)[i as int].len() > MAX_LEN);
                    return false;
                }
                i = i + 1;
            }
            true
        },
        NbtList::EmptyList => true,
    }
}

// ---------------------------------------------------------------------------
// Executable writers. Each appends exactly the spec-level byte string of the
// construct it writes.
// ---------------------------------------------------------------------------

pub(crate) fn push_name(s: &str, out: &mut Vec<u8>)
    requires
        encode_utf8(s@).len() <= MAX_NAME,
    ensures
        final(out)@ == old(out)@ + enc_name(encode_utf8(s@)),
{
    let mut bv = s.as_bytes_vec();
    push_u16(out, bv.len() as u16);
    out.append(&mut bv);
    assert(out@ =~= old(out)@ + enc_name(encode_utf8(s@)));
}

pub(crate) fn write_i8s(s: &Vec<i8>, out: &mut Vec<u8>)
    ensures
        final(out)@ == old(out)@ + enc_each(s@, f_i8(), 0),
{
    let mut i: usize = 0;
    while i < s.len()
        invariant
            0 <= i <= s.len(),
            out@ + enc_each(s@, f_i8(), i as int) == old(out)@ + enc_each(s@, f_i8(), 0),
        decreases s.len() - i,
    {
        out.push(u8_from_i8(s[i]));
        proof {
            assert(f_i8()(s@[i as int]) =~= seq![u8_of_i8(s@[i as int])]);
            assert(out@ + enc_each(s@, f_i8(), i + 1) =~= old(out)@ + enc_each(s@, f_i8(), 0));
        }
        i = i + 1;
    }
    assert(out@ + enc_each(s@, f_i8(), s@.len() as int) =~= out@);
}

pub(crate) fn write_i16s(s: &Vec<i16>, out: &mut Vec<u8>)
    ensures
        final(out)@ == old(out)@ + enc_each(s@, f_i16(), 0),
{
    let mut i: usize = 0;
    while i < s.len()
        invariant
            0 <= i <= s.len(),
            out@ + enc_each(s@, f_i16(), i as int) == old(out)@ + enc_each(s@, f_i16(), 0),
        decreases s.len() - i,
    {
        push_u16(out, u16_from_i16(s[i]));
        proof {
            assert(f_i16()(s@[i as int]) =~= enc_u16(u16_of_i16(s@[i as int])));
            assert(out@ + enc_each(s@, f_i16(), i + 1) =~= old(out)@ + enc_each(s@, f_i16(), 0));
        }
        i = i + 1;
    }
    assert(out@ + enc_each(s@, f_i16(), s@.len() as int) =~= out@);
}

pub(crate) fn write_i32s(s: &Vec<i32>, out: &mut Vec<u8>)
    ensures
        final(out)@ == old(out)@ + enc_each(s@, f_i32(), 0),
{
    let mut i: usize = 0;
    while i < s.len()
        invariant
            0 <= i <= s.len(),
            out@ + enc_each(s@, f_i32(), i as int) == old(out)@ + enc_each(s@, f_i32(), 0),
        decreases s.len() - i,
    {
        push_u32(out, u32_from_i32(s[i]));
        proof {
            assert(f_i32()(s@[i as int]) =~= enc_u32(u32_of_i32(s@[i as int])));
            assert(out@ + enc_each(s@, f_i32(), i + 1) =~= old(out)@ + enc_each(s@, f_i32(), 0));
        }
        i = i + 1;
    }
    assert(out@ + enc_each(s@, f_i32(), s@.len() as int) =~= out@);
}

pub(crate) fn write_i64s(s: &Vec<i64>, out: &mut Vec<u8>)
    ensures
        final(out)@ == old(out)@ + enc_each(s@, f_i64(), 0),
{
    let mut i: usize = 0;
    while i < s.len()
        invariant
            0 <= i <= s.len(),
            out@ + enc_each(s@, f_i64(), i as int) == old(out)@ + enc_each(s@, f_i64(), 0),
        decreases s.len() - i,
    {
        push_u64(out, u64_from_i64(s[i]));
        proof {
            assert(f_i64()(s@[i as int]) =~= enc_u64(u64_of_i64(s@[i as int])));
            assert(out@ + enc_each(s@, f_i64(), i + 1) =~= old(out)@ + enc_each(s@, f_i64(), 0));
        }
        i = i + 1;
    }
    assert(out@ + enc_each(s@, f_i64(), s@.len() as int) =~= out@);
}

pub(crate) fn write_u32s(s: &Vec<u32>, out: &mut Vec<u8>)
    ensures
        final(out)@ == old(out)@ + enc_each(s@, f_u32(), 0),
{
    let mut i: usize = 0;
    while i < s.len()
        invariant
            0 <= i <= s.len(),
            out@ + enc_each(s@, f_u32(), i as int) == old(out)@ + enc_each(s@, f_u32(), 0),
        decreases s.len() - i,
    {
        push_u32(out, s[i]);
        proof {
            assert(f_u32()(s@[i as int]) =~= enc_u32(s@[i as int]));
            assert(out@ + enc_each(s@, f_u32(), i + 1) =~= old(out)@ + enc_each(s@, f_u32(), 0));
        }
        i = i + 1;
    }
    assert(out@ + enc_each(s@, f_u32(), s@.len() as int) =~= out@);
}

pub(crate) fn write_u64s(s: &Vec<u64>, out: &mut Vec<u8>)
    ensures
        final(out)@ == old(out)@ + enc_each(s@, f_u64(), 0),
{
    let mut i: usize = 0;
    while i < s.len()
        invariant
            0 <= i <= s.len(),
            out@ + enc_each(s@, f_u64(), i as int) == old(out)@ + enc_each(s@, f_u64(), 0),
        decreases s.len() - i,
    {
        push_u64(out, s[i]);
        proof {
            assert(f_u64()(s@[i as int]) =~= enc_u64(s@[i as int]));
            assert(out@ + enc_each(s@, f_u64(), i + 1) =~= old(out)@ + enc_each(s@, f_u64(), 0));
        }
        i = i + 1;
    }
    assert(out@ + enc_each(s@, f_u64(), s@.len() as int) =~= out@);
}

pub(crate) fn write_names(s: &Vec<String>, out: &mut Vec<u8>)
    requires
        forall|j: int| 0 <= j < s@.len() ==> name_ok(#[trigger] names_views(s@)[j]),
    ensures
        final(out)@ == old(out)@ + enc_each(names_views(s@), f_name(), 0),
{
    let ghost vs = names_views(s@);
    let mut i: usize = 0;
    while i < s.len()
        invariant
            0 <= i <= s.len(),
            out@ + enc_each(vs, f_name(), i as int) == old(out)@ + enc_each(vs, f_name(), 0),
        decreases s.len() - i,
    {
        assert(vs[i as int] == name_bytes(s@[i as int]));
        push_name(s[i].as_str(), out);
        proof {
            assert(f_name()(vs[i as int]) =~= enc_name(vs[i as int]));
            assert(out@ + enc_each(vs, f_name(), i + 1) =~= old(out)@ + enc_each(vs, f_name(), 0));
        }
        i = i + 1;
    }
    assert(out@ + enc_each(vs, f_name(), vs.len() as int) =~= out@);
}

pub(crate) fn write_byte_arrays(s: &Vec<Vec<i8>>, out: &mut Vec<u8>)
    requires
        forall|j: int| 0 <= j < s@.len() ==> #[trigger] bytes_views(s@)[j].len() <= MAX_LEN,
    ensures
        final(out)@ == old(out)@ + enc_each(bytes_views(s@), f_bytes(), 0),
{
    let ghost vs = bytes_views(s@);
    let mut i: usize = 0;
    while i < s.len()
        invariant
            0 <= i <= s.len(),
            out@ + enc_each(vs, f_bytes(), i as int) == old(out)@ + enc_each(vs, f_bytes(), 0),
        decreases s.len() - i,
    {
        assert(vs[i as int] == s@[i as int]@);
        push_u32(out, s[i].len() as u32);
        write_i8s(&s[i], out);
        proof {
            assert(f_bytes()(vs[i as int]) =~= eb_bytes(s@[i as int]@));
            assert(out@ + enc_each(vs, f_bytes(), i + 1) =~= old(out)@ + enc_each(
                vs,
                f_bytes(),
                0,
            ));
        }
        i = i + 1;
    }
    assert(out@ + enc_each(vs, f_bytes(), vs.len() as int) =~= out@);
}

pub(crate) fn write_int_arrays(s: &Vec<Vec<i32>>, out: &mut Vec<u8>)
    requires
        forall|j: int| 0 <= j < s@.len() ==> #[trigger] ints_views(s@)[j].len() <= MAX_LEN,
    ensures
        final(out)@ == old(out)@ + enc_each(ints_views(s@), f_ints(), 0),
{
    let ghost vs = ints_views(s@);
    let mut i: usize = 0;
    while i < s.len()
        invariant
            0 <= i <= s.len(),
            out@ + enc_each(vs, f_ints(), i as int) == old(out)@ + enc_each(vs, f_ints(), 0),
        decreases s.len() - i,
    {
        assert(vs[i as int] == s@[i as int]@);
        push_u32(out, s[i].len() as u32);
        write_i32s(&s[i], out);
        proof {
            assert(f_ints()(vs[i as int]) =~= eb_ints(s@[i as int]@));
            assert(out@ + enc_each(vs, f_ints(), i + 1) =~= old(out)@ + enc_each(vs, f_ints(), 0));
        }
        i = i + 1;
    }
    assert(out@ + enc_each(vs, f_ints(), vs.len() as int) =~= out@);
}

pub(crate) fn write_long_arrays(s: &Vec<Vec<i64>>, out: &mut Vec<u8>)
    requires
        forall|j: int| 0 <= j < s@.len() ==> #[trigger] longs_views(s@)[j].len() <= MAX_LEN,
    ensures
        final(out)@ == old(out)@ + enc_each(longs_views(s@), f_longs(), 0),
{
    let ghost vs = longs_views(s@);
    let mut i: usize = 0;
    while i < s.len()
        invariant
            0 <= i <= s.len(),
            out@ + enc_each(vs, f_longs(), i as int) == old(out)@ + enc_each(vs, f_longs(), 0),
        decreases s.len() - i,
    {
        assert(vs[i as int] == s@[i as int]@);
        push_u32(out, s[i].len() as u32);
        write_i64s(&s[i], out);
        proof {
            assert(f_longs()(vs[i as int]) =~= eb_longs(s@[i as int]@));
            assert(out@ + enc_each(vs, f_longs(), i + 1) =~= old(out)@ + enc_each(
                vs,
                f_longs(),
                0,
            ));
        }
        i = i + 1;
    }
    assert(out@ + enc_each(vs, f_longs(), vs.len() as int) =~= out@);
}

pub(crate) fn write_value(v: &NbtValue, out: &mut Vec<u8>)
    requires
        enc_ok_value(v@),
    ensures
        final(out)@ == old(out)@ + enc_value(v@),
    decreases v,
{
    match v {
        NbtValue::Byte(x) => {
            out.push(u8_from_i8(*x));
            assert(out@ =~= old(out)@ + enc_value(v@));
        },
        NbtValue::Short(x) => {
            push_u16(out, u16_from_i16(*x));
        },
        NbtValue::Int(x) => {
            push_u32(out, u32_from_i32(*x));
        },
        NbtValue::Long(x) => {
            push_u64(out, u64_from_i64(*x));
        },
        NbtValue::Float(x) => {
            push_u32(out, *x);
        },
        NbtValue::Double(x) => {
            push_u64(out, *x);
        },
        NbtValue::ByteArray(s) => {
            push_u32(out, s.len() as u32);
            write_i8s(s, out);
            assert(out@ =~= old(out)@ + enc_value(v@));
        },
        NbtValue::String(s) => {
            push_name(s.as_str(), out);
        },
        NbtValue::List(l) => {
            write_list(l, out);
        },
        NbtValue::Compound(es) => {
            write_fields(es, out);
        },
        NbtValue::IntArray(s) => {
            push_u32(out, s.len() as u32);
            write_i32s(s, out);
            assert(out@ =~= old(out)@ + enc_value(v@));
        },
        NbtValue::LongArray(s) => {
            push_u32(out, s.len() as u32);
            write_i64s(s, out);
            assert(out@ =~= old(out)@ + enc_value(v@));
        },
    }
}

pub(crate) fn write_fields(es: &Vec<(String, NbtValue)>, out: &mut Vec<u8>)
    requires
        enc_ok_entries(view_entries(es@, 0), 0),
    ensures
        final(out)@ == old(out)@ + enc_fields(view_entries(es@, 0), 0),
    decreases es,
{
    let ghost ves = view_entries(es@, 0);
    proof {
        lemma_view_entries(es@, 0);
    }
    let mut i: usize = 0;
    while i < es.len()
        invariant
            0 <= i <= es.len(),
            enc_ok_entries(ves, i as int),
            out@ + enc_fields(ves, i as int) == old(out)@ + enc_fields(ves, 0),
        decreases es.len() - i,
    {
        let t = tag_byte(&es[i].1);
        out.push(t);
        push_name(es[i].0.as_str(), out);
        write_value(&es[i].1, out);
        proof {
            assert(out@ + enc_fields(ves, i + 1) =~= old(out)@ + enc_fields(ves, 0));
        }
        i = i + 1;
    }
    out.push(TAG_END);
    proof {
        assert(enc_fields(ves, es@.len() as int) =~= seq![TAG_END]);
        assert(out@ =~= old(out)@ + enc_fields(ves, 0));
    }
}

pub(crate) fn write_list(l: &NbtList, out: &mut Vec<u8>)
    requires
        enc_ok_list(l@),
    ensures
        final(out)@ == old(out)@ + enc_list(l@),
    decreases l,
{
    match l {
        NbtList::ByteList(s) => {
            out.push(TAG_BYTE);
            push_u32(out, s.len() as u32);
            write_i8s(s, out);
            assert(out@ =~= old(out)@ + enc_list(l@));
        },
        NbtList::ShortList(s) => {
            out.push(TAG_SHORT);
            push_u32(out, s.len() as u32);
            write_i16s(s, out);
            assert(out@ =~= old(out)@ + enc_list(l@));
        },
        NbtList::IntList(s) => {
            out.push(TAG_INT);
            push_u32(out, s.len() as u32);
            write_i32s(s, out);
            assert(out@ =~= old(out)@ + enc_list(l@));
        },
        NbtList::LongList(s) => {
            out.push(TAG_LONG);
            push_u32(out, s.len() as u32);
            write_i64s(s, out);
            assert(out@ =~= old(out)@ + enc_list(l@));
        },
        NbtList::FloatList(s) => {
            out.push(TAG_FLOAT);
            push_u32(out, s.len() as u32);
            write_u32s(s, out);
            assert(out@ =~= old(out)@ + enc_list(l@));
        },
        NbtList::DoubleList(s) => {
            out.push(TAG_DOUBLE);
            push_u32(out, s.len() as u32);
            write_u64s(s, out);
            assert(out@ =~= old(out)@ + enc_list(l@));
        },
        NbtList::ByteArrayList(s) => {
            out.push(TAG_BYTE_ARRAY);
            push_u32(out, s.len() as u32);
            write_byte_arrays(s, out);
            assert(out@ =~= old(out)@ + enc_list(l@));
        },
        NbtList::StringList(s) => {
            out.push(TAG_STRING);
            push_u32(out, s.len() as u32);
            write_names(s, out);
            assert(out@ =~= old(out)@ + enc_list(l@));
        },
        NbtList::ListList(s) => {
            let ghost vs = view_lists(s@, 0);
            proof {
                lemma_view_lists(s@, 0);
            }
            out.push(TAG_LIST);
            push_u32(out, s.len() as u32);
            let ghost mid = out@;
            let mut i: usize = 0;
            while i < s.len()
                invariant
                    0 <= i <= s.len(),
                    enc_ok_lists(vs, i as int),
                    out@ + enc_lists(vs, i as int) == mid + enc_lists(vs, 0),
                decreases s.len() - i,
            {
                write_list(&s[i], out);
                proof {
                    assert(out@ + enc_lists(vs, i + 1) =~= mid + enc_lists(vs, 0));
                }
                i = i + 1;
            }
            proof {
                assert(out@ + enc_lists(vs, s@.len() as int) =~= out@);
                assert(out@ =~= old(out)@ + enc_list(l@));
            }
        },
        NbtList::CompoundList(s) => {
            let ghost vs = view_compounds(s@, 0);
            proof {
                lemma_view_compounds(s@, 0);
            }
            out.push(TAG_COMPOUND);
            push_u32(out, s.len() as u32);
            let ghost mid = out@;
            let mut i: usize = 0;
            while i < s.len()
                invariant
                    0 <= i <= s.len(),
                    enc_ok_compounds(vs, i as int),
                    out@ + enc_compounds(vs, i as int) == mid + enc_compounds(vs, 0),
                decreases s.len() - i,
            {
                write_fields(&s[i], out);
                proof {
                    assert(out@ + enc_compounds(vs, i + 1) =~= mid + enc_compounds(vs, 0));
                }
                i = i + 1;
            }
            proof {
                assert(out@ + enc_compounds(vs, s@.len() as int) =~= out@);
                assert(out@ =~= old(out)@ + enc_list(l@));
            }
        },
        NbtList::IntArrayList(s) => {
            out.push(TAG_INT_ARRAY);
            push_u32(out, s.len() as u32);
            write_int_arrays(s, out);
            assert(out@ =~= old(out)@ + enc_list(l@));
        },
        NbtList::LongArrayList(s) => {
            out.push(TAG_LONG_ARRAY);
            push_u32(out, s.len() as u32);
            write_long_arrays(s, out);
            assert(out@ =~= old(out)@ + enc_list(l@));
        },
        NbtList::EmptyList => {
            out.push(TAG_END);
            push_u32(out, 0);
            assert(out@ =~= old(out)@ + enc_list(l@));
        },
    }
}

impl NbtValue {
    /// Appends the wire encoding of the document `(name, self)` to `out`:
    /// the root tag byte, the root name, then the payload. Succeeds exactly
    /// when the name and every string, array and list in the tree fit the
    /// wire format's length fields; on failure nothing is appended.
    pub fn serialize(&self, name: &str, out: &mut Vec<u8>) -> (r: Result<(), Error>)
        ensures
            match r {
                Ok(_) => encode_utf8(name@).len() <= MAX_NAME && enc_ok_value(self@) && final(out)@
                    == old(out)@ + enc_doc(encode_utf8(name@), self@),
                Err(e) => !(encode_utf8(name@).len() <= MAX_NAME && enc_ok_value(self@))
                    && e is Malformed && final(out)@ == old(out)@,
            },
    {
        let bv = name.as_bytes_vec();
        if bv.len() > MAX_NAME {
            return Err(Error::Malformed(LOC_ENC_NAME));
        }
        if !check_value(self) {
            return Err(Error::Malformed(LOC_ENC_VALUE));
        }
        let t = tag_byte(self);
        out.push(t);
        push_name(name, out);
        write_value(self, out);
        proof {
            assert(out@ =~= old(out)@ + enc_doc(encode_utf8(name@), self@));
        }
        Ok(())
    }

    /// The wire encoding of the document `(name, self)` as a fresh byte
    /// vector; see [`Self::serialize`].
    pub fn to_bytes(&self, name: &str) -> (r: Result<Vec<u8>, Error>)
        ensures
            match r {
                Ok(bytes) => encode_utf8(name@).len() <= MAX_NAME && enc_ok_value(self@) && bytes@
                    == enc_doc(encode_utf8(name@), self@),
                Err(e) => !(encode_utf8(name@).len() <= MAX_NAME && enc_ok_value(self@))
                    && e is Malformed,
            },
    {
        let mut out: Vec<u8> = Vec::new();
        match self.serialize(name, &mut out) {
            Ok(_) => Ok(out),
            Err(e) => Err(e),
        }
    }
}


} // verus!
