//! The decoder: recursive descent driven entirely by the previous tag byte,
//! consuming the byte source in one linear, non-backtracking pass.
//!
//! The spec functions here ([`sdec_doc`], [`sdec_payload`], [`sdec_list`],
//! [`sdec_fields`], [`sdec_elems`]) define exactly which byte strings parse,
//! and to what; `None` is malformed input. The executable decoder is
//! verified to decide them. A recursion budget (`fuel`, starting from
//! [`MAX_DEPTH`]) bounds the nesting of lists and compounds, so an
//! adversarial input cannot overflow the call stack; every other rule
//! terminates because each step consumes at least one byte.

use vstd::prelude::*;
use vstd::slice::slice_subrange;
use vstd::slice::slice_to_vec;
use vstd::utf8::decode_utf8;
use vstd::utf8::valid_utf8;

use crate::error::{loc_of, Error};
use crate::value::{
    name_bytes, tag_valid, view_entries, view_list, view_value, NbtList, NbtListV, NbtV, NbtValue,
    MAX_DEPTH, TAG_BYTE, TAG_BYTE_ARRAY, TAG_COMPOUND, TAG_DOUBLE, TAG_END, TAG_FLOAT, TAG_INT,
    TAG_INT_ARRAY, TAG_LIST, TAG_LONG, TAG_LONG_ARRAY, TAG_SHORT, TAG_STRING,
};
use crate::wire::{
    i16_from_u16, i32_from_u32, i64_from_u64, i8_from_u8, r_i16, r_i32, r_i64, r_i8, r_u16, r_u32,
    r_u64, r_u8, read_u16, read_u32, read_u64, read_u8,
};

verus! {

// ---------------------------------------------------------------------------
// Primitive grammar rules beyond the fixed-width integers.
// ---------------------------------------------------------------------------

/// An element count: a big-endian signed 32-bit integer, which must be
/// non-negative.
pub open spec fn r_count(b: Seq<u8>, p: int) -> Option<(int, int)> {
    match r_i32(b, p) {
        Some((n, q)) => if n >= 0 {
            Some((n as int, q))
        } else {
            None
        },
        None => None,
    }
}

/// Whether the payload bytes a string of declared length `len` at `p`
/// would cover are valid UTF-8.
pub open spec fn r_name_payload_valid(b: Seq<u8>, p: int, len: u16) -> bool {
    valid_utf8(b.subrange(p + 2, p + 2 + len))
}

/// A length-prefixed string: a big-endian unsigned 16-bit byte length, then
/// that many bytes, which must be valid UTF-8.
pub open spec fn r_name(b: Seq<u8>, p: int) -> Option<(Seq<u8>, int)> {
    match r_u16(b, p) {
        Some((len, q)) => if q + len <= b.len() {
            if valid_utf8(b.subrange(q, q + len)) {
                Some((b.subrange(q, q + len), q + len))
            } else {
                None
            }
        } else {
            None
        },
        None => None,
    }
}

// ---------------------------------------------------------------------------
// Extractors and wrappers used to move between a uniform element sequence
// (`Seq<NbtV>`) and the typed payload sequences of the list variants.
// ---------------------------------------------------------------------------

pub open spec fn as_i8(v: NbtV) -> i8 {
    match v {
        NbtV::Byte(x) => x,
        _ => arbitrary(),
    }
}

pub open spec fn as_i16(v: NbtV) -> i16 {
    match v {
        NbtV::Short(x) => x,
        _ => arbitrary(),
    }
}

pub open spec fn as_i32(v: NbtV) -> i32 {
    match v {
        NbtV::Int(x) => x,
        _ => arbitrary(),
    }
}

pub open spec fn as_i64(v: NbtV) -> i64 {
    match v {
        NbtV::Long(x) => x,
        _ => arbitrary(),
    }
}

pub open spec fn as_u32(v: NbtV) -> u32 {
    match v {
        NbtV::Float(x) => x,
        _ => arbitrary(),
    }
}

pub open spec fn as_u64(v: NbtV) -> u64 {
    match v {
        NbtV::Double(x) => x,
        _ => arbitrary(),
    }
}

pub open spec fn as_bytes(v: NbtV) -> Seq<i8> {
    match v {
        NbtV::ByteArray(s) => s,
        _ => arbitrary(),
    }
}

pub open spec fn as_name(v: NbtV) -> Seq<u8> {
    match v {
        NbtV::String(s) => s,
        _ => arbitrary(),
    }
}

pub open spec fn as_list(v: NbtV) -> NbtListV {
    match v {
        NbtV::List(l) => l,
        _ => arbitrary(),
    }
}

pub open spec fn as_compound(v: NbtV) -> Seq<(Seq<u8>, NbtV)> {
    match v {
        NbtV::Compound(es) => es,
        _ => arbitrary(),
    }
}

pub open spec fn as_ints(v: NbtV) -> Seq<i32> {
    match v {
        NbtV::IntArray(s) => s,
        _ => arbitrary(),
    }
}

pub open spec fn as_longs(v: NbtV) -> Seq<i64> {
    match v {
        NbtV::LongArray(s) => s,
        _ => arbitrary(),
    }
}


pub open spec fn to_i8s(es: Seq<NbtV>) -> Seq<i8> {
    es.map_values(|e: NbtV| as_i8(e))
}

pub open spec fn to_i16s(es: Seq<NbtV>) -> Seq<i16> {
    es.map_values(|e: NbtV| as_i16(e))
}

pub open spec fn to_i32s(es: Seq<NbtV>) -> Seq<i32> {
    es.map_values(|e: NbtV| as_i32(e))
}

pub open spec fn to_i64s(es: Seq<NbtV>) -> Seq<i64> {
    es.map_values(|e: NbtV| as_i64(e))
}

pub open spec fn to_u32s(es: Seq<NbtV>) -> Seq<u32> {
    es.map_values(|e: NbtV| as_u32(e))
}

pub open spec fn to_u64s(es: Seq<NbtV>) -> Seq<u64> {
    es.map_values(|e: NbtV| as_u64(e))
}

pub open spec fn to_byte_arrays(es: Seq<NbtV>) -> Seq<Seq<i8>> {
    es.map_values(|e: NbtV| as_bytes(e))
}

pub open spec fn to_names(es: Seq<NbtV>) -> Seq<Seq<u8>> {
    es.map_values(|e: NbtV| as_name(e))
}

pub open spec fn to_lists(es: Seq<NbtV>) -> Seq<NbtListV> {
    es.map_values(|e: NbtV| as_list(e))
}

pub open spec fn to_compounds(es: Seq<NbtV>) -> Seq<Seq<(Seq<u8>, NbtV)>> {
    es.map_values(|e: NbtV| as_compound(e))
}

pub open spec fn to_int_arrays(es: Seq<NbtV>) -> Seq<Seq<i32>> {
    es.map_values(|e: NbtV| as_ints(e))
}

pub open spec fn to_long_arrays(es: Seq<NbtV>) -> Seq<Seq<i64>> {
    es.map_values(|e: NbtV| as_longs(e))
}

/// The list variant declared by element tag `t`, holding the given decoded
/// elements.
pub open spec fn pack_list(t: u8, es: Seq<NbtV>) -> NbtListV {
    if t == TAG_BYTE {
        NbtListV::ByteList(to_i8s(es))
    } else if t == TAG_SHORT {
        NbtListV::ShortList(to_i16s(es))
    } else if t == TAG_INT {
        NbtListV::IntList(to_i32s(es))
    } else if t == TAG_LONG {
        NbtListV::LongList(to_i64s(es))
    } else if t == TAG_FLOAT {
        NbtListV::FloatList(to_u32s(es))
    } else if t == TAG_DOUBLE {
        NbtListV::DoubleList(to_u64s(es))
    } else if t == TAG_BYTE_ARRAY {
        NbtListV::ByteArrayList(to_byte_arrays(es))
    } else if t == TAG_STRING {
        NbtListV::StringList(to_names(es))
    } else if t == TAG_LIST {
        NbtListV::ListList(to_lists(es))
    } else if t == TAG_COMPOUND {
        NbtListV::CompoundList(to_compounds(es))
    } else if t == TAG_INT_ARRAY {
        NbtListV::IntArrayList(to_int_arrays(es))
    } else if t == TAG_LONG_ARRAY {
        NbtListV::LongArrayList(to_long_arrays(es))
    } else {
        NbtListV::EmptyList
    }
}

/// Insertion with last-write-wins semantics: replace the first entry whose
/// key matches, else append.
pub open spec fn upsert(es: Seq<(Seq<u8>, NbtV)>, k: Seq<u8>, v: NbtV) -> Seq<(Seq<u8>, NbtV)>
    decreases es.len(),
{
    if es.len() == 0 {
        seq![(k, v)]
    } else if es[0].0 == k {
        seq![(k, v)] + es.drop_first()
    } else {
        seq![es[0]] + upsert(es.drop_first(), k, v)
    }
}

/// When a key is already present (first at index `i`), upsert replaces that
/// entry in place.
pub proof fn lemma_upsert_update(es: Seq<(Seq<u8>, NbtV)>, k: Seq<u8>, v: NbtV, i: int)
    requires
        0 <= i < es.len(),
        es[i].0 == k,
        forall|j: int| 0 <= j < i ==> (#[trigger] es[j]).0 != k,
    ensures
        upsert(es, k, v) == es.update(i, (k, v)),
    decreases es.len(),
{
    if i == 0 {
        assert(upsert(es, k, v) =~= es.update(0, (k, v)));
    } else {
        assert(es.drop_first()[i - 1].0 == k);
        assert(forall|j: int|
            0 <= j < i - 1 ==> (#[trigger] es.drop_first()[j]).0 == es[j + 1].0);
        lemma_upsert_update(es.drop_first(), k, v, i - 1);
        assert(upsert(es, k, v) =~= es.update(i, (k, v)));
    }
}

/// When a key is absent, upsert appends the new entry.
pub proof fn lemma_upsert_push(es: Seq<(Seq<u8>, NbtV)>, k: Seq<u8>, v: NbtV)
    requires
        forall|j: int| 0 <= j < es.len() ==> (#[trigger] es[j]).0 != k,
    ensures
        upsert(es, k, v) == es.push((k, v)),
    decreases es.len(),
{
    if es.len() == 0 {
        assert(upsert(es, k, v) =~= es.push((k, v)));
    } else {
        assert(forall|j: int|
            0 <= j < es.drop_first().len() ==> (#[trigger] es.drop_first()[j]).0 == es[
                j + 1
            ].0);
        lemma_upsert_push(es.drop_first(), k, v);
        assert(upsert(es, k, v) =~= es.push((k, v)));
    }
}

// ---------------------------------------------------------------------------
// The grammar itself. `fuel` bounds nesting; positions only move forward,
// which (together with the fuel) is what the termination measures express.
// ---------------------------------------------------------------------------

/// The payload of a value of kind `tag` at position `p`.
pub open spec fn sdec_payload(b: Seq<u8>, p: int, tag: u8, fuel: nat) -> Option<(NbtV, int)>
    decreases fuel, b.len() - p, 1int, 0int,
{
    if tag == TAG_BYTE {
        match r_i8(b, p) {
            Some((x, q)) => Some((NbtV::Byte(x), q)),
            None => None,
        }
    } else if tag == TAG_SHORT {
        match r_i16(b, p) {
            Some((x, q)) => Some((NbtV::Short(x), q)),
            None => None,
        }
    } else if tag == TAG_INT {
        match r_i32(b, p) {
            Some((x, q)) => Some((NbtV::Int(x), q)),
            None => None,
        }
    } else if tag == TAG_LONG {
        match r_i64(b, p) {
            Some((x, q)) => Some((NbtV::Long(x), q)),
            None => None,
        }
    } else if tag == TAG_FLOAT {
        match r_u32(b, p) {
            Some((x, q)) => Some((NbtV::Float(x), q)),
            None => None,
        }
    } else if tag == TAG_DOUBLE {
        match r_u64(b, p) {
            Some((x, q)) => Some((NbtV::Double(x), q)),
            None => None,
        }
    } else if tag == TAG_BYTE_ARRAY {
        match r_count(b, p) {
            Some((n, q)) => if 0 <= p && q <= b.len() && p < q {
                match sdec_elems(b, q, TAG_BYTE, n, Seq::empty(), fuel) {
                    Some((es, r)) => Some((NbtV::ByteArray(to_i8s(es)), r)),
                    None => None,
                }
            } else {
                None
            },
            None => None,
        }
    } else if tag == TAG_STRING {
        match r_name(b, p) {
            Some((s, q)) => Some((NbtV::String(s), q)),
            None => None,
        }
    } else if tag == TAG_LIST {
        match sdec_list(b, p, fuel) {
            Some((l, q)) => Some((NbtV::List(l), q)),
            None => None,
        }
    } else if tag == TAG_COMPOUND {
        match sdec_fields(b, p, Seq::empty(), fuel) {
            Some((es, q)) => Some((NbtV::Compound(es), q)),
            None => None,
        }
    } else if tag == TAG_INT_ARRAY {
        match r_count(b, p) {
            Some((n, q)) => if 0 <= p && q <= b.len() && p < q {
                match sdec_elems(b, q, TAG_INT, n, Seq::empty(), fuel) {
                    Some((es, r)) => Some((NbtV::IntArray(to_i32s(es)), r)),
                    None => None,
                }
            } else {
                None
            },
            None => None,
        }
    } else if tag == TAG_LONG_ARRAY {
        match r_count(b, p) {
            Some((n, q)) => if 0 <= p && q <= b.len() && p < q {
                match sdec_elems(b, q, TAG_LONG, n, Seq::empty(), fuel) {
                    Some((es, r)) => Some((NbtV::LongArray(to_i64s(es)), r)),
                    None => None,
                }
            } else {
                None
            },
            None => None,
        }
    } else {
        None
    }
}

/// A list payload: one element-kind tag, one count, then that many
/// payload-only elements. An End element tag yields the empty list whatever
/// the count; descending into elements costs one unit of fuel.
pub open spec fn sdec_list(b: Seq<u8>, p: int, fuel: nat) -> Option<(NbtListV, int)>
    decreases fuel, b.len() - p, 0int, 0int,
{
    match r_u8(b, p) {
        Some((etag, p1)) => match r_i32(b, p1) {
            Some((cnt, p2)) => {
                if etag == TAG_END {
                    Some((NbtListV::EmptyList, p2))
                } else if !tag_valid(etag) {
                    None
                } else if cnt < 0 {
                    None
                } else if fuel == 0 {
                    None
                } else {
                    if 0 <= p && p < p2 <= b.len() {
                        match sdec_elems(b, p2, etag, cnt as int, Seq::empty(), (fuel - 1) as nat) {
                            Some((es, q)) => Some((pack_list(etag, es), q)),
                            None => None,
                        }
                    } else {
                        None
                    }
                }
            },
            None => None,
        },
        None => None,
    }
}

/// `n` consecutive payload-only elements of kind `etag`, accumulated onto
/// `acc`.
pub open spec fn sdec_elems(b: Seq<u8>, p: int, etag: u8, n: int, acc: Seq<NbtV>, fuel: nat) -> Option<
    (Seq<NbtV>, int),
>
    decreases fuel, b.len() - p, 2int, n,
{
    if n <= 0 {
        Some((acc, p))
    } else {
        match sdec_payload(b, p, etag, fuel) {
            Some((v, q)) => if p < q <= b.len() {
                sdec_elems(b, q, etag, n - 1, acc.push(v), fuel)
            } else {
                None
            },
            None => None,
        }
    }
}

/// The fields of a compound: repeatedly a tag byte; End stops, any other
/// valid tag is followed by a name and a payload, inserted with
/// last-write-wins. Descending into a field's payload costs one unit of
/// fuel.
pub open spec fn sdec_fields(
    b: Seq<u8>,
    p: int,
    acc: Seq<(Seq<u8>, NbtV)>,
    fuel: nat,
) -> Option<(Seq<(Seq<u8>, NbtV)>, int)>
    decreases fuel, b.len() - p, 0int, 0int,
{
    match r_u8(b, p) {
        Some((tag, p1)) => {
            if tag == TAG_END {
                Some((acc, p1))
            } else if !tag_valid(tag) {
                None
            } else if fuel == 0 {
                None
            } else {
                match r_name(b, p1) {
                    Some((key, p2)) => match sdec_payload(b, p2, tag, (fuel - 1) as nat) {
                        Some((v, p3)) => if 0 <= p && p < p3 <= b.len() {
                            sdec_fields(b, p3, upsert(acc, key, v), fuel)
                        } else {
                            None
                        },
                        None => None,
                    },
                    None => None,
                }
            }
        },
        None => None,
    }
}

/// A whole document: the root tag byte, the root name, then the root
/// payload, decoded with the full recursion budget. Trailing bytes after
/// the root payload are ignored, as the format is exactly one document.
pub open spec fn sdec_doc(b: Seq<u8>) -> Option<(Seq<u8>, NbtV, int)> {
    match r_u8(b, 0) {
        Some((tag, p0)) => match r_name(b, p0) {
            Some((n, p1)) => match sdec_payload(b, p1, tag, MAX_DEPTH as nat) {
                Some((v, end)) => Some((n, v, end)),
                None => None,
            },
            None => None,
        },
        None => None,
    }
}

// ---------------------------------------------------------------------------
// Executable primitive readers.
// ---------------------------------------------------------------------------

/// Relies on `String::from_utf8`: it succeeds exactly when the bytes are
/// valid UTF-8, and then returns the string whose characters are the decoded
/// scalar values of those bytes.
#[verifier::external_body]
fn bytes_to_string(v: Vec<u8>) -> (r: Option<String>)
    ensures
        match r {
            Some(s) => valid_utf8(v@) && s@ == decode_utf8(v@),
            None => !valid_utf8(v@),
        },
{
    match String::from_utf8(v) {
        Ok(s) => Some(s),
        Err(_) => None,
    }
}

fn read_i8(b: &[u8], p: usize) -> (r: Result<(i8, usize), Error>)
    requires
        p <= b@.len(),
    ensures
        match r {
            Ok((x, q)) => r_i8(b@, p as int) == Some((x, q as int)) && p < q <= b@.len(),
            Err(e) => r_i8(b@, p as int) is None && e is Malformed,
        },
{
    match read_u8(b, p) {
        Ok((x, q)) => Ok((i8_from_u8(x), q)),
        Err(e) => Err(e),
    }
}

fn read_i16(b: &[u8], p: usize) -> (r: Result<(i16, usize), Error>)
    requires
        p <= b@.len(),
    ensures
        match r {
            Ok((x, q)) => r_i16(b@, p as int) == Some((x, q as int)) && p < q <= b@.len(),
            Err(e) => r_i16(b@, p as int) is None && e is Malformed,
        },
{
    match read_u16(b, p) {
        Ok((x, q)) => Ok((i16_from_u16(x), q)),
        Err(e) => Err(e),
    }
}

fn read_i32(b: &[u8], p: usize) -> (r: Result<(i32, usize), Error>)
    requires
        p <= b@.len(),
    ensures
        match r {
            Ok((x, q)) => r_i32(b@, p as int) == Some((x, q as int)) && p < q <= b@.len(),
            Err(e) => r_i32(b@, p as int) is None && e is Malformed,
        },
{
    match read_u32(b, p) {
        Ok((x, q)) => Ok((i32_from_u32(x), q)),
        Err(e) => Err(e),
    }
}

fn read_i64(b: &[u8], p: usize) -> (r: Result<(i64, usize), Error>)
    requires
        p <= b@.len(),
    ensures
        match r {
            Ok((x, q)) => r_i64(b@, p as int) == Some((x, q as int)) && p < q <= b@.len(),
            Err(e) => r_i64(b@, p as int) is None && e is Malformed,
        },
{
    match read_u64(b, p) {
        Ok((x, q)) => Ok((i64_from_u64(x), q)),
        Err(e) => Err(e),
    }
}

/// Reads an element count and rejects a negative one as malformed.
fn read_count(b: &[u8], p: usize) -> (r: Result<(usize, usize), Error>)
    requires
        p <= b@.len(),
    ensures
        match r {
            Ok((n, q)) => r_count(b@, p as int) == Some((n as int, q as int)) && p < q <= b@.len()
                && n <= 0x7fff_ffff,
            Err(e) => r_count(b@, p as int) is None && e is Malformed,
        },
{
    match read_i32(b, p) {
        Ok((x, q)) => {
            if x < 0 {
                Err(Error::Malformed(loc_of(p)))
            } else {
                Ok((x as usize, q))
            }
        },
        Err(e) => Err(e),
    }
}

/// Reads a length-prefixed UTF-8 string.
fn read_name(b: &[u8], p: usize) -> (r: Result<(String, usize), Error>)
    requires
        p <= b@.len(),
    ensures
        match r {
            Ok((s, q)) => r_name(b@, p as int) == Some((name_bytes(s), q as int)) && p < q
                <= b@.len(),
            Err(e) => r_name(b@, p as int) is None && e is Malformed,
        },
{
    let (len16, p2) = match read_u16(b, p) {
        Ok(x) => x,
        Err(e) => {
            return Err(e);
        },
    };
    let len = len16 as usize;
    if b.len() - p2 < len {
        return Err(Error::Malformed(loc_of(p2)));
    }
    let sub = slice_subrange(b, p2, p2 + len);
    let buf = slice_to_vec(sub);
    assert(buf@ =~= b@.subrange(p2 as int, p2 as int + len));
    match bytes_to_string(buf) {
        Some(s) => {
            proof {
                vstd::utf8::decode_utf8_encode_utf8(b@.subrange(p2 as int, p2 as int + len));
            }
            Ok((s, p2 + len))
        },
        None => Err(Error::Malformed(loc_of(p2))),
    }
}

// ---------------------------------------------------------------------------
// Element-sequence views: the uniform `Seq<NbtV>` of a typed payload vector.
// ---------------------------------------------------------------------------

pub open spec fn byte_elems(s: Seq<i8>) -> Seq<NbtV> {
    s.map_values(|x: i8| NbtV::Byte(x))
}

pub open spec fn short_elems(s: Seq<i16>) -> Seq<NbtV> {
    s.map_values(|x: i16| NbtV::Short(x))
}

pub open spec fn int_elems(s: Seq<i32>) -> Seq<NbtV> {
    s.map_values(|x: i32| NbtV::Int(x))
}

pub open spec fn long_elems(s: Seq<i64>) -> Seq<NbtV> {
    s.map_values(|x: i64| NbtV::Long(x))
}

pub open spec fn float_elems(s: Seq<u32>) -> Seq<NbtV> {
    s.map_values(|x: u32| NbtV::Float(x))
}

pub open spec fn double_elems(s: Seq<u64>) -> Seq<NbtV> {
    s.map_values(|x: u64| NbtV::Double(x))
}

/// `n` byte elements starting at `p`.
fn read_i8s(b: &[u8], p: usize, n: usize) -> (r: Result<(Vec<i8>, usize), Error>)
    requires
        p <= b@.len(),
    ensures
        match r {
            Ok((v, q)) => v@.len() == n && p <= q <= b@.len() && forall|fuel: nat|
                #[trigger] sdec_elems(b@, p as int, TAG_BYTE, n as int, Seq::empty(), fuel)
                    == Some((byte_elems(v@), q as int)),
            Err(e) => (forall|fuel: nat|
                #[trigger] sdec_elems(b@, p as int, TAG_BYTE, n as int, Seq::empty(), fuel)
                    is None) && e is Malformed,
        },
{
    let mut out: Vec<i8> = Vec::new();
    let mut cur = p;
    let mut k: usize = 0;
    proof {
        assert(byte_elems(out@) =~= Seq::<NbtV>::empty());
    }
    while k < n
        invariant
            p <= cur <= b@.len(),
            0 <= k <= n,
            out@.len() == k,
            forall|fuel: nat|
                #[trigger] sdec_elems(b@, p as int, TAG_BYTE, n as int, Seq::empty(), fuel)
                    == sdec_elems(b@, cur as int, TAG_BYTE, n - k, byte_elems(out@), fuel),
        decreases n - k,
    {
        match read_i8(b, cur) {
            Ok((x, q)) => {
                proof {
                    assert forall|fuel: nat|
                        #![trigger sdec_elems(b@, cur as int, TAG_BYTE, n - k, byte_elems(out@), fuel)]
                        sdec_elems(b@, cur as int, TAG_BYTE, n - k, byte_elems(out@), fuel)
                            == sdec_elems(
                            b@,
                            q as int,
                            TAG_BYTE,
                            n - (k + 1),
                            byte_elems(out@.push(x)),
                            fuel,
                        ) by {
                        assert(sdec_payload(b@, cur as int, TAG_BYTE, fuel) == Some((
                            NbtV::Byte(x),
                            q as int,
                        )));
                        assert(byte_elems(out@.push(x)) =~= byte_elems(out@).push(NbtV::Byte(x)));
                    }
                }
                out.push(x);
                cur = q;
                k = k + 1;
            },
            Err(e) => {
                proof {
                    assert forall|fuel: nat|
                        #![trigger sdec_elems(b@, p as int, TAG_BYTE, n as int, Seq::empty(), fuel)]
                        sdec_elems(b@, p as int, TAG_BYTE, n as int, Seq::empty(), fuel)
                            is None by {
                        assert(sdec_payload(b@, cur as int, TAG_BYTE, fuel) is None);
                        assert(sdec_elems(b@, cur as int, TAG_BYTE, n - k, byte_elems(out@), fuel)
                            is None);
                    }
                }
                return Err(e);
            },
        }
    }
    Ok((out, cur))
}

/// `n` short elements starting at `p`.
fn read_i16s(b: &[u8], p: usize, n: usize) -> (r: Result<(Vec<i16>, usize), Error>)
    requires
        p <= b@.len(),
    ensures
        match r {
            Ok((v, q)) => v@.len() == n && p <= q <= b@.len() && forall|fuel: nat|
                #[trigger] sdec_elems(b@, p as int, TAG_SHORT, n as int, Seq::empty(), fuel)
                    == Some((short_elems(v@), q as int)),
            Err(e) => (forall|fuel: nat|
                #[trigger] sdec_elems(b@, p as int, TAG_SHORT, n as int, Seq::empty(), fuel)
                    is None) && e is Malformed,
        },
{
    let mut out: Vec<i16> = Vec::new();
    let mut cur = p;
    let mut k: usize = 0;
    proof {
        assert(short_elems(out@) =~= Seq::<NbtV>::empty());
    }
    while k < n
        invariant
            p <= cur <= b@.len(),
            0 <= k <= n,
            out@.len() == k,
            forall|fuel: nat|
                #[trigger] sdec_elems(b@, p as int, TAG_SHORT, n as int, Seq::empty(), fuel)
                    == sdec_elems(b@, cur as int, TAG_SHORT, n - k, short_elems(out@), fuel),
        decreases n - k,
    {
        match read_i16(b, cur) {
            Ok((x, q)) => {
                proof {
                    assert forall|fuel: nat|
                        #![trigger sdec_elems(b@, cur as int, TAG_SHORT, n - k, short_elems(out@), fuel)]
                        sdec_elems(b@, cur as int, TAG_SHORT, n - k, short_elems(out@), fuel)
                            == sdec_elems(
                            b@,
                            q as int,
                            TAG_SHORT,
                            n - (k + 1),
                            short_elems(out@.push(x)),
                            fuel,
                        ) by {
                        assert(sdec_payload(b@, cur as int, TAG_SHORT, fuel) == Some((
                            NbtV::Short(x),
                            q as int,
                        )));
                        assert(short_elems(out@.push(x)) =~= short_elems(out@).push(
                            NbtV::Short(x),
                        ));
                    }
                }
                out.push(x);
                cur = q;
                k = k + 1;
            },
            Err(e) => {
                proof {
                    assert forall|fuel: nat|
                        #![trigger sdec_elems(b@, p as int, TAG_SHORT, n as int, Seq::empty(), fuel)]
                        sdec_elems(b@, p as int, TAG_SHORT, n as int, Seq::empty(), fuel)
                            is None by {
                        assert(sdec_payload(b@, cur as int, TAG_SHORT, fuel) is None);
                        assert(sdec_elems(b@, cur as int, TAG_SHORT, n - k, short_elems(out@), fuel)
                            is None);
                    }
                }
                return Err(e);
            },
        }
    }
    Ok((out, cur))
}

/// `n` int elements starting at `p`.
fn read_i32s(b: &[u8], p: usize, n: usize) -> (r: Result<(Vec<i32>, usize), Error>)
    requires
        p <= b@.len(),
    ensures
        match r {
            Ok((v, q)) => v@.len() == n && p <= q <= b@.len() && forall|fuel: nat|
                #[trigger] sdec_elems(b@, p as int, TAG_INT, n as int, Seq::empty(), fuel)
                    == Some((int_elems(v@), q as int)),
            Err(e) => (forall|fuel: nat|
                #[trigger] sdec_elems(b@, p as int, TAG_INT, n as int, Seq::empty(), fuel)
                    is None) && e is Malformed,
        },
{
    let mut out: Vec<i32> = Vec::new();
    let mut cur = p;
    let mut k: usize = 0;
    proof {
        assert(int_elems(out@) =~= Seq::<NbtV>::empty());
    }
    while k < n
        invariant
            p <= cur <= b@.len(),
            0 <= k <= n,
            out@.len() == k,
            forall|fuel: nat|
                #[trigger] sdec_elems(b@, p as int, TAG_INT, n as int, Seq::empty(), fuel)
                    == sdec_elems(b@, cur as int, TAG_INT, n - k, int_elems(out@), fuel),
        decreases n - k,
    {
        match read_i32(b, cur) {
            Ok((x, q)) => {
                proof {
                    assert forall|fuel: nat|
                        #![trigger sdec_elems(b@, cur as int, TAG_INT, n - k, int_elems(out@), fuel)]
                        sdec_elems(b@, cur as int, TAG_INT, n - k, int_elems(out@), fuel)
                            == sdec_elems(
                            b@,
                            q as int,
                            TAG_INT,
                            n - (k + 1),
                            int_elems(out@.push(x)),
                            fuel,
                        ) by {
                        assert(sdec_payload(b@, cur as int, TAG_INT, fuel) == Some((
                            NbtV::Int(x),
                            q as int,
                        )));
                        assert(int_elems(out@.push(x)) =~= int_elems(out@).push(
                            NbtV::Int(x),
                        ));
                    }
                }
                out.push(x);
                cur = q;
                k = k + 1;
            },
            Err(e) => {
                proof {
                    assert forall|fuel: nat|
                        #![trigger sdec_elems(b@, p as int, TAG_INT, n as int, Seq::empty(), fuel)]
                        sdec_elems(b@, p as int, TAG_INT, n as int, Seq::empty(), fuel)
                            is None by {
                        assert(sdec_payload(b@, cur as int, TAG_INT, fuel) is None);
                        assert(sdec_elems(b@, cur as int, TAG_INT, n - k, int_elems(out@), fuel)
                            is None);
                    }
                }
                return Err(e);
            },
        }
    }
    Ok((out, cur))
}

/// `n` long elements starting at `p`.
fn read_i64s(b: &[u8], p: usize, n: usize) -> (r: Result<(Vec<i64>, usize), Error>)
    requires
        p <= b@.len(),
    ensures
        match r {
            Ok((v, q)) => v@.len() == n && p <= q <= b@.len() && forall|fuel: nat|
                #[trigger] sdec_elems(b@, p as int, TAG_LONG, n as int, Seq::empty(), fuel)
                    == Some((long_elems(v@), q as int)),
            Err(e) => (forall|fuel: nat|
                #[trigger] sdec_elems(b@, p as int, TAG_LONG, n as int, Seq::empty(), fuel)
                    is None) && e is Malformed,
        },
{
    let mut out: Vec<i64> = Vec::new();
    let mut cur = p;
    let mut k: usize = 0;
    proof {
        assert(long_elems(out@) =~= Seq::<NbtV>::empty());
    }
    while k < n
        invariant
            p <= cur <= b@.len(),
            0 <= k <= n,
            out@.len() == k,
            forall|fuel: nat|
                #[trigger] sdec_elems(b@, p as int, TAG_LONG, n as int, Seq::empty(), fuel)
                    == sdec_elems(b@, cur as int, TAG_LONG, n - k, long_elems(out@), fuel),
        decreases n - k,
    {
        match read_i64(b, cur) {
            Ok((x, q)) => {
                proof {
                    assert forall|fuel: nat|
                        #![trigger sdec_elems(b@, cur as int, TAG_LONG, n - k, long_elems(out@), fuel)]
                        sdec_elems(b@, cur as int, TAG_LONG, n - k, long_elems(out@), fuel)
                            == sdec_elems(
                            b@,
                            q as int,
                            TAG_LONG,
                            n - (k + 1),
                            long_elems(out@.push(x)),
                            fuel,
                        ) by {
                        assert(sdec_payload(b@, cur as int, TAG_LONG, fuel) == Some((
                            NbtV::Long(x),
                            q as int,
                        )));
                        assert(long_elems(out@.push(x)) =~= long_elems(out@).push(
                            NbtV::Long(x),
                        ));
                    }
                }
                out.push(x);
                cur = q;
                k = k + 1;
            },
            Err(e) => {
                proof {
                    assert forall|fuel: nat|
                        #![trigger sdec_elems(b@, p as int, TAG_LONG, n as int, Seq::empty(), fuel)]
                        sdec_elems(b@, p as int, TAG_LONG, n as int, Seq::empty(), fuel)
                            is None by {
                        assert(sdec_payload(b@, cur as int, TAG_LONG, fuel) is None);
                        assert(sdec_elems(b@, cur as int, TAG_LONG, n - k, long_elems(out@), fuel)
                            is None);
                    }
                }
                return Err(e);
            },
        }
    }
    Ok((out, cur))
}

/// `n` float elements starting at `p`.
fn read_u32s(b: &[u8], p: usize, n: usize) -> (r: Result<(Vec<u32>, usize), Error>)
    requires
        p <= b@.len(),
    ensures
        match r {
            Ok((v, q)) => v@.len() == n && p <= q <= b@.len() && forall|fuel: nat|
                #[trigger] sdec_elems(b@, p as int, TAG_FLOAT, n as int, Seq::empty(), fuel)
                    == Some((float_elems(v@), q as int)),
            Err(e) => (forall|fuel: nat|
                #[trigger] sdec_elems(b@, p as int, TAG_FLOAT, n as int, Seq::empty(), fuel)
                    is None) && e is Malformed,
        },
{
    let mut out: Vec<u32> = Vec::new();
    let mut cur = p;
    let mut k: usize = 0;
    proof {
        assert(float_elems(out@) =~= Seq::<NbtV>::empty());
    }
    while k < n
        invariant
            p <= cur <= b@.len(),
            0 <= k <= n,
            out@.len() == k,
            forall|fuel: nat|
                #[trigger] sdec_elems(b@, p as int, TAG_FLOAT, n as int, Seq::empty(), fuel)
                    == sdec_elems(b@, cur as int, TAG_FLOAT, n - k, float_elems(out@), fuel),
        decreases n - k,
    {
        match read_u32(b, cur) {
            Ok((x, q)) => {
                proof {
                    assert forall|fuel: nat|
                        #![trigger sdec_elems(b@, cur as int, TAG_FLOAT, n - k, float_elems(out@), fuel)]
                        sdec_elems(b@, cur as int, TAG_FLOAT, n - k, float_elems(out@), fuel)
                            == sdec_elems(
                            b@,
                            q as int,
                            TAG_FLOAT,
                            n - (k + 1),
                            float_elems(out@.push(x)),
                            fuel,
                        ) by {
                        assert(sdec_payload(b@, cur as int, TAG_FLOAT, fuel) == Some((
                            NbtV::Float(x),
                            q as int,
                        )));
                        assert(float_elems(out@.push(x)) =~= float_elems(out@).push(
                            NbtV::Float(x),
                        ));
                    }
                }
                out.push(x);
                cur = q;
                k = k + 1;
            },
            Err(e) => {
                proof {
                    assert forall|fuel: nat|
                        #![trigger sdec_elems(b@, p as int, TAG_FLOAT, n as int, Seq::empty(), fuel)]
                        sdec_elems(b@, p as int, TAG_FLOAT, n as int, Seq::empty(), fuel)
                            is None by {
                        assert(sdec_payload(b@, cur as int, TAG_FLOAT, fuel) is None);
                        assert(sdec_elems(b@, cur as int, TAG_FLOAT, n - k, float_elems(out@), fuel)
                            is None);
                    }
                }
                return Err(e);
            },
        }
    }
    Ok((out, cur))
}

/// `n` double elements starting at `p`.
fn read_u64s(b: &[u8], p: usize, n: usize) -> (r: Result<(Vec<u64>, usize), Error>)
    requires
        p <= b@.len(),
    ensures
        match r {
            Ok((v, q)) => v@.len() == n && p <= q <= b@.len() && forall|fuel: nat|
                #[trigger] sdec_elems(b@, p as int, TAG_DOUBLE, n as int, Seq::empty(), fuel)
                    == Some((double_elems(v@), q as int)),
            Err(e) => (forall|fuel: nat|
                #[trigger] sdec_elems(b@, p as int, TAG_DOUBLE, n as int, Seq::empty(), fuel)
                    is None) && e is Malformed,
        },
{
    let mut out: Vec<u64> = Vec::new();
    let mut cur = p;
    let mut k: usize = 0;
    proof {
        assert(double_elems(out@) =~= Seq::<NbtV>::empty());
    }
    while k < n
        invariant
            p <= cur <= b@.len(),
            0 <= k <= n,
            out@.len() == k,
            forall|fuel: nat|
                #[trigger] sdec_elems(b@, p as int, TAG_DOUBLE, n as int, Seq::empty(), fuel)
                    == sdec_elems(b@, cur as int, TAG_DOUBLE, n - k, double_elems(out@), fuel),
        decreases n - k,
    {
        match read_u64(b, cur) {
            Ok((x, q)) => {
                proof {
                    assert forall|fuel: nat|
                        #![trigger sdec_elems(b@, cur as int, TAG_DOUBLE, n - k, double_elems(out@), fuel)]
                        sdec_elems(b@, cur as int, TAG_DOUBLE, n - k, double_elems(out@), fuel)
                            == sdec_elems(
                            b@,
                            q as int,
                            TAG_DOUBLE,
                            n - (k + 1),
                            double_elems(out@.push(x)),
                            fuel,
                        ) by {
                        assert(sdec_payload(b@, cur as int, TAG_DOUBLE, fuel) == Some((
                            NbtV::Double(x),
                            q as int,
                        )));
                        assert(double_elems(out@.push(x)) =~= double_elems(out@).push(
                            NbtV::Double(x),
                        ));
                    }
                }
                out.push(x);
                cur = q;
                k = k + 1;
            },
            Err(e) => {
                proof {
                    assert forall|fuel: nat|
                        #![trigger sdec_elems(b@, p as int, TAG_DOUBLE, n as int, Seq::empty(), fuel)]
                        sdec_elems(b@, p as int, TAG_DOUBLE, n as int, Seq::empty(), fuel)
                            is None by {
                        assert(sdec_payload(b@, cur as int, TAG_DOUBLE, fuel) is None);
                        assert(sdec_elems(b@, cur as int, TAG_DOUBLE, n - k, double_elems(out@), fuel)
                            is None);
                    }
                }
                return Err(e);
            },
        }
    }
    Ok((out, cur))
}

// ---------------------------------------------------------------------------
// Extraction undoes wrapping: packing a sequence of uniformly-wrapped
// elements restores the typed payload sequence.
// ---------------------------------------------------------------------------

pub proof fn lemma_unwrap_i8s(s: Seq<i8>)
    ensures
        to_i8s(byte_elems(s)) == s,
{
    assert(to_i8s(byte_elems(s)) =~= s);
}

pub proof fn lemma_unwrap_i16s(s: Seq<i16>)
    ensures
        to_i16s(short_elems(s)) == s,
{
    assert(to_i16s(short_elems(s)) =~= s);
}

pub proof fn lemma_unwrap_i32s(s: Seq<i32>)
    ensures
        to_i32s(int_elems(s)) == s,
{
    assert(to_i32s(int_elems(s)) =~= s);
}

pub proof fn lemma_unwrap_i64s(s: Seq<i64>)
    ensures
        to_i64s(long_elems(s)) == s,
{
    assert(to_i64s(long_elems(s)) =~= s);
}

pub proof fn lemma_unwrap_u32s(s: Seq<u32>)
    ensures
        to_u32s(float_elems(s)) == s,
{
    assert(to_u32s(float_elems(s)) =~= s);
}

pub proof fn lemma_unwrap_u64s(s: Seq<u64>)
    ensures
        to_u64s(double_elems(s)) == s,
{
    assert(to_u64s(double_elems(s)) =~= s);
}

pub open spec fn string_elems(s: Seq<String>) -> Seq<NbtV> {
    s.map_values(|x: String| NbtV::String(name_bytes(x)))
}

pub open spec fn barr_elems(s: Seq<Vec<i8>>) -> Seq<NbtV> {
    s.map_values(|x: Vec<i8>| NbtV::ByteArray(x@))
}

pub open spec fn iarr_elems(s: Seq<Vec<i32>>) -> Seq<NbtV> {
    s.map_values(|x: Vec<i32>| NbtV::IntArray(x@))
}

pub open spec fn larr_elems(s: Seq<Vec<i64>>) -> Seq<NbtV> {
    s.map_values(|x: Vec<i64>| NbtV::LongArray(x@))
}

pub open spec fn listv_elems(s: Seq<NbtList>) -> Seq<NbtV> {
    s.map_values(|x: NbtList| NbtV::List(view_list(x)))
}

pub open spec fn comp_elems(s: Seq<Vec<(String, NbtValue)>>) -> Seq<NbtV> {
    s.map_values(|x: Vec<(String, NbtValue)>| NbtV::Compound(view_entries(x@, 0)))
}

pub proof fn lemma_unwrap_names(s: Seq<String>)
    ensures
        to_names(string_elems(s)) == crate::value::names_views(s),
{
    assert(to_names(string_elems(s)) =~= crate::value::names_views(s));
}

pub proof fn lemma_unwrap_byte_arrays(s: Seq<Vec<i8>>)
    ensures
        to_byte_arrays(barr_elems(s)) == crate::value::bytes_views(s),
{
    assert(to_byte_arrays(barr_elems(s)) =~= crate::value::bytes_views(s));
}

pub proof fn lemma_unwrap_int_arrays(s: Seq<Vec<i32>>)
    ensures
        to_int_arrays(iarr_elems(s)) == crate::value::ints_views(s),
{
    assert(to_int_arrays(iarr_elems(s)) =~= crate::value::ints_views(s));
}

pub proof fn lemma_unwrap_long_arrays(s: Seq<Vec<i64>>)
    ensures
        to_long_arrays(larr_elems(s)) == crate::value::longs_views(s),
{
    assert(to_long_arrays(larr_elems(s)) =~= crate::value::longs_views(s));
}

pub proof fn lemma_unwrap_lists(s: Seq<NbtList>)
    ensures
        to_lists(listv_elems(s)) == crate::value::view_lists(s, 0),
{
    crate::value::lemma_view_lists(s, 0);
    assert(to_lists(listv_elems(s)) =~= crate::value::view_lists(s, 0));
}

pub proof fn lemma_unwrap_compounds(s: Seq<Vec<(String, NbtValue)>>)
    ensures
        to_compounds(comp_elems(s)) == crate::value::view_compounds(s, 0),
{
    crate::value::lemma_view_compounds(s, 0);
    assert(to_compounds(comp_elems(s)) =~= crate::value::view_compounds(s, 0));
}

/// `n` string elements starting at `p`.
fn read_strings(b: &[u8], p: usize, n: usize) -> (r: Result<(Vec<String>, usize), Error>)
    requires
        p <= b@.len(),
    ensures
        match r {
            Ok((v, q)) => v@.len() == n && p <= q <= b@.len() && forall|fuel: nat|
                #[trigger] sdec_elems(b@, p as int, TAG_STRING, n as int, Seq::empty(), fuel)
                    == Some((string_elems(v@), q as int)),
            Err(e) => (forall|fuel: nat|
                #[trigger] sdec_elems(b@, p as int, TAG_STRING, n as int, Seq::empty(), fuel)
                    is None) && e is Malformed,
        },
{
    let mut out: Vec<String> = Vec::new();
    let mut cur = p;
    let mut k: usize = 0;
    proof {
        assert(string_elems(out@) =~= Seq::<NbtV>::empty());
    }
    while k < n
        invariant
            p <= cur <= b@.len(),
            0 <= k <= n,
            out@.len() == k,
            forall|fuel: nat|
                #[trigger] sdec_elems(b@, p as int, TAG_STRING, n as int, Seq::empty(), fuel)
                    == sdec_elems(b@, cur as int, TAG_STRING, n - k, string_elems(out@), fuel),
        decreases n - k,
    {
        match read_name(b, cur) {
            Ok((x, q)) => {
                let ghost xs = x;
                proof {
                    assert forall|fuel: nat|
                        #![trigger sdec_elems(b@, cur as int, TAG_STRING, n - k, string_elems(out@), fuel)]
                        sdec_elems(b@, cur as int, TAG_STRING, n - k, string_elems(out@), fuel)
                            == sdec_elems(
                            b@,
                            q as int,
                            TAG_STRING,
                            n - (k + 1),
                            string_elems(out@.push(xs)),
                            fuel,
                        ) by {
                        assert(sdec_payload(b@, cur as int, TAG_STRING, fuel) == Some((
                            NbtV::String(name_bytes(xs)),
                            q as int,
                        )));
                        assert(string_elems(out@.push(xs)) =~= string_elems(out@).push(
                            NbtV::String(name_bytes(xs)),
                        ));
                    }
                }
                out.push(x);
                cur = q;
                k = k + 1;
            },
            Err(e) => {
                proof {
                    assert forall|fuel: nat|
                        #![trigger sdec_elems(b@, p as int, TAG_STRING, n as int, Seq::empty(), fuel)]
                        sdec_elems(b@, p as int, TAG_STRING, n as int, Seq::empty(), fuel)
                            is None by {
                        assert(sdec_payload(b@, cur as int, TAG_STRING, fuel) is None);
                        assert(sdec_elems(
                            b@,
                            cur as int,
                            TAG_STRING,
                            n - k,
                            string_elems(out@),
                            fuel,
                        ) is None);
                    }
                }
                return Err(e);
            },
        }
    }
    Ok((out, cur))
}

/// `n` byte-array elements starting at `p`.
fn read_byte_array_elems(b: &[u8], p: usize, n: usize) -> (r: Result<(Vec<Vec<i8>>, usize), Error>)
    requires
        p <= b@.len(),
    ensures
        match r {
            Ok((v, q)) => v@.len() == n && p <= q <= b@.len() && forall|fuel: nat|
                #[trigger] sdec_elems(b@, p as int, TAG_BYTE_ARRAY, n as int, Seq::empty(), fuel)
                    == Some((barr_elems(v@), q as int)),
            Err(e) => (forall|fuel: nat|
                #[trigger] sdec_elems(b@, p as int, TAG_BYTE_ARRAY, n as int, Seq::empty(), fuel)
                    is None) && e is Malformed,
        },
{
    let mut out: Vec<Vec<i8>> = Vec::new();
    let mut cur = p;
    let mut k: usize = 0;
    proof {
        assert(barr_elems(out@) =~= Seq::<NbtV>::empty());
    }
    while k < n
        invariant
            p <= cur <= b@.len(),
            0 <= k <= n,
            out@.len() == k,
            forall|fuel: nat|
                #[trigger] sdec_elems(b@, p as int, TAG_BYTE_ARRAY, n as int, Seq::empty(), fuel)
                    == sdec_elems(b@, cur as int, TAG_BYTE_ARRAY, n - k, barr_elems(out@), fuel),
        decreases n - k,
    {
        let (cnt, q1) = match read_count(b, cur) {
            Ok(x) => x,
            Err(e) => {
                proof {
                    assert forall|fuel: nat|
                        #![trigger sdec_elems(b@, p as int, TAG_BYTE_ARRAY, n as int, Seq::empty(), fuel)]
                        sdec_elems(b@, p as int, TAG_BYTE_ARRAY, n as int, Seq::empty(), fuel)
                            is None by {
                        assert(sdec_payload(b@, cur as int, TAG_BYTE_ARRAY, fuel) is None);
                        assert(sdec_elems(
                            b@,
                            cur as int,
                            TAG_BYTE_ARRAY,
                            n - k,
                            barr_elems(out@),
                            fuel,
                        ) is None);
                    }
                }
                return Err(e);
            },
        };
        match read_i8s(b, q1, cnt) {
            Ok((v, q2)) => {
                let ghost vv = v@;
                proof {
                    lemma_unwrap_i8s(vv);
                    assert forall|fuel: nat|
                        #![trigger sdec_elems(b@, cur as int, TAG_BYTE_ARRAY, n - k, barr_elems(out@), fuel)]
                        sdec_elems(b@, cur as int, TAG_BYTE_ARRAY, n - k, barr_elems(out@), fuel)
                            == sdec_elems(
                            b@,
                            q2 as int,
                            TAG_BYTE_ARRAY,
                            n - (k + 1),
                            barr_elems(out@.push(v)),
                            fuel,
                        ) by {
                        assert(sdec_elems(b@, q1 as int, TAG_BYTE, cnt as int, Seq::empty(), fuel)
                            == Some((byte_elems(vv), q2 as int)));
                        assert(sdec_payload(b@, cur as int, TAG_BYTE_ARRAY, fuel) == Some((
                            NbtV::ByteArray(vv),
                            q2 as int,
                        )));
                        assert(barr_elems(out@.push(v)) =~= barr_elems(out@).push(
                            NbtV::ByteArray(vv),
                        ));
                    }
                }
                out.push(v);
                cur = q2;
                k = k + 1;
            },
            Err(e) => {
                proof {
                    assert forall|fuel: nat|
                        #![trigger sdec_elems(b@, p as int, TAG_BYTE_ARRAY, n as int, Seq::empty(), fuel)]
                        sdec_elems(b@, p as int, TAG_BYTE_ARRAY, n as int, Seq::empty(), fuel)
                            is None by {
                        assert(sdec_elems(b@, q1 as int, TAG_BYTE, cnt as int, Seq::empty(), fuel)
                            is None);
                        assert(sdec_payload(b@, cur as int, TAG_BYTE_ARRAY, fuel) is None);
                        assert(sdec_elems(
                            b@,
                            cur as int,
                            TAG_BYTE_ARRAY,
                            n - k,
                            barr_elems(out@),
                            fuel,
                        ) is None);
                    }
                }
                return Err(e);
            },
        }
    }
    Ok((out, cur))
}

/// `n` int-array elements starting at `p`.
fn read_int_array_elems(b: &[u8], p: usize, n: usize) -> (r: Result<(Vec<Vec<i32>>, usize), Error>)
    requires
        p <= b@.len(),
    ensures
        match r {
            Ok((v, q)) => v@.len() == n && p <= q <= b@.len() && forall|fuel: nat|
                #[trigger] sdec_elems(b@, p as int, TAG_INT_ARRAY, n as int, Seq::empty(), fuel)
                    == Some((iarr_elems(v@), q as int)),
            Err(e) => (forall|fuel: nat|
                #[trigger] sdec_elems(b@, p as int, TAG_INT_ARRAY, n as int, Seq::empty(), fuel)
                    is None) && e is Malformed,
        },
{
    let mut out: Vec<Vec<i32>> = Vec::new();
    let mut cur = p;
    let mut k: usize = 0;
    proof {
        assert(iarr_elems(out@) =~= Seq::<NbtV>::empty());
    }
    while k < n
        invariant
            p <= cur <= b@.len(),
            0 <= k <= n,
            out@.len() == k,
            forall|fuel: nat|
                #[trigger] sdec_elems(b@, p as int, TAG_INT_ARRAY, n as int, Seq::empty(), fuel)
                    == sdec_elems(b@, cur as int, TAG_INT_ARRAY, n - k, iarr_elems(out@), fuel),
        decreases n - k,
    {
        let (cnt, q1) = match read_count(b, cur) {
            Ok(x) => x,
            Err(e) => {
                proof {
                    assert forall|fuel: nat|
                        #![trigger sdec_elems(b@, p as int, TAG_INT_ARRAY, n as int, Seq::empty(), fuel)]
                        sdec_elems(b@, p as int, TAG_INT_ARRAY, n as int, Seq::empty(), fuel)
                            is None by {
                        assert(sdec_payload(b@, cur as int, TAG_INT_ARRAY, fuel) is None);
                        assert(sdec_elems(
                            b@,
                            cur as int,
                            TAG_INT_ARRAY,
                            n - k,
                            iarr_elems(out@),
                            fuel,
                        ) is None);
                    }
                }
                return Err(e);
            },
        };
        match read_i32s(b, q1, cnt) {
            Ok((v, q2)) => {
                let ghost vv = v@;
                proof {
                    lemma_unwrap_i32s(vv);
                    assert forall|fuel: nat|
                        #![trigger sdec_elems(b@, cur as int, TAG_INT_ARRAY, n - k, iarr_elems(out@), fuel)]
                        sdec_elems(b@, cur as int, TAG_INT_ARRAY, n - k, iarr_elems(out@), fuel)
                            == sdec_elems(
                            b@,
                            q2 as int,
                            TAG_INT_ARRAY,
                            n - (k + 1),
                            iarr_elems(out@.push(v)),
                            fuel,
                        ) by {
                        assert(sdec_elems(b@, q1 as int, TAG_INT, cnt as int, Seq::empty(), fuel)
                            == Some((int_elems(vv), q2 as int)));
                        assert(sdec_payload(b@, cur as int, TAG_INT_ARRAY, fuel) == Some((
                            NbtV::IntArray(vv),
                            q2 as int,
                        )));
                        assert(iarr_elems(out@.push(v)) =~= iarr_elems(out@).push(
                            NbtV::IntArray(vv),
                        ));
                    }
                }
                out.push(v);
                cur = q2;
                k = k + 1;
            },
            Err(e) => {
                proof {
                    assert forall|fuel: nat|
                        #![trigger sdec_elems(b@, p as int, TAG_INT_ARRAY, n as int, Seq::empty(), fuel)]
                        sdec_elems(b@, p as int, TAG_INT_ARRAY, n as int, Seq::empty(), fuel)
                            is None by {
                        assert(sdec_elems(b@, q1 as int, TAG_INT, cnt as int, Seq::empty(), fuel)
                            is None);
                        assert(sdec_payload(b@, cur as int, TAG_INT_ARRAY, fuel) is None);
                        assert(sdec_elems(
                            b@,
                            cur as int,
                            TAG_INT_ARRAY,
                            n - k,
                            iarr_elems(out@),
                            fuel,
                        ) is None);
                    }
                }
                return Err(e);
            },
        }
    }
    Ok((out, cur))
}

/// `n` long-array elements starting at `p`.
fn read_long_array_elems(b: &[u8], p: usize, n: usize) -> (r: Result<(Vec<Vec<i64>>, usize), Error>)
    requires
        p <= b@.len(),
    ensures
        match r {
            Ok((v, q)) => v@.len() == n && p <= q <= b@.len() && forall|fuel: nat|
                #[trigger] sdec_elems(b@, p as int, TAG_LONG_ARRAY, n as int, Seq::empty(), fuel)
                    == Some((larr_elems(v@), q as int)),
            Err(e) => (forall|fuel: nat|
                #[trigger] sdec_elems(b@, p as int, TAG_LONG_ARRAY, n as int, Seq::empty(), fuel)
                    is None) && e is Malformed,
        },
{
    let mut out: Vec<Vec<i64>> = Vec::new();
    let mut cur = p;
    let mut k: usize = 0;
    proof {
        assert(larr_elems(out@) =~= Seq::<NbtV>::empty());
    }
    while k < n
        invariant
            p <= cur <= b@.len(),
            0 <= k <= n,
            out@.len() == k,
            forall|fuel: nat|
                #[trigger] sdec_elems(b@, p as int, TAG_LONG_ARRAY, n as int, Seq::empty(), fuel)
                    == sdec_elems(b@, cur as int, TAG_LONG_ARRAY, n - k, larr_elems(out@), fuel),
        decreases n - k,
    {
        let (cnt, q1) = match read_count(b, cur) {
            Ok(x) => x,
            Err(e) => {
                proof {
                    assert forall|fuel: nat|
                        #![trigger sdec_elems(b@, p as int, TAG_LONG_ARRAY, n as int, Seq::empty(), fuel)]
                        sdec_elems(b@, p as int, TAG_LONG_ARRAY, n as int, Seq::empty(), fuel)
                            is None by {
                        assert(sdec_payload(b@, cur as int, TAG_LONG_ARRAY, fuel) is None);
                        assert(sdec_elems(
                            b@,
                            cur as int,
                            TAG_LONG_ARRAY,
                            n - k,
                            larr_elems(out@),
                            fuel,
                        ) is None);
                    }
                }
                return Err(e);
            },
        };
        match read_i64s(b, q1, cnt) {
            Ok((v, q2)) => {
                let ghost vv = v@;
                proof {
                    lemma_unwrap_i64s(vv);
                    assert forall|fuel: nat|
                        #![trigger sdec_elems(b@, cur as int, TAG_LONG_ARRAY, n - k, larr_elems(out@), fuel)]
                        sdec_elems(b@, cur as int, TAG_LONG_ARRAY, n - k, larr_elems(out@), fuel)
                            == sdec_elems(
                            b@,
                            q2 as int,
                            TAG_LONG_ARRAY,
                            n - (k + 1),
                            larr_elems(out@.push(v)),
                            fuel,
                        ) by {
                        assert(sdec_elems(b@, q1 as int, TAG_LONG, cnt as int, Seq::empty(), fuel)
                            == Some((long_elems(vv), q2 as int)));
                        assert(sdec_payload(b@, cur as int, TAG_LONG_ARRAY, fuel) == Some((
                            NbtV::LongArray(vv),
                            q2 as int,
                        )));
                        assert(larr_elems(out@.push(v)) =~= larr_elems(out@).push(
                            NbtV::LongArray(vv),
                        ));
                    }
                }
                out.push(v);
                cur = q2;
                k = k + 1;
            },
            Err(e) => {
                proof {
                    assert forall|fuel: nat|
                        #![trigger sdec_elems(b@, p as int, TAG_LONG_ARRAY, n as int, Seq::empty(), fuel)]
                        sdec_elems(b@, p as int, TAG_LONG_ARRAY, n as int, Seq::empty(), fuel)
                            is None by {
                        assert(sdec_elems(b@, q1 as int, TAG_LONG, cnt as int, Seq::empty(), fuel)
                            is None);
                        assert(sdec_payload(b@, cur as int, TAG_LONG_ARRAY, fuel) is None);
                        assert(sdec_elems(
                            b@,
                            cur as int,
                            TAG_LONG_ARRAY,
                            n - k,
                            larr_elems(out@),
                            fuel,
                        ) is None);
                    }
                }
                return Err(e);
            },
        }
    }
    Ok((out, cur))
}

// ---------------------------------------------------------------------------
// Compound construction with last-write-wins insertion.
// ---------------------------------------------------------------------------

pub proof fn lemma_view_entries_update(s: Seq<(String, NbtValue)>, i: int, key: String, val: NbtValue)
    requires
        0 <= i < s.len(),
    ensures
        view_entries(s.update(i, (key, val)), 0) == view_entries(s, 0).update(
            i,
            (name_bytes(key), view_value(val)),
        ),
{
    crate::value::lemma_view_entries(s, 0);
    crate::value::lemma_view_entries(s.update(i, (key, val)), 0);
    assert(view_entries(s.update(i, (key, val)), 0) =~= view_entries(s, 0).update(
        i,
        (name_bytes(key), view_value(val)),
    ));
}

pub proof fn lemma_view_entries_push(s: Seq<(String, NbtValue)>, key: String, val: NbtValue)
    ensures
        view_entries(s.push((key, val)), 0) == view_entries(s, 0).push(
            (name_bytes(key), view_value(val)),
        ),
{
    crate::value::lemma_view_entries(s, 0);
    crate::value::lemma_view_entries(s.push((key, val)), 0);
    assert(view_entries(s.push((key, val)), 0) =~= view_entries(s, 0).push(
        (name_bytes(key), view_value(val)),
    ));
}

/// Inserts `(key, val)` with last-write-wins semantics: an entry under an
/// equal key is replaced in place, otherwise the entry is appended.
pub(crate) fn insert_entry(es: &mut Vec<(String, NbtValue)>, key: String, val: NbtValue)
    ensures
        view_entries(final(es)@, 0) == upsert(
            view_entries(old(es)@, 0),
            name_bytes(key),
            view_value(val),
        ),
{
    let ghost ves = view_entries(es@, 0);
    proof {
        crate::value::lemma_view_entries(es@, 0);
    }
    let mut i: usize = 0;
    while i < es.len()
        invariant
            0 <= i <= es.len(),
            es@ == old(es)@,
            ves == view_entries(es@, 0),
            ves.len() == es@.len(),
            forall|j: int| 0 <= j < i ==> (#[trigger] ves[j]).0 != name_bytes(key),
        decreases es.len() - i,
    {
        proof {
            crate::value::lemma_view_entries(es@, 0);
        }
        if es[i].0 == key {
            proof {
                assert(ves[i as int].0 == name_bytes(key));
                lemma_upsert_update(ves, name_bytes(key), view_value(val), i as int);
            }
            let ghost gkey = key;
            let ghost gval = val;
            es.set(i, (key, val));
            proof {
                lemma_view_entries_update(old(es)@, i as int, gkey, gval);
            }
            return;
        }
        proof {
            if ves[i as int].0 == name_bytes(key) {
                vstd::utf8::encode_utf8_decode_utf8(es@[i as int].0@);
                vstd::utf8::encode_utf8_decode_utf8(key@);
                assert(false);
            }
        }
        i = i + 1;
    }
    proof {
        lemma_upsert_push(ves, name_bytes(key), view_value(val));
    }
    let ghost gkey = key;
    let ghost gval = val;
    es.push((key, val));
    proof {
        lemma_view_entries_push(old(es)@, gkey, gval);
    }
}

// ---------------------------------------------------------------------------
// The recursive decoders.
// ---------------------------------------------------------------------------

pub(crate) fn decode_compound(b: &[u8], pos: usize, fuel: u32) -> (r: Result<
    (Vec<(String, NbtValue)>, usize),
    Error,
>)
    requires
        pos <= b@.len(),
    ensures
        match r {
            Ok((es, q)) => sdec_fields(b@, pos as int, Seq::empty(), fuel as nat) == Some((
                view_entries(es@, 0),
                q as int,
            )) && pos < q <= b@.len(),
            Err(e) => sdec_fields(b@, pos as int, Seq::empty(), fuel as nat) is None
                && e is Malformed,
        },
    decreases fuel, 0int,
{
    let mut es: Vec<(String, NbtValue)> = Vec::new();
    let mut cur = pos;
    proof {
        assert(view_entries(es@, 0) =~= Seq::<(Seq<u8>, NbtV)>::empty());
    }
    loop
        invariant
            pos <= cur <= b@.len(),
            sdec_fields(b@, pos as int, Seq::empty(), fuel as nat) == sdec_fields(
                b@,
                cur as int,
                view_entries(es@, 0),
                fuel as nat,
            ),
        decreases b@.len() - cur,
    {
        let (tag, p1) = match read_u8(b, cur) {
            Ok(x) => x,
            Err(e) => {
                return Err(e);
            },
        };
        if tag == TAG_END {
            return Ok((es, p1));
        }
        if tag > TAG_LONG_ARRAY {
            return Err(Error::Malformed(loc_of(cur)));
        }
        if fuel == 0 {
            return Err(Error::Malformed(loc_of(cur)));
        }
        let (key, p2) = match read_name(b, p1) {
            Ok(x) => x,
            Err(e) => {
                return Err(e);
            },
        };
        let (val, p3) = match decode_payload(b, p2, tag, fuel - 1) {
            Ok(x) => x,
            Err(e) => {
                return Err(e);
            },
        };
        let ghost kb = name_bytes(key);
        let ghost vv = view_value(val);
        proof {
            assert(sdec_fields(b@, cur as int, view_entries(es@, 0), fuel as nat) == sdec_fields(
                b@,
                p3 as int,
                upsert(view_entries(es@, 0), kb, vv),
                fuel as nat,
            ));
        }
        insert_entry(&mut es, key, val);
        cur = p3;
    }
}

pub(crate) fn decode_payload(b: &[u8], pos: usize, tag: u8, fuel: u32) -> (r: Result<
    (NbtValue, usize),
    Error,
>)
    requires
        pos <= b@.len(),
    ensures
        match r {
            Ok((v, q)) => sdec_payload(b@, pos as int, tag, fuel as nat) == Some((v@, q as int))
                && pos < q <= b@.len(),
            Err(e) => sdec_payload(b@, pos as int, tag, fuel as nat) is None && e is Malformed,
        },
    decreases fuel, 1int,
{
    if tag == TAG_BYTE {
        match read_i8(b, pos) {
            Ok((x, q)) => Ok((NbtValue::Byte(x), q)),
            Err(e) => Err(e),
        }
    } else if tag == TAG_SHORT {
        match read_i16(b, pos) {
            Ok((x, q)) => Ok((NbtValue::Short(x), q)),
            Err(e) => Err(e),
        }
    } else if tag == TAG_INT {
        match read_i32(b, pos) {
            Ok((x, q)) => Ok((NbtValue::Int(x), q)),
            Err(e) => Err(e),
        }
    } else if tag == TAG_LONG {
        match read_i64(b, pos) {
            Ok((x, q)) => Ok((NbtValue::Long(x), q)),
            Err(e) => Err(e),
        }
    } else if tag == TAG_FLOAT {
        match read_u32(b, pos) {
            Ok((x, q)) => Ok((NbtValue::Float(x), q)),
            Err(e) => Err(e),
        }
    } else if tag == TAG_DOUBLE {
        match read_u64(b, pos) {
            Ok((x, q)) => Ok((NbtValue::Double(x), q)),
            Err(e) => Err(e),
        }
    } else if tag == TAG_BYTE_ARRAY {
        let (n, q1) = match read_count(b, pos) {
            Ok(x) => x,
            Err(e) => {
                return Err(e);
            },
        };
        match read_i8s(b, q1, n) {
            Ok((v, q2)) => {
                proof {
                    lemma_unwrap_i8s(v@);
                    assert(sdec_elems(b@, q1 as int, TAG_BYTE, n as int, Seq::empty(), fuel as nat)
                        == Some((byte_elems(v@), q2 as int)));
                    assert(sdec_payload(b@, pos as int, tag, fuel as nat) == Some((
                        NbtV::ByteArray(v@),
                        q2 as int,
                    )));
                }
                Ok((NbtValue::ByteArray(v), q2))
            },
            Err(e) => {
                proof {
                    assert(sdec_elems(b@, q1 as int, TAG_BYTE, n as int, Seq::empty(), fuel as nat)
                        is None);
                }
                Err(e)
            },
        }
    } else if tag == TAG_STRING {
        match read_name(b, pos) {
            Ok((x, q)) => Ok((NbtValue::String(x), q)),
            Err(e) => Err(e),
        }
    } else if tag == TAG_LIST {
        match decode_list(b, pos, fuel) {
            Ok((l, q)) => Ok((NbtValue::List(l), q)),
            Err(e) => Err(e),
        }
    } else if tag == TAG_COMPOUND {
        match decode_compound(b, pos, fuel) {
            Ok((es, q)) => Ok((NbtValue::Compound(es), q)),
            Err(e) => Err(e),
        }
    } else if tag == TAG_INT_ARRAY {
        let (n, q1) = match read_count(b, pos) {
            Ok(x) => x,
            Err(e) => {
                return Err(e);
            },
        };
        match read_i32s(b, q1, n) {
            Ok((v, q2)) => {
                proof {
                    lemma_unwrap_i32s(v@);
                    assert(sdec_elems(b@, q1 as int, TAG_INT, n as int, Seq::empty(), fuel as nat)
                        == Some((int_elems(v@), q2 as int)));
                    assert(sdec_payload(b@, pos as int, tag, fuel as nat) == Some((
                        NbtV::IntArray(v@),
                        q2 as int,
                    )));
                }
                Ok((NbtValue::IntArray(v), q2))
            },
            Err(e) => {
                proof {
                    assert(sdec_elems(b@, q1 as int, TAG_INT, n as int, Seq::empty(), fuel as nat)
                        is None);
                }
                Err(e)
            },
        }
    } else if tag == TAG_LONG_ARRAY {
        let (n, q1) = match read_count(b, pos) {
            Ok(x) => x,
            Err(e) => {
                return Err(e);
            },
        };
        match read_i64s(b, q1, n) {
            Ok((v, q2)) => {
                proof {
                    lemma_unwrap_i64s(v@);
                    assert(sdec_elems(b@, q1 as int, TAG_LONG, n as int, Seq::empty(), fuel as nat)
                        == Some((long_elems(v@), q2 as int)));
                    assert(sdec_payload(b@, pos as int, tag, fuel as nat) == Some((
                        NbtV::LongArray(v@),
                        q2 as int,
                    )));
                }
                Ok((NbtValue::LongArray(v), q2))
            },
            Err(e) => {
                proof {
                    assert(sdec_elems(b@, q1 as int, TAG_LONG, n as int, Seq::empty(), fuel as nat)
                        is None);
                }
                Err(e)
            },
        }
    } else {
        Err(Error::Malformed(loc_of(pos)))
    }
}

pub(crate) fn decode_list(b: &[u8], pos: usize, fuel: u32) -> (r: Result<(NbtList, usize), Error>)
    requires
        pos <= b@.len(),
    ensures
        match r {
            Ok((l, q)) => sdec_list(b@, pos as int, fuel as nat) == Some((l@, q as int)) && pos < q
                <= b@.len(),
            Err(e) => sdec_list(b@, pos as int, fuel as nat) is None && e is Malformed,
        },
    decreases fuel, 0int,
{
    let (etag, p1) = match read_u8(b, pos) {
        Ok(x) => x,
        Err(e) => {
            return Err(e);
        },
    };
    let (cnt, p2) = match read_i32(b, p1) {
        Ok(x) => x,
        Err(e) => {
            return Err(e);
        },
    };
    if etag == TAG_END {
        return Ok((NbtList::EmptyList, p2));
    }
    if etag > TAG_LONG_ARRAY {
        return Err(Error::Malformed(loc_of(pos)));
    }
    if cnt < 0 {
        return Err(Error::Malformed(loc_of(p1)));
    }
    if fuel == 0 {
        return Err(Error::Malformed(loc_of(pos)));
    }
    let n = cnt as usize;
    let ghost sf = (fuel - 1) as nat;
    if etag == TAG_BYTE {
        match read_i8s(b, p2, n) {
            Ok((v, q)) => {
                proof {
                    lemma_unwrap_i8s(v@);
                    assert(sdec_elems(b@, p2 as int, TAG_BYTE, n as int, Seq::empty(), sf) == Some(
                        (byte_elems(v@), q as int),
                    ));
                }
                Ok((NbtList::ByteList(v), q))
            },
            Err(e) => Err(e),
        }
    } else if etag == TAG_SHORT {
        match read_i16s(b, p2, n) {
            Ok((v, q)) => {
                proof {
                    lemma_unwrap_i16s(v@);
                    assert(sdec_elems(b@, p2 as int, TAG_SHORT, n as int, Seq::empty(), sf) == Some((
                        short_elems(v@),
                        q as int,
                    )));
                }
                Ok((NbtList::ShortList(v), q))
            },
            Err(e) => Err(e),
        }
    } else if etag == TAG_INT {
        match read_i32s(b, p2, n) {
            Ok((v, q)) => {
                proof {
                    lemma_unwrap_i32s(v@);
                    assert(sdec_elems(b@, p2 as int, TAG_INT, n as int, Seq::empty(), sf) == Some((
                        int_elems(v@),
                        q as int,
                    )));
                }
                Ok((NbtList::IntList(v), q))
            },
            Err(e) => Err(e),
        }
    } else if etag == TAG_LONG {
        match read_i64s(b, p2, n) {
            Ok((v, q)) => {
                proof {
                    lemma_unwrap_i64s(v@);
                    assert(sdec_elems(b@, p2 as int, TAG_LONG, n as int, Seq::empty(), sf) == Some((
                        long_elems(v@),
                        q as int,
                    )));
                }
                Ok((NbtList::LongList(v), q))
            },
            Err(e) => Err(e),
        }
    } else if etag == TAG_FLOAT {
        match read_u32s(b, p2, n) {
            Ok((v, q)) => {
                proof {
                    lemma_unwrap_u32s(v@);
                    assert(sdec_elems(b@, p2 as int, TAG_FLOAT, n as int, Seq::empty(), sf) == Some((
                        float_elems(v@),
                        q as int,
                    )));
                }
                Ok((NbtList::FloatList(v), q))
            },
            Err(e) => Err(e),
        }
    } else if etag == TAG_DOUBLE {
        match read_u64s(b, p2, n) {
            Ok((v, q)) => {
                proof {
                    lemma_unwrap_u64s(v@);
                    assert(sdec_elems(b@, p2 as int, TAG_DOUBLE, n as int, Seq::empty(), sf) == Some((
                        double_elems(v@),
                        q as int,
                    )));
                }
                Ok((NbtList::DoubleList(v), q))
            },
            Err(e) => Err(e),
        }
    } else if etag == TAG_BYTE_ARRAY {
        match read_byte_array_elems(b, p2, n) {
            Ok((v, q)) => {
                proof {
                    lemma_unwrap_byte_arrays(v@);
                    assert(sdec_elems(b@, p2 as int, TAG_BYTE_ARRAY, n as int, Seq::empty(), sf) == Some((
                        barr_elems(v@),
                        q as int,
                    )));
                }
                Ok((NbtList::ByteArrayList(v), q))
            },
            Err(e) => Err(e),
        }
    } else if etag == TAG_STRING {
        match read_strings(b, p2, n) {
            Ok((v, q)) => {
                proof {
                    lemma_unwrap_names(v@);
                    assert(sdec_elems(b@, p2 as int, TAG_STRING, n as int, Seq::empty(), sf) == Some((
                        string_elems(v@),
                        q as int,
                    )));
                }
                Ok((NbtList::StringList(v), q))
            },
            Err(e) => Err(e),
        }
    } else if etag == TAG_INT_ARRAY {
        match read_int_array_elems(b, p2, n) {
            Ok((v, q)) => {
                proof {
                    lemma_unwrap_int_arrays(v@);
                    assert(sdec_elems(b@, p2 as int, TAG_INT_ARRAY, n as int, Seq::empty(), sf) == Some((
                        iarr_elems(v@),
                        q as int,
                    )));
                }
                Ok((NbtList::IntArrayList(v), q))
            },
            Err(e) => Err(e),
        }
    } else if etag == TAG_LONG_ARRAY {
        match read_long_array_elems(b, p2, n) {
            Ok((v, q)) => {
                proof {
                    lemma_unwrap_long_arrays(v@);
                    assert(sdec_elems(b@, p2 as int, TAG_LONG_ARRAY, n as int, Seq::empty(), sf) == Some((
                        larr_elems(v@),
                        q as int,
                    )));
                }
                Ok((NbtList::LongArrayList(v), q))
            },
            Err(e) => Err(e),
        }
    } else if etag == TAG_LIST {
        let mut out: Vec<NbtList> = Vec::new();
        let mut cur = p2;
        let mut k: usize = 0;
        proof {
            assert(listv_elems(out@) =~= Seq::<NbtV>::empty());
        }
        while k < n
            invariant
                p2 <= cur <= b@.len(),
                0 <= k <= n,
                out@.len() == k,
                sdec_elems(b@, p2 as int, TAG_LIST, n as int, Seq::empty(), sf) == sdec_elems(
                    b@,
                    cur as int,
                    TAG_LIST,
                    n - k,
                    listv_elems(out@),
                    sf,
                ),
            decreases n - k,
        {
            match decode_list(b, cur, fuel - 1) {
                Ok((x, q2)) => {
                    let ghost xv = x@;
                    proof {
                        assert(sdec_payload(b@, cur as int, TAG_LIST, sf) == Some((
                            NbtV::List(xv),
                            q2 as int,
                        )));
                        assert(listv_elems(out@.push(x)) =~= listv_elems(out@).push(
                            NbtV::List(xv),
                        ));
                    }
                    out.push(x);
                    cur = q2;
                    k = k + 1;
                },
                Err(e) => {
                    proof {
                        assert(sdec_payload(b@, cur as int, TAG_LIST, sf) is None);
                        assert(sdec_elems(b@, cur as int, TAG_LIST, n - k, listv_elems(out@), sf)
                            is None);
                    }
                    return Err(e);
                },
            }
        }
        proof {
            lemma_unwrap_lists(out@);
        }
        Ok((NbtList::ListList(out), cur))
    } else {
        let mut out: Vec<Vec<(String, NbtValue)>> = Vec::new();
        let mut cur = p2;
        let mut k: usize = 0;
        proof {
            assert(comp_elems(out@) =~= Seq::<NbtV>::empty());
        }
        while k < n
            invariant
                p2 <= cur <= b@.len(),
                0 <= k <= n,
                out@.len() == k,
                sdec_elems(b@, p2 as int, TAG_COMPOUND, n as int, Seq::empty(), sf) == sdec_elems(
                    b@,
                    cur as int,
                    TAG_COMPOUND,
                    n - k,
                    comp_elems(out@),
                    sf,
                ),
            decreases n - k,
        {
            match decode_compound(b, cur, fuel - 1) {
                Ok((x, q2)) => {
                    let ghost xv = view_entries(x@, 0);
                    proof {
                        assert(sdec_payload(b@, cur as int, TAG_COMPOUND, sf) == Some((
                            NbtV::Compound(xv),
                            q2 as int,
                        )));
                        assert(comp_elems(out@.push(x)) =~= comp_elems(out@).push(
                            NbtV::Compound(xv),
                        ));
                    }
                    out.push(x);
                    cur = q2;
                    k = k + 1;
                },
                Err(e) => {
                    proof {
                        assert(sdec_payload(b@, cur as int, TAG_COMPOUND, sf) is None);
                        assert(sdec_elems(
                            b@,
                            cur as int,
                            TAG_COMPOUND,
                            n - k,
                            comp_elems(out@),
                            sf,
                        ) is None);
                    }
                    return Err(e);
                },
            }
        }
        proof {
            lemma_unwrap_compounds(out@);
        }
        Ok((NbtList::CompoundList(out), cur))
    }
}

impl NbtValue {
    /// Decodes exactly one document from a raw byte source: one tag byte,
    /// the root name, then the root payload. Any out-of-range tag,
    /// premature end of input, invalid UTF-8 string, negative count, or
    /// nesting deeper than [`MAX_DEPTH`] is malformed and fails the whole
    /// call; bytes after the root payload are ignored.
    pub fn from_bytes(b: &[u8]) -> (r: Result<(String, NbtValue), Error>)
        ensures
            match r {
                Ok((n, v)) => sdec_doc(b@) matches Some(d) && d.0 == name_bytes(n) && d.1 == v@,
                Err(e) => sdec_doc(b@) is None && e is Malformed,
            },
    {
        let (tag, p0) = match read_u8(b, 0) {
            Ok(x) => x,
            Err(e) => {
                return Err(e);
            },
        };
        let (name, p1) = match read_name(b, p0) {
            Ok(x) => x,
            Err(e) => {
                return Err(e);
            },
        };
        match decode_payload(b, p1, tag, MAX_DEPTH) {
            Ok((v, _end)) => Ok((name, v)),
            Err(e) => Err(e),
        }
    }
}

} // verus!
