//! The format's laws, proved about the spec-level codec that the executable
//! functions are verified to implement: positions only move forward, a parse
//! depends only on the bytes it consumed, truncating a document anywhere
//! before its end is malformed, and decoding inverts encoding.

use vstd::prelude::*;

use crate::dec::{
    lemma_upsert_push, r_count, r_name, sdec_doc, sdec_elems, sdec_fields, sdec_list,
    sdec_payload, upsert,
};
use crate::value::{
    tag_valid, NbtListV, NbtV, TAG_BYTE, TAG_BYTE_ARRAY, TAG_COMPOUND, TAG_DOUBLE, TAG_END,
    TAG_FLOAT, TAG_INT, TAG_INT_ARRAY, TAG_LIST, TAG_LONG, TAG_LONG_ARRAY, TAG_SHORT, TAG_STRING,
};
use crate::enc::{
    eb_bytes, eb_i8, eb_ints, eb_longs, enc_count, enc_doc, enc_each, enc_fields, enc_list, enc_lists, enc_compounds,
    enc_name, enc_value, f_bytes, f_i16, f_i32, f_i64, f_i8, f_name, f_u32, f_u64, f_ints,
    f_longs,
};
use crate::value::{
    distinct_keys, elem_tag, enc_ok_entries, enc_ok_list, enc_ok_lists, enc_ok_compounds,
    enc_ok_value, fits_entries, fits_list, fits_lists, fits_compounds, fits_value, list_len,
    name_ok, tag_of, uniq_entries, uniq_list, uniq_lists, uniq_compounds, uniq_value, MAX_DEPTH,
    MAX_LEN, MAX_NAME,
};
use crate::wire::{
    enc_u16, enc_u32, enc_u64, i16_of_u16, i32_of_u32, i64_of_u64, i8_of_u8, lemma_be16_enc,
    lemma_be32_enc, lemma_be64_enc, lemma_signed_round, r_i16, r_i32, r_i64, r_i8, r_u16, r_u32,
    r_u64, r_u8, u16_of_i16, u32_of_i32, u64_of_i64, u8_of_i8,
};

verus! {

// ---------------------------------------------------------------------------
// Bounds: a successful parse ends inside the input, past where it began.
// ---------------------------------------------------------------------------

pub proof fn lemma_elems_bounds(b: Seq<u8>, p: int, etag: u8, n: int, acc: Seq<NbtV>, fuel: nat)
    requires
        sdec_elems(b, p, etag, n, acc, fuel) is Some,
        0 <= p <= b.len(),
    ensures
        p <= sdec_elems(b, p, etag, n, acc, fuel).unwrap().1 <= b.len(),
    decreases fuel, b.len() - p, 2int, n,
{
    if n <= 0 {
    } else {
        let (v, q) = sdec_payload(b, p, etag, fuel).unwrap();
        lemma_elems_bounds(b, q, etag, n - 1, acc.push(v), fuel);
    }
}

pub proof fn lemma_fields_bounds(b: Seq<u8>, p: int, acc: Seq<(Seq<u8>, NbtV)>, fuel: nat)
    requires
        sdec_fields(b, p, acc, fuel) is Some,
    ensures
        p < sdec_fields(b, p, acc, fuel).unwrap().1 <= b.len(),
    decreases fuel, b.len() - p, 0int, 1int,
{
    let (tag, p1) = r_u8(b, p).unwrap();
    if tag == TAG_END {
    } else {
        let (key, p2) = r_name(b, p1).unwrap();
        let (v, p3) = sdec_payload(b, p2, tag, (fuel - 1) as nat).unwrap();
        lemma_fields_bounds(b, p3, crate::dec::upsert(acc, key, v), fuel);
    }
}

pub proof fn lemma_list_bounds(b: Seq<u8>, p: int, fuel: nat)
    requires
        sdec_list(b, p, fuel) is Some,
    ensures
        p < sdec_list(b, p, fuel).unwrap().1 <= b.len(),
    decreases fuel, b.len() - p, 0int, 1int,
{
    let (etag, p1) = r_u8(b, p).unwrap();
    let (cnt, p2) = r_i32(b, p1).unwrap();
    if etag == TAG_END {
    } else {
        lemma_elems_bounds(b, p2, etag, cnt as int, Seq::empty(), (fuel - 1) as nat);
    }
}

pub proof fn lemma_payload_bounds(b: Seq<u8>, p: int, tag: u8, fuel: nat)
    requires
        sdec_payload(b, p, tag, fuel) is Some,
    ensures
        p < sdec_payload(b, p, tag, fuel).unwrap().1 <= b.len(),
        0 <= p,
    decreases fuel, b.len() - p, 1int, 1int,
{
    if tag == TAG_BYTE_ARRAY || tag == TAG_INT_ARRAY || tag == TAG_LONG_ARRAY {
        let (n, q) = r_count(b, p).unwrap();
        let etag: u8 = if tag == TAG_BYTE_ARRAY {
            TAG_BYTE
        } else if tag == TAG_INT_ARRAY {
            TAG_INT
        } else {
            TAG_LONG
        };
        lemma_elems_bounds(b, q, etag, n, Seq::empty(), fuel);
    } else if tag == TAG_LIST {
        lemma_list_bounds(b, p, fuel);
    } else if tag == TAG_COMPOUND {
        lemma_fields_bounds(b, p, Seq::empty(), fuel);
    }
}

pub proof fn lemma_doc_bounds(b: Seq<u8>)
    requires
        sdec_doc(b) is Some,
    ensures
        0 < sdec_doc(b).unwrap().2 <= b.len(),
{
    let (tag, p0) = r_u8(b, 0).unwrap();
    let (n, p1) = r_name(b, p0).unwrap();
    lemma_payload_bounds(b, p1, tag, crate::value::MAX_DEPTH as nat);
}

// ---------------------------------------------------------------------------
// Extension: a successful parse depends only on the bytes it consumed, so
// it survives any change outside that range (in particular, appending more
// bytes).
// ---------------------------------------------------------------------------

pub proof fn lemma_agree(b1: Seq<u8>, b2: Seq<u8>, p: int, end: int)
    requires
        0 <= p <= end,
        end <= b1.len(),
        end <= b2.len(),
        b2.subrange(p, end) == b1.subrange(p, end),
    ensures
        forall|i: int| p <= i < end ==> b1[i] == b2[i],
{
    assert forall|i: int| p <= i < end implies b1[i] == b2[i] by {
        assert(b1.subrange(p, end)[i - p] == b1[i]);
        assert(b2.subrange(p, end)[i - p] == b2[i]);
    }
}

pub proof fn lemma_payload_extend(b1: Seq<u8>, b2: Seq<u8>, p: int, tag: u8, fuel: nat)
    requires
        sdec_payload(b1, p, tag, fuel) is Some,
        sdec_payload(b1, p, tag, fuel).unwrap().1 <= b2.len(),
        b2.subrange(p, sdec_payload(b1, p, tag, fuel).unwrap().1) == b1.subrange(
            p,
            sdec_payload(b1, p, tag, fuel).unwrap().1,
        ),
    ensures
        sdec_payload(b2, p, tag, fuel) == sdec_payload(b1, p, tag, fuel),
    decreases fuel, b1.len() - p, 1int, 1int,
{
    let end = sdec_payload(b1, p, tag, fuel).unwrap().1;
    lemma_payload_bounds(b1, p, tag, fuel);
    lemma_agree(b1, b2, p, end);
    if tag == TAG_BYTE_ARRAY || tag == TAG_INT_ARRAY || tag == TAG_LONG_ARRAY {
        let (n, q) = r_count(b1, p).unwrap();
        let etag: u8 = if tag == TAG_BYTE_ARRAY {
            TAG_BYTE
        } else if tag == TAG_INT_ARRAY {
            TAG_INT
        } else {
            TAG_LONG
        };
        lemma_elems_bounds(b1, q, etag, n, Seq::empty(), fuel);
        assert(b2.subrange(q, end) =~= b1.subrange(q, end));
        lemma_elems_extend(b1, b2, q, etag, n, Seq::empty(), fuel);
    } else if tag == TAG_STRING {
        let (len, q) = r_u16(b1, p).unwrap();
        assert(b2.subrange(q, q + len) =~= b1.subrange(q, q + len));
    } else if tag == TAG_LIST {
        lemma_list_extend(b1, b2, p, fuel);
    } else if tag == TAG_COMPOUND {
        lemma_fields_extend(b1, b2, p, Seq::empty(), fuel);
    }
}

pub proof fn lemma_list_extend(b1: Seq<u8>, b2: Seq<u8>, p: int, fuel: nat)
    requires
        sdec_list(b1, p, fuel) is Some,
        sdec_list(b1, p, fuel).unwrap().1 <= b2.len(),
        b2.subrange(p, sdec_list(b1, p, fuel).unwrap().1) == b1.subrange(
            p,
            sdec_list(b1, p, fuel).unwrap().1,
        ),
    ensures
        sdec_list(b2, p, fuel) == sdec_list(b1, p, fuel),
    decreases fuel, b1.len() - p, 0int, 2int,
{
    let end = sdec_list(b1, p, fuel).unwrap().1;
    lemma_list_bounds(b1, p, fuel);
    lemma_agree(b1, b2, p, end);
    let (etag, p1) = r_u8(b1, p).unwrap();
    let (cnt, p2) = r_i32(b1, p1).unwrap();
    if etag == TAG_END {
    } else {
        lemma_elems_bounds(b1, p2, etag, cnt as int, Seq::empty(), (fuel - 1) as nat);
        assert(b2.subrange(p2, end) =~= b1.subrange(p2, end));
        lemma_elems_extend(b1, b2, p2, etag, cnt as int, Seq::empty(), (fuel - 1) as nat);
    }
}

pub proof fn lemma_elems_extend(
    b1: Seq<u8>,
    b2: Seq<u8>,
    p: int,
    etag: u8,
    n: int,
    acc: Seq<NbtV>,
    fuel: nat,
)
    requires
        sdec_elems(b1, p, etag, n, acc, fuel) is Some,
        0 <= p <= b1.len(),
        sdec_elems(b1, p, etag, n, acc, fuel).unwrap().1 <= b2.len(),
        p <= sdec_elems(b1, p, etag, n, acc, fuel).unwrap().1,
        b2.subrange(p, sdec_elems(b1, p, etag, n, acc, fuel).unwrap().1) == b1.subrange(
            p,
            sdec_elems(b1, p, etag, n, acc, fuel).unwrap().1,
        ),
    ensures
        sdec_elems(b2, p, etag, n, acc, fuel) == sdec_elems(b1, p, etag, n, acc, fuel),
    decreases fuel, b1.len() - p, 2int, n,
{
    let end = sdec_elems(b1, p, etag, n, acc, fuel).unwrap().1;
    lemma_elems_bounds(b1, p, etag, n, acc, fuel);
    lemma_agree(b1, b2, p, end);
    if n <= 0 {
    } else {
        let (v, q) = sdec_payload(b1, p, etag, fuel).unwrap();
        lemma_payload_bounds(b1, p, etag, fuel);
        lemma_elems_bounds(b1, q, etag, n - 1, acc.push(v), fuel);
        assert(b2.subrange(p, q) =~= b1.subrange(p, q));
        lemma_payload_extend(b1, b2, p, etag, fuel);
        assert(b2.subrange(q, end) =~= b1.subrange(q, end));
        lemma_elems_extend(b1, b2, q, etag, n - 1, acc.push(v), fuel);
    }
}

pub proof fn lemma_fields_extend(
    b1: Seq<u8>,
    b2: Seq<u8>,
    p: int,
    acc: Seq<(Seq<u8>, NbtV)>,
    fuel: nat,
)
    requires
        sdec_fields(b1, p, acc, fuel) is Some,
        sdec_fields(b1, p, acc, fuel).unwrap().1 <= b2.len(),
        b2.subrange(p, sdec_fields(b1, p, acc, fuel).unwrap().1) == b1.subrange(
            p,
            sdec_fields(b1, p, acc, fuel).unwrap().1,
        ),
    ensures
        sdec_fields(b2, p, acc, fuel) == sdec_fields(b1, p, acc, fuel),
    decreases fuel, b1.len() - p, 0int, 2int,
{
    let end = sdec_fields(b1, p, acc, fuel).unwrap().1;
    lemma_fields_bounds(b1, p, acc, fuel);
    lemma_agree(b1, b2, p, end);
    let (tag, p1) = r_u8(b1, p).unwrap();
    if tag == TAG_END {
    } else {
        let (key, p2) = r_name(b1, p1).unwrap();
        let (v, p3) = sdec_payload(b1, p2, tag, (fuel - 1) as nat).unwrap();
        lemma_payload_bounds(b1, p2, tag, (fuel - 1) as nat);
        lemma_fields_bounds(b1, p3, crate::dec::upsert(acc, key, v), fuel);
        let (len, q) = r_u16(b1, p1).unwrap();
        assert(b2.subrange(q, q + len) =~= b1.subrange(q, q + len));
        assert(b2.subrange(p2, p3) =~= b1.subrange(p2, p3));
        lemma_payload_extend(b1, b2, p2, tag, (fuel - 1) as nat);
        assert(b2.subrange(p3, end) =~= b1.subrange(p3, end));
        lemma_fields_extend(b1, b2, p3, crate::dec::upsert(acc, key, v), fuel);
    }
}

pub proof fn lemma_doc_extend(b1: Seq<u8>, b2: Seq<u8>)
    requires
        sdec_doc(b1) is Some,
        sdec_doc(b1).unwrap().2 <= b2.len(),
        b2.subrange(0, sdec_doc(b1).unwrap().2) == b1.subrange(0, sdec_doc(b1).unwrap().2),
    ensures
        sdec_doc(b2) == sdec_doc(b1),
{
    let end = sdec_doc(b1).unwrap().2;
    lemma_doc_bounds(b1);
    lemma_agree(b1, b2, 0, end);
    let (tag, p0) = r_u8(b1, 0).unwrap();
    let (nm, p1) = r_name(b1, p0).unwrap();
    lemma_payload_bounds(b1, p1, tag, crate::value::MAX_DEPTH as nat);
    let (len, q) = r_u16(b1, p0).unwrap();
    assert(b2.subrange(q, q + len) =~= b1.subrange(q, q + len));
    assert(b2.subrange(p1, end) =~= b1.subrange(p1, end));
    lemma_payload_extend(b1, b2, p1, tag, crate::value::MAX_DEPTH as nat);
}

/// Truncation failure: cutting a valid document at any byte boundary before
/// its end yields malformed input — never a partial success.
pub proof fn lemma_truncation(b: Seq<u8>, m: int)
    requires
        sdec_doc(b) is Some,
        0 <= m < sdec_doc(b).unwrap().2,
    ensures
        sdec_doc(b.take(m)) is None,
{
    lemma_doc_bounds(b);
    if sdec_doc(b.take(m)) is Some {
        lemma_doc_bounds(b.take(m));
        let end2 = sdec_doc(b.take(m)).unwrap().2;
        assert(b.subrange(0, end2) =~= b.take(m).subrange(0, end2));
        lemma_doc_extend(b.take(m), b);
        assert(false);
    }
}

// ---------------------------------------------------------------------------
// Round trip, part one: the primitive encodings read back as what was
// written.
// ---------------------------------------------------------------------------

/// A byte string embedded at `p` splits into its two halves.
pub proof fn lemma_embed_split(b: Seq<u8>, p: int, x: Seq<u8>, y: Seq<u8>)
    requires
        0 <= p,
        p + x.len() + y.len() <= b.len(),
        b.subrange(p, p + x.len() + y.len()) == x + y,
    ensures
        b.subrange(p, p + x.len() as int) == x,
        b.subrange(p + x.len() as int, p + x.len() + y.len()) == y,
        forall|i: int| 0 <= i < x.len() ==> b[p + i] == x[i],
{
    let whole = b.subrange(p, p + x.len() + y.len());
    assert forall|i: int| 0 <= i < x.len() implies b[p + i] == x[i] by {
        assert(whole[i] == b[p + i]);
        assert((x + y)[i] == x[i]);
    }
    assert(b.subrange(p, p + x.len() as int) =~= x);
    assert forall|i: int| 0 <= i < y.len() implies b[p + x.len() + i] == y[i] by {
        assert(whole[x.len() + i] == b[p + x.len() + i]);
        assert((x + y)[x.len() + i] == y[i]);
    }
    assert(b.subrange(p + x.len() as int, p + x.len() + y.len()) =~= y);
}

pub proof fn lemma_read_u16_enc(b: Seq<u8>, p: int, x: u16)
    requires
        0 <= p,
        p + 2 <= b.len(),
        b.subrange(p, p + 2) == enc_u16(x),
    ensures
        r_u16(b, p) == Some((x, p + 2)),
{
    lemma_be16_enc(x);
    assert(b[p] == enc_u16(x)[0]) by {
        assert(b.subrange(p, p + 2)[0] == b[p]);
    }
    assert(b[p + 1] == enc_u16(x)[1]) by {
        assert(b.subrange(p, p + 2)[1] == b[p + 1]);
    }
}

pub proof fn lemma_read_u32_enc(b: Seq<u8>, p: int, x: u32)
    requires
        0 <= p,
        p + 4 <= b.len(),
        b.subrange(p, p + 4) == enc_u32(x),
    ensures
        r_u32(b, p) == Some((x, p + 4)),
{
    lemma_be32_enc(x);
    assert forall|i: int| 0 <= i < 4 implies b[p + i] == enc_u32(x)[i] by {
        assert(b.subrange(p, p + 4)[i] == b[p + i]);
    }
}

pub proof fn lemma_read_u64_enc(b: Seq<u8>, p: int, x: u64)
    requires
        0 <= p,
        p + 8 <= b.len(),
        b.subrange(p, p + 8) == enc_u64(x),
    ensures
        r_u64(b, p) == Some((x, p + 8)),
{
    lemma_be64_enc(x);
    assert forall|i: int| 0 <= i < 8 implies b[p + i] == enc_u64(x)[i] by {
        assert(b.subrange(p, p + 8)[i] == b[p + i]);
    }
}

/// An in-range count reads back as itself.
pub proof fn lemma_read_count_enc(b: Seq<u8>, p: int, n: int)
    requires
        0 <= p,
        p + 4 <= b.len(),
        0 <= n <= MAX_LEN,
        b.subrange(p, p + 4) == enc_count(n),
    ensures
        r_count(b, p) == Some((n, p + 4)),
{
    lemma_read_u32_enc(b, p, n as u32);
    assert(i32_of_u32(n as u32) == n);
}

/// A well-formed length-prefixed string reads back as itself.
pub proof fn lemma_read_name_enc(b: Seq<u8>, p: int, nb: Seq<u8>)
    requires
        0 <= p,
        p + enc_name(nb).len() <= b.len(),
        name_ok(nb),
        b.subrange(p, p + enc_name(nb).len() as int) == enc_name(nb),
    ensures
        r_name(b, p) == Some((nb, p + 2 + nb.len())),
        enc_name(nb).len() == 2 + nb.len(),
{
    lemma_embed_split(b, p, enc_u16(nb.len() as u16), nb);
    lemma_read_u16_enc(b, p, nb.len() as u16);
}

pub proof fn lemma_payload_i8(b: Seq<u8>, p: int, x: i8, fuel: nat)
    requires
        0 <= p,
        p + 1 <= b.len(),
        b.subrange(p, p + 1) == eb_i8(x),
    ensures
        sdec_payload(b, p, TAG_BYTE, fuel) == Some((NbtV::Byte(x), p + 1)),
{
    assert(b[p] == u8_of_i8(x)) by {
        assert(b.subrange(p, p + 1)[0] == b[p]);
    }
    lemma_signed_round(x, 0, 0, 0);
}

pub proof fn lemma_payload_i16(b: Seq<u8>, p: int, x: i16, fuel: nat)
    requires
        0 <= p,
        p + 2 <= b.len(),
        b.subrange(p, p + 2) == enc_u16(u16_of_i16(x)),
    ensures
        sdec_payload(b, p, TAG_SHORT, fuel) == Some((NbtV::Short(x), p + 2)),
{
    lemma_read_u16_enc(b, p, u16_of_i16(x));
    lemma_signed_round(0, x, 0, 0);
}

pub proof fn lemma_payload_i32(b: Seq<u8>, p: int, x: i32, fuel: nat)
    requires
        0 <= p,
        p + 4 <= b.len(),
        b.subrange(p, p + 4) == enc_u32(u32_of_i32(x)),
    ensures
        sdec_payload(b, p, TAG_INT, fuel) == Some((NbtV::Int(x), p + 4)),
{
    lemma_read_u32_enc(b, p, u32_of_i32(x));
    lemma_signed_round(0, 0, x, 0);
}

pub proof fn lemma_payload_i64(b: Seq<u8>, p: int, x: i64, fuel: nat)
    requires
        0 <= p,
        p + 8 <= b.len(),
        b.subrange(p, p + 8) == enc_u64(u64_of_i64(x)),
    ensures
        sdec_payload(b, p, TAG_LONG, fuel) == Some((NbtV::Long(x), p + 8)),
{
    lemma_read_u64_enc(b, p, u64_of_i64(x));
    lemma_signed_round(0, 0, 0, x);
}

pub proof fn lemma_payload_f32(b: Seq<u8>, p: int, x: u32, fuel: nat)
    requires
        0 <= p,
        p + 4 <= b.len(),
        b.subrange(p, p + 4) == enc_u32(x),
    ensures
        sdec_payload(b, p, TAG_FLOAT, fuel) == Some((NbtV::Float(x), p + 4)),
{
    lemma_read_u32_enc(b, p, x);
}

pub proof fn lemma_payload_f64(b: Seq<u8>, p: int, x: u64, fuel: nat)
    requires
        0 <= p,
        p + 8 <= b.len(),
        b.subrange(p, p + 8) == enc_u64(x),
    ensures
        sdec_payload(b, p, TAG_DOUBLE, fuel) == Some((NbtV::Double(x), p + 8)),
{
    lemma_read_u64_enc(b, p, x);
}

pub proof fn lemma_payload_string(b: Seq<u8>, p: int, nb: Seq<u8>, fuel: nat)
    requires
        0 <= p,
        p + enc_name(nb).len() <= b.len(),
        name_ok(nb),
        b.subrange(p, p + enc_name(nb).len() as int) == enc_name(nb),
    ensures
        sdec_payload(b, p, TAG_STRING, fuel) == Some((
            NbtV::String(nb),
            p + enc_name(nb).len(),
        )),
{
    lemma_read_name_enc(b, p, nb);
}

// ---------------------------------------------------------------------------
// Round trip, part two: uniform element sequences.
// ---------------------------------------------------------------------------

/// Elements written one after another from index `i` on read back as the
/// wrapped suffix, appended to whatever was already accumulated.
pub proof fn lemma_rt_elems<A>(
    b: Seq<u8>,
    p: int,
    s: Seq<A>,
    i: int,
    acc: Seq<NbtV>,
    f: spec_fn(A) -> Seq<u8>,
    g: spec_fn(A) -> NbtV,
    etag: u8,
    fuel: nat,
)
    requires
        0 <= i <= s.len(),
        0 <= p,
        p + enc_each(s, f, i).len() <= b.len(),
        b.subrange(p, p + enc_each(s, f, i).len() as int) == enc_each(s, f, i),
        forall|bb: Seq<u8>, pp: int, j: int|
            #![trigger bb.subrange(pp, pp + f(s[j]).len() as int)]
            i <= j < s.len() && 0 <= pp && pp + f(s[j]).len() <= bb.len() && bb.subrange(
                pp,
                pp + f(s[j]).len() as int,
            ) == f(s[j]) ==> sdec_payload(bb, pp, etag, fuel) == Some((
                g(s[j]),
                pp + f(s[j]).len(),
            )),
        forall|j: int| i <= j < s.len() ==> #[trigger] f(s[j]).len() > 0,
    ensures
        sdec_elems(b, p, etag, s.len() - i, acc, fuel) == Some((
            acc + s.subrange(i, s.len() as int).map_values(g),
            p + enc_each(s, f, i).len(),
        )),
    decreases s.len() - i,
{
    if i >= s.len() {
        assert(acc + s.subrange(i, s.len() as int).map_values(g) =~= acc);
    } else {
        let fx = f(s[i]);
        let rest = enc_each(s, f, i + 1);
        assert(enc_each(s, f, i) == fx + rest);
        lemma_embed_split(b, p, fx, rest);
        assert(sdec_payload(b, p, etag, fuel) == Some((g(s[i]), p + fx.len())));
        lemma_rt_elems(b, p + fx.len() as int, s, i + 1, acc.push(g(s[i])), f, g, etag, fuel);
        assert(acc.push(g(s[i])) + s.subrange(i + 1, s.len() as int).map_values(g) =~= acc
            + s.subrange(i, s.len() as int).map_values(g));
    }
}

pub proof fn lemma_payload_byte_array(b: Seq<u8>, p: int, s: Seq<i8>, fuel: nat)
    requires
        0 <= p,
        p + eb_bytes(s).len() <= b.len(),
        s.len() <= MAX_LEN,
        b.subrange(p, p + eb_bytes(s).len() as int) == eb_bytes(s),
    ensures
        sdec_payload(b, p, TAG_BYTE_ARRAY, fuel) == Some((NbtV::ByteArray(s), p + eb_bytes(s).len())),
{
    lemma_embed_split(b, p, enc_count(s.len() as int), enc_each(s, f_i8(), 0));
    lemma_read_count_enc(b, p, s.len() as int);
    let q = p + 4;
    let g: spec_fn(i8) -> NbtV = |x: i8| NbtV::Byte(x);
    assert forall|bb: Seq<u8>, pp: int, j: int|
        #![trigger bb.subrange(pp, pp + f_i8()(s[j]).len() as int)]
        0 <= j < s.len() && 0 <= pp && pp + f_i8()(s[j]).len() <= bb.len() && bb.subrange(
            pp,
            pp + f_i8()(s[j]).len() as int,
        ) == f_i8()(s[j]) implies sdec_payload(bb, pp, TAG_BYTE, fuel) == Some((
        g(s[j]),
        pp + f_i8()(s[j]).len(),
    )) by {
        lemma_payload_i8(bb, pp, s[j], fuel);
    }
    assert forall|j: int| 0 <= j < s.len() implies #[trigger] f_i8()(s[j]).len() > 0 by {}
    lemma_rt_elems(b, q, s, 0, Seq::empty(), f_i8(), g, TAG_BYTE, fuel);
    assert(crate::dec::to_i8s(Seq::empty() + s.subrange(0, s.len() as int).map_values(g)) =~= s);
}

pub proof fn lemma_payload_int_array(b: Seq<u8>, p: int, s: Seq<i32>, fuel: nat)
    requires
        0 <= p,
        p + eb_ints(s).len() <= b.len(),
        s.len() <= MAX_LEN,
        b.subrange(p, p + eb_ints(s).len() as int) == eb_ints(s),
    ensures
        sdec_payload(b, p, TAG_INT_ARRAY, fuel) == Some((NbtV::IntArray(s), p + eb_ints(s).len())),
{
    lemma_embed_split(b, p, enc_count(s.len() as int), enc_each(s, f_i32(), 0));
    lemma_read_count_enc(b, p, s.len() as int);
    let q = p + 4;
    let g: spec_fn(i32) -> NbtV = |x: i32| NbtV::Int(x);
    assert forall|bb: Seq<u8>, pp: int, j: int|
        #![trigger bb.subrange(pp, pp + f_i32()(s[j]).len() as int)]
        0 <= j < s.len() && 0 <= pp && pp + f_i32()(s[j]).len() <= bb.len() && bb.subrange(
            pp,
            pp + f_i32()(s[j]).len() as int,
        ) == f_i32()(s[j]) implies sdec_payload(bb, pp, TAG_INT, fuel) == Some((
        g(s[j]),
        pp + f_i32()(s[j]).len(),
    )) by {
        lemma_payload_i32(bb, pp, s[j], fuel);
    }
    assert forall|j: int| 0 <= j < s.len() implies #[trigger] f_i32()(s[j]).len() > 0 by {}
    lemma_rt_elems(b, q, s, 0, Seq::empty(), f_i32(), g, TAG_INT, fuel);
    assert(crate::dec::to_i32s(Seq::empty() + s.subrange(0, s.len() as int).map_values(g)) =~= s);
}

pub proof fn lemma_payload_long_array(b: Seq<u8>, p: int, s: Seq<i64>, fuel: nat)
    requires
        0 <= p,
        p + eb_longs(s).len() <= b.len(),
        s.len() <= MAX_LEN,
        b.subrange(p, p + eb_longs(s).len() as int) == eb_longs(s),
    ensures
        sdec_payload(b, p, TAG_LONG_ARRAY, fuel) == Some((NbtV::LongArray(s), p + eb_longs(s).len())),
{
    lemma_embed_split(b, p, enc_count(s.len() as int), enc_each(s, f_i64(), 0));
    lemma_read_count_enc(b, p, s.len() as int);
    let q = p + 4;
    let g: spec_fn(i64) -> NbtV = |x: i64| NbtV::Long(x);
    assert forall|bb: Seq<u8>, pp: int, j: int|
        #![trigger bb.subrange(pp, pp + f_i64()(s[j]).len() as int)]
        0 <= j < s.len() && 0 <= pp && pp + f_i64()(s[j]).len() <= bb.len() && bb.subrange(
            pp,
            pp + f_i64()(s[j]).len() as int,
        ) == f_i64()(s[j]) implies sdec_payload(bb, pp, TAG_LONG, fuel) == Some((
        g(s[j]),
        pp + f_i64()(s[j]).len(),
    )) by {
        lemma_payload_i64(bb, pp, s[j], fuel);
    }
    assert forall|j: int| 0 <= j < s.len() implies #[trigger] f_i64()(s[j]).len() > 0 by {}
    lemma_rt_elems(b, q, s, 0, Seq::empty(), f_i64(), g, TAG_LONG, fuel);
    assert(crate::dec::to_i64s(Seq::empty() + s.subrange(0, s.len() as int).map_values(g)) =~= s);
}

// ---------------------------------------------------------------------------
// Pointwise readings of the suffix-structured predicates.
// ---------------------------------------------------------------------------

pub proof fn lemma_lists_pointwise(s: Seq<NbtListV>, i: int, fuel: nat)
    requires
        0 <= i <= s.len(),
        enc_ok_lists(s, i),
        uniq_lists(s, i),
        fits_lists(s, i, fuel),
    ensures
        forall|j: int|
            i <= j < s.len() ==> enc_ok_list(#[trigger] s[j]) && uniq_list(s[j]) && fits_list(
                s[j],
                fuel,
            ),
    decreases s.len() - i,
{
    if i < s.len() {
        lemma_lists_pointwise(s, i + 1, fuel);
    }
}

pub proof fn lemma_compounds_pointwise(s: Seq<Seq<(Seq<u8>, NbtV)>>, i: int, fuel: nat)
    requires
        0 <= i <= s.len(),
        enc_ok_compounds(s, i),
        uniq_compounds(s, i),
        fits_compounds(s, i, fuel),
    ensures
        forall|j: int|
            i <= j < s.len() ==> distinct_keys(#[trigger] s[j]) && enc_ok_entries(s[j], 0)
                && uniq_entries(s[j], 0) && fits_entries(s[j], 0, fuel),
    decreases s.len() - i,
{
    if i < s.len() {
        lemma_compounds_pointwise(s, i + 1, fuel);
    }
}

// ---------------------------------------------------------------------------
// Round trip, part three: whole values, lists and compounds.
// ---------------------------------------------------------------------------

/// The fields of a compound written from entry `i` on, after the first `i`
/// entries were already decoded, read back as the whole entry sequence.
pub proof fn lemma_rt_fields(b: Seq<u8>, p: int, es: Seq<(Seq<u8>, NbtV)>, i: int, fuel: nat)
    requires
        0 <= i <= es.len(),
        0 <= p,
        p + enc_fields(es, i).len() <= b.len(),
        b.subrange(p, p + enc_fields(es, i).len() as int) == enc_fields(es, i),
        distinct_keys(es),
        enc_ok_entries(es, i),
        uniq_entries(es, i),
        fits_entries(es, i, fuel),
    ensures
        sdec_fields(b, p, es.take(i), fuel) == Some((es, p + enc_fields(es, i).len())),
    decreases es, 1int, es.len() - i,
{
    if i >= es.len() {
        assert(b[p] == TAG_END) by {
            assert(b.subrange(p, p + 1)[0] == b[p]);
        }
        assert(es.take(i) =~= es);
    } else {
        let k = es[i].0;
        let v = es[i].1;
        let t = tag_of(v);
        assert(enc_fields(es, i) =~= seq![t] + (enc_name(k) + (enc_value(v) + enc_fields(
            es,
            i + 1,
        ))));
        lemma_embed_split(b, p, seq![t], enc_name(k) + (enc_value(v) + enc_fields(es, i + 1)));
        assert(b[p] == t) by {
            assert(b.subrange(p, p + 1)[0] == b[p]);
        }
        let p1 = p + 1;
        lemma_embed_split(b, p1, enc_name(k), enc_value(v) + enc_fields(es, i + 1));
        lemma_read_name_enc(b, p1, k);
        let p2 = p1 + enc_name(k).len() as int;
        lemma_embed_split(b, p2, enc_value(v), enc_fields(es, i + 1));
        lemma_rt_value(b, p2, v, (fuel - 1) as nat);
        let p3 = p2 + enc_value(v).len() as int;
        assert(tag_valid(t));
        assert forall|j: int| 0 <= j < es.take(i).len() implies (#[trigger] es.take(i)[j]).0
            != k by {
            assert(es.take(i)[j] == es[j]);
        }
        lemma_upsert_push(es.take(i), k, v);
        assert(es.take(i).push((k, v)) =~= es.take(i + 1));
        lemma_rt_fields(b, p3, es, i + 1, fuel);
    }
}

/// A value's payload reads back as the value.
pub proof fn lemma_rt_value(b: Seq<u8>, p: int, v: NbtV, fuel: nat)
    requires
        enc_ok_value(v),
        uniq_value(v),
        fits_value(v, fuel),
        0 <= p,
        p + enc_value(v).len() <= b.len(),
        b.subrange(p, p + enc_value(v).len() as int) == enc_value(v),
    ensures
        sdec_payload(b, p, tag_of(v), fuel) == Some((v, p + enc_value(v).len())),
    decreases v, 0int, 0int,
{
    match v {
        NbtV::Byte(x) => lemma_payload_i8(b, p, x, fuel),
        NbtV::Short(x) => lemma_payload_i16(b, p, x, fuel),
        NbtV::Int(x) => lemma_payload_i32(b, p, x, fuel),
        NbtV::Long(x) => lemma_payload_i64(b, p, x, fuel),
        NbtV::Float(x) => lemma_payload_f32(b, p, x, fuel),
        NbtV::Double(x) => lemma_payload_f64(b, p, x, fuel),
        NbtV::ByteArray(s) => lemma_payload_byte_array(b, p, s, fuel),
        NbtV::String(nb) => lemma_payload_string(b, p, nb, fuel),
        NbtV::List(l) => lemma_rt_list(b, p, l, fuel),
        NbtV::Compound(es) => {
            lemma_rt_fields(b, p, es, 0, fuel);
            assert(es.take(0) =~= Seq::<(Seq<u8>, NbtV)>::empty());
        },
        NbtV::IntArray(s) => lemma_payload_int_array(b, p, s, fuel),
        NbtV::LongArray(s) => lemma_payload_long_array(b, p, s, fuel),
    }
}

pub open spec fn g_list() -> spec_fn(NbtListV) -> NbtV {
    |x: NbtListV| NbtV::List(x)
}

pub open spec fn g_comp() -> spec_fn(Seq<(Seq<u8>, NbtV)>) -> NbtV {
    |x: Seq<(Seq<u8>, NbtV)>| NbtV::Compound(x)
}

/// List payloads of list elements, written from `i` on.
pub proof fn lemma_rt_list_elems(
    b: Seq<u8>,
    p: int,
    s: Seq<NbtListV>,
    i: int,
    acc: Seq<NbtV>,
    fuel: nat,
)
    requires
        0 <= i <= s.len(),
        0 <= p,
        p + enc_lists(s, i).len() <= b.len(),
        b.subrange(p, p + enc_lists(s, i).len() as int) == enc_lists(s, i),
        forall|j: int|
            i <= j < s.len() ==> enc_ok_list(#[trigger] s[j]) && uniq_list(s[j]) && fits_list(
                s[j],
                fuel,
            ),
    ensures
        sdec_elems(b, p, TAG_LIST, s.len() - i, acc, fuel) == Some((
            acc + s.subrange(i, s.len() as int).map_values(g_list()),
            p + enc_lists(s, i).len(),
        )),
    decreases s, 1int, s.len() - i,
{
    let g = g_list();
    if i >= s.len() {
        assert(acc + s.subrange(i, s.len() as int).map_values(g) =~= acc);
    } else {
        lemma_embed_split(b, p, enc_list(s[i]), enc_lists(s, i + 1));
        lemma_rt_list(b, p, s[i], fuel);
        let q = p + enc_list(s[i]).len() as int;
        assert(enc_list(s[i]).len() > 0);
        assert(sdec_payload(b, p, TAG_LIST, fuel) == Some((NbtV::List(s[i]), q)));
        lemma_rt_list_elems(b, q, s, i + 1, acc.push(NbtV::List(s[i])), fuel);
        assert(sdec_elems(b, p, TAG_LIST, s.len() - i, acc, fuel) == sdec_elems(
            b,
            q,
            TAG_LIST,
            s.len() - i - 1,
            acc.push(NbtV::List(s[i])),
            fuel,
        ));
        assert(s.len() - i - 1 == s.len() - (i + 1));
        assert(acc.push(NbtV::List(s[i])) + s.subrange(i + 1, s.len() as int).map_values(g) =~= acc
            + s.subrange(i, s.len() as int).map_values(g));
    }
}

/// Compound payloads of list elements, written from `i` on.
pub proof fn lemma_rt_comp_elems(
    b: Seq<u8>,
    p: int,
    s: Seq<Seq<(Seq<u8>, NbtV)>>,
    i: int,
    acc: Seq<NbtV>,
    fuel: nat,
)
    requires
        0 <= i <= s.len(),
        0 <= p,
        p + enc_compounds(s, i).len() <= b.len(),
        b.subrange(p, p + enc_compounds(s, i).len() as int) == enc_compounds(s, i),
        forall|j: int|
            i <= j < s.len() ==> distinct_keys(#[trigger] s[j]) && enc_ok_entries(s[j], 0)
                && uniq_entries(s[j], 0) && fits_entries(s[j], 0, fuel),
    ensures
        sdec_elems(b, p, TAG_COMPOUND, s.len() - i, acc, fuel) == Some((
            acc + s.subrange(i, s.len() as int).map_values(g_comp()),
            p + enc_compounds(s, i).len(),
        )),
    decreases s, 1int, s.len() - i,
{
    let g = g_comp();
    if i >= s.len() {
        assert(acc + s.subrange(i, s.len() as int).map_values(g) =~= acc);
    } else {
        lemma_embed_split(b, p, enc_fields(s[i], 0), enc_compounds(s, i + 1));
        lemma_rt_fields(b, p, s[i], 0, fuel);
        assert(s[i].take(0) =~= Seq::<(Seq<u8>, NbtV)>::empty());
        let q = p + enc_fields(s[i], 0).len() as int;
        assert(enc_fields(s[i], 0).len() > 0);
        assert(sdec_payload(b, p, TAG_COMPOUND, fuel) == Some((NbtV::Compound(s[i]), q)));
        lemma_rt_comp_elems(b, q, s, i + 1, acc.push(NbtV::Compound(s[i])), fuel);
        assert(sdec_elems(b, p, TAG_COMPOUND, s.len() - i, acc, fuel) == sdec_elems(
            b,
            q,
            TAG_COMPOUND,
            s.len() - i - 1,
            acc.push(NbtV::Compound(s[i])),
            fuel,
        ));
        assert(s.len() - i - 1 == s.len() - (i + 1));
        assert(acc.push(NbtV::Compound(s[i])) + s.subrange(i + 1, s.len() as int).map_values(g)
            =~= acc + s.subrange(i, s.len() as int).map_values(g));
    }
}

/// A list payload reads back as the list, whatever its element kind.
#[verifier::rlimit(100)]
pub proof fn lemma_rt_list(b: Seq<u8>, p: int, l: NbtListV, fuel: nat)
    requires
        enc_ok_list(l),
        uniq_list(l),
        fits_list(l, fuel),
        0 <= p,
        p + enc_list(l).len() <= b.len(),
        b.subrange(p, p + enc_list(l).len() as int) == enc_list(l),
    ensures
        sdec_list(b, p, fuel) == Some((l, p + enc_list(l).len())),
    decreases l, 0int, 0int,
{
    match l {
        NbtListV::ByteList(s) => {
            assert(enc_list(l) =~= seq![TAG_BYTE] + (enc_count(s.len() as int) + enc_each(
                s,
                f_i8(),
                0,
            )));
            lemma_embed_split(b, p, seq![TAG_BYTE], enc_count(s.len() as int) + enc_each(
                s,
                f_i8(),
                0,
            ));
            assert(b[p] == TAG_BYTE) by {
                assert(b.subrange(p, p + 1)[0] == b[p]);
            }
            let p1 = p + 1;
            lemma_embed_split(b, p1, enc_count(s.len() as int), enc_each(s, f_i8(), 0));
            lemma_read_u32_enc(b, p1, s.len() as u32);
            assert(i32_of_u32(s.len() as u32) == s.len() as int);
            let p2 = p1 + 4;
            let sf = (fuel - 1) as nat;
            let g: spec_fn(i8) -> NbtV = |x: i8| NbtV::Byte(x);
            assert forall|bb: Seq<u8>, pp: int, j: int|
                #![trigger bb.subrange(pp, pp + f_i8()(s[j]).len() as int)]
                0 <= j < s.len() && 0 <= pp && pp + f_i8()(s[j]).len() <= bb.len()
                    && bb.subrange(pp, pp + f_i8()(s[j]).len() as int) == f_i8()(
                    s[j],
                ) implies sdec_payload(bb, pp, TAG_BYTE, sf) == Some((
                g(s[j]),
                pp + f_i8()(s[j]).len(),
            )) by {
                lemma_payload_i8(bb, pp, s[j], sf);
            }
            assert forall|j: int| 0 <= j < s.len() implies #[trigger] f_i8()(s[j]).len() > 0 by {}
            lemma_rt_elems(b, p2, s, 0, Seq::empty(), f_i8(), g, TAG_BYTE, sf);
            assert(crate::dec::pack_list(
                TAG_BYTE,
                Seq::empty() + s.subrange(0, s.len() as int).map_values(g),
            ) == l) by {
                assert(crate::dec::to_i8s(Seq::empty() + s.subrange(0, s.len() as int).map_values(g)) =~= s);
            }
        },
        NbtListV::ShortList(s) => {
            assert(enc_list(l) =~= seq![TAG_SHORT] + (enc_count(s.len() as int) + enc_each(
                s,
                f_i16(),
                0,
            )));
            lemma_embed_split(b, p, seq![TAG_SHORT], enc_count(s.len() as int) + enc_each(
                s,
                f_i16(),
                0,
            ));
            assert(b[p] == TAG_SHORT) by {
                assert(b.subrange(p, p + 1)[0] == b[p]);
            }
            let p1 = p + 1;
            lemma_embed_split(b, p1, enc_count(s.len() as int), enc_each(s, f_i16(), 0));
            lemma_read_u32_enc(b, p1, s.len() as u32);
            assert(i32_of_u32(s.len() as u32) == s.len() as int);
            let p2 = p1 + 4;
            let sf = (fuel - 1) as nat;
            let g: spec_fn(i16) -> NbtV = |x: i16| NbtV::Short(x);
            assert forall|bb: Seq<u8>, pp: int, j: int|
                #![trigger bb.subrange(pp, pp + f_i16()(s[j]).len() as int)]
                0 <= j < s.len() && 0 <= pp && pp + f_i16()(s[j]).len() <= bb.len()
                    && bb.subrange(pp, pp + f_i16()(s[j]).len() as int) == f_i16()(
                    s[j],
                ) implies sdec_payload(bb, pp, TAG_SHORT, sf) == Some((
                g(s[j]),
                pp + f_i16()(s[j]).len(),
            )) by {
                lemma_payload_i16(bb, pp, s[j], sf);
            }
            assert forall|j: int| 0 <= j < s.len() implies #[trigger] f_i16()(s[j]).len() > 0 by {}
            lemma_rt_elems(b, p2, s, 0, Seq::empty(), f_i16(), g, TAG_SHORT, sf);
            assert(crate::dec::pack_list(
                TAG_SHORT,
                Seq::empty() + s.subrange(0, s.len() as int).map_values(g),
            ) == l) by {
                assert(crate::dec::to_i16s(Seq::empty() + s.subrange(0, s.len() as int).map_values(g)) =~= s);
            }
        },
        NbtListV::IntList(s) => {
            assert(enc_list(l) =~= seq![TAG_INT] + (enc_count(s.len() as int) + enc_each(
                s,
                f_i32(),
                0,
            )));
            lemma_embed_split(b, p, seq![TAG_INT], enc_count(s.len() as int) + enc_each(
                s,
                f_i32(),
                0,
            ));
            assert(b[p] == TAG_INT) by {
                assert(b.subrange(p, p + 1)[0] == b[p]);
            }
            let p1 = p + 1;
            lemma_embed_split(b, p1, enc_count(s.len() as int), enc_each(s, f_i32(), 0));
            lemma_read_u32_enc(b, p1, s.len() as u32);
            assert(i32_of_u32(s.len() as u32) == s.len() as int);
            let p2 = p1 + 4;
            let sf = (fuel - 1) as nat;
            let g: spec_fn(i32) -> NbtV = |x: i32| NbtV::Int(x);
            assert forall|bb: Seq<u8>, pp: int, j: int|
                #![trigger bb.subrange(pp, pp + f_i32()(s[j]).len() as int)]
                0 <= j < s.len() && 0 <= pp && pp + f_i32()(s[j]).len() <= bb.len()
                    && bb.subrange(pp, pp + f_i32()(s[j]).len() as int) == f_i32()(
                    s[j],
                ) implies sdec_payload(bb, pp, TAG_INT, sf) == Some((
                g(s[j]),
                pp + f_i32()(s[j]).len(),
            )) by {
                lemma_payload_i32(bb, pp, s[j], sf);
            }
            assert forall|j: int| 0 <= j < s.len() implies #[trigger] f_i32()(s[j]).len() > 0 by {}
            lemma_rt_elems(b, p2, s, 0, Seq::empty(), f_i32(), g, TAG_INT, sf);
            assert(crate::dec::pack_list(
                TAG_INT,
                Seq::empty() + s.subrange(0, s.len() as int).map_values(g),
            ) == l) by {
                assert(crate::dec::to_i32s(Seq::empty() + s.subrange(0, s.len() as int).map_values(g)) =~= s);
            }
        },
        NbtListV::LongList(s) => {
            assert(enc_list(l) =~= seq![TAG_LONG] + (enc_count(s.len() as int) + enc_each(
                s,
                f_i64(),
                0,
            )));
            lemma_embed_split(b, p, seq![TAG_LONG], enc_count(s.len() as int) + enc_each(
                s,
                f_i64(),
                0,
            ));
            assert(b[p] == TAG_LONG) by {
                assert(b.subrange(p, p + 1)[0] == b[p]);
            }
            let p1 = p + 1;
            lemma_embed_split(b, p1, enc_count(s.len() as int), enc_each(s, f_i64(), 0));
            lemma_read_u32_enc(b, p1, s.len() as u32);
            assert(i32_of_u32(s.len() as u32) == s.len() as int);
            let p2 = p1 + 4;
            let sf = (fuel - 1) as nat;
            let g: spec_fn(i64) -> NbtV = |x: i64| NbtV::Long(x);
            assert forall|bb: Seq<u8>, pp: int, j: int|
                #![trigger bb.subrange(pp, pp + f_i64()(s[j]).len() as int)]
                0 <= j < s.len() && 0 <= pp && pp + f_i64()(s[j]).len() <= bb.len()
                    && bb.subrange(pp, pp + f_i64()(s[j]).len() as int) == f_i64()(
                    s[j],
                ) implies sdec_payload(bb, pp, TAG_LONG, sf) == Some((
                g(s[j]),
                pp + f_i64()(s[j]).len(),
            )) by {
                lemma_payload_i64(bb, pp, s[j], sf);
            }
            assert forall|j: int| 0 <= j < s.len() implies #[trigger] f_i64()(s[j]).len() > 0 by {}
            lemma_rt_elems(b, p2, s, 0, Seq::empty(), f_i64(), g, TAG_LONG, sf);
            assert(crate::dec::pack_list(
                TAG_LONG,
                Seq::empty() + s.subrange(0, s.len() as int).map_values(g),
            ) == l) by {
                assert(crate::dec::to_i64s(Seq::empty() + s.subrange(0, s.len() as int).map_values(g)) =~= s);
            }
        },
        NbtListV::FloatList(s) => {
            assert(enc_list(l) =~= seq![TAG_FLOAT] + (enc_count(s.len() as int) + enc_each(
                s,
                f_u32(),
                0,
            )));
            lemma_embed_split(b, p, seq![TAG_FLOAT], enc_count(s.len() as int) + enc_each(
                s,
                f_u32(),
                0,
            ));
            assert(b[p] == TAG_FLOAT) by {
                assert(b.subrange(p, p + 1)[0] == b[p]);
            }
            let p1 = p + 1;
            lemma_embed_split(b, p1, enc_count(s.len() as int), enc_each(s, f_u32(), 0));
            lemma_read_u32_enc(b, p1, s.len() as u32);
            assert(i32_of_u32(s.len() as u32) == s.len() as int);
            let p2 = p1 + 4;
            let sf = (fuel - 1) as nat;
            let g: spec_fn(u32) -> NbtV = |x: u32| NbtV::Float(x);
            assert forall|bb: Seq<u8>, pp: int, j: int|
                #![trigger bb.subrange(pp, pp + f_u32()(s[j]).len() as int)]
                0 <= j < s.len() && 0 <= pp && pp + f_u32()(s[j]).len() <= bb.len()
                    && bb.subrange(pp, pp + f_u32()(s[j]).len() as int) == f_u32()(
                    s[j],
                ) implies sdec_payload(bb, pp, TAG_FLOAT, sf) == Some((
                g(s[j]),
                pp + f_u32()(s[j]).len(),
            )) by {
                lemma_payload_f32(bb, pp, s[j], sf);
            }
            assert forall|j: int| 0 <= j < s.len() implies #[trigger] f_u32()(s[j]).len() > 0 by {}
            lemma_rt_elems(b, p2, s, 0, Seq::empty(), f_u32(), g, TAG_FLOAT, sf);
            assert(crate::dec::pack_list(
                TAG_FLOAT,
                Seq::empty() + s.subrange(0, s.len() as int).map_values(g),
            ) == l) by {
                assert(crate::dec::to_u32s(Seq::empty() + s.subrange(0, s.len() as int).map_values(g)) =~= s);
            }
        },
        NbtListV::DoubleList(s) => {
            assert(enc_list(l) =~= seq![TAG_DOUBLE] + (enc_count(s.len() as int) + enc_each(
                s,
                f_u64(),
                0,
            )));
            lemma_embed_split(b, p, seq![TAG_DOUBLE], enc_count(s.len() as int) + enc_each(
                s,
                f_u64(),
                0,
            ));
            assert(b[p] == TAG_DOUBLE) by {
                assert(b.subrange(p, p + 1)[0] == b[p]);
            }
            let p1 = p + 1;
            lemma_embed_split(b, p1, enc_count(s.len() as int), enc_each(s, f_u64(), 0));
            lemma_read_u32_enc(b, p1, s.len() as u32);
            assert(i32_of_u32(s.len() as u32) == s.len() as int);
            let p2 = p1 + 4;
            let sf = (fuel - 1) as nat;
            let g: spec_fn(u64) -> NbtV = |x: u64| NbtV::Double(x);
            assert forall|bb: Seq<u8>, pp: int, j: int|
                #![trigger bb.subrange(pp, pp + f_u64()(s[j]).len() as int)]
                0 <= j < s.len() && 0 <= pp && pp + f_u64()(s[j]).len() <= bb.len()
                    && bb.subrange(pp, pp + f_u64()(s[j]).len() as int) == f_u64()(
                    s[j],
                ) implies sdec_payload(bb, pp, TAG_DOUBLE, sf) == Some((
                g(s[j]),
                pp + f_u64()(s[j]).len(),
            )) by {
                lemma_payload_f64(bb, pp, s[j], sf);
            }
            assert forall|j: int| 0 <= j < s.len() implies #[trigger] f_u64()(s[j]).len() > 0 by {}
            lemma_rt_elems(b, p2, s, 0, Seq::empty(), f_u64(), g, TAG_DOUBLE, sf);
            assert(crate::dec::pack_list(
                TAG_DOUBLE,
                Seq::empty() + s.subrange(0, s.len() as int).map_values(g),
            ) == l) by {
                assert(crate::dec::to_u64s(Seq::empty() + s.subrange(0, s.len() as int).map_values(g)) =~= s);
            }
        },
        NbtListV::ByteArrayList(s) => {
            assert(enc_list(l) =~= seq![TAG_BYTE_ARRAY] + (enc_count(s.len() as int) + enc_each(
                s,
                f_bytes(),
                0,
            )));
            lemma_embed_split(b, p, seq![TAG_BYTE_ARRAY], enc_count(s.len() as int) + enc_each(
                s,
                f_bytes(),
                0,
            ));
            assert(b[p] == TAG_BYTE_ARRAY) by {
                assert(b.subrange(p, p + 1)[0] == b[p]);
            }
            let p1 = p + 1;
            lemma_embed_split(b, p1, enc_count(s.len() as int), enc_each(s, f_bytes(), 0));
            lemma_read_u32_enc(b, p1, s.len() as u32);
            assert(i32_of_u32(s.len() as u32) == s.len() as int);
            let p2 = p1 + 4;
            let sf = (fuel - 1) as nat;
            let g: spec_fn(Seq<i8>) -> NbtV = |x: Seq<i8>| NbtV::ByteArray(x);
            assert forall|bb: Seq<u8>, pp: int, j: int|
                #![trigger bb.subrange(pp, pp + f_bytes()(s[j]).len() as int)]
                0 <= j < s.len() && 0 <= pp && pp + f_bytes()(s[j]).len() <= bb.len()
                    && bb.subrange(pp, pp + f_bytes()(s[j]).len() as int) == f_bytes()(
                    s[j],
                ) implies sdec_payload(bb, pp, TAG_BYTE_ARRAY, sf) == Some((
                g(s[j]),
                pp + f_bytes()(s[j]).len(),
            )) by {
                lemma_payload_byte_array(bb, pp, s[j], sf);
            }
            assert forall|j: int| 0 <= j < s.len() implies #[trigger] f_bytes()(s[j]).len() > 0 by {}
            lemma_rt_elems(b, p2, s, 0, Seq::empty(), f_bytes(), g, TAG_BYTE_ARRAY, sf);
            assert(crate::dec::pack_list(
                TAG_BYTE_ARRAY,
                Seq::empty() + s.subrange(0, s.len() as int).map_values(g),
            ) == l) by {
                assert(crate::dec::to_byte_arrays(Seq::empty() + s.subrange(0, s.len() as int).map_values(g)) =~= s);
            }
        },
        NbtListV::StringList(s) => {
            assert(enc_list(l) =~= seq![TAG_STRING] + (enc_count(s.len() as int) + enc_each(
                s,
                f_name(),
                0,
            )));
            lemma_embed_split(b, p, seq![TAG_STRING], enc_count(s.len() as int) + enc_each(
                s,
                f_name(),
                0,
            ));
            assert(b[p] == TAG_STRING) by {
                assert(b.subrange(p, p + 1)[0] == b[p]);
            }
            let p1 = p + 1;
            lemma_embed_split(b, p1, enc_count(s.len() as int), enc_each(s, f_name(), 0));
            lemma_read_u32_enc(b, p1, s.len() as u32);
            assert(i32_of_u32(s.len() as u32) == s.len() as int);
            let p2 = p1 + 4;
            let sf = (fuel - 1) as nat;
            let g: spec_fn(Seq<u8>) -> NbtV = |x: Seq<u8>| NbtV::String(x);
            assert forall|bb: Seq<u8>, pp: int, j: int|
                #![trigger bb.subrange(pp, pp + f_name()(s[j]).len() as int)]
                0 <= j < s.len() && 0 <= pp && pp + f_name()(s[j]).len() <= bb.len()
                    && bb.subrange(pp, pp + f_name()(s[j]).len() as int) == f_name()(
                    s[j],
                ) implies sdec_payload(bb, pp, TAG_STRING, sf) == Some((
                g(s[j]),
                pp + f_name()(s[j]).len(),
            )) by {
                lemma_payload_string(bb, pp, s[j], sf);
            }
            assert forall|j: int| 0 <= j < s.len() implies #[trigger] f_name()(s[j]).len() > 0 by {}
            lemma_rt_elems(b, p2, s, 0, Seq::empty(), f_name(), g, TAG_STRING, sf);
            assert(crate::dec::pack_list(
                TAG_STRING,
                Seq::empty() + s.subrange(0, s.len() as int).map_values(g),
            ) == l) by {
                assert(crate::dec::to_names(Seq::empty() + s.subrange(0, s.len() as int).map_values(g)) =~= s);
            }
        },
        NbtListV::IntArrayList(s) => {
            assert(enc_list(l) =~= seq![TAG_INT_ARRAY] + (enc_count(s.len() as int) + enc_each(
                s,
                f_ints(),
                0,
            )));
            lemma_embed_split(b, p, seq![TAG_INT_ARRAY], enc_count(s.len() as int) + enc_each(
                s,
                f_ints(),
                0,
            ));
            assert(b[p] == TAG_INT_ARRAY) by {
                assert(b.subrange(p, p + 1)[0] == b[p]);
            }
            let p1 = p + 1;
            lemma_embed_split(b, p1, enc_count(s.len() as int), enc_each(s, f_ints(), 0));
            lemma_read_u32_enc(b, p1, s.len() as u32);
            assert(i32_of_u32(s.len() as u32) == s.len() as int);
            let p2 = p1 + 4;
            let sf = (fuel - 1) as nat;
            let g: spec_fn(Seq<i32>) -> NbtV = |x: Seq<i32>| NbtV::IntArray(x);
            assert forall|bb: Seq<u8>, pp: int, j: int|
                #![trigger bb.subrange(pp, pp + f_ints()(s[j]).len() as int)]
                0 <= j < s.len() && 0 <= pp && pp + f_ints()(s[j]).len() <= bb.len()
                    && bb.subrange(pp, pp + f_ints()(s[j]).len() as int) == f_ints()(
                    s[j],
                ) implies sdec_payload(bb, pp, TAG_INT_ARRAY, sf) == Some((
                g(s[j]),
                pp + f_ints()(s[j]).len(),
            )) by {
                lemma_payload_int_array(bb, pp, s[j], sf);
            }
            assert forall|j: int| 0 <= j < s.len() implies #[trigger] f_ints()(s[j]).len() > 0 by {}
            lemma_rt_elems(b, p2, s, 0, Seq::empty(), f_ints(), g, TAG_INT_ARRAY, sf);
            assert(crate::dec::pack_list(
                TAG_INT_ARRAY,
                Seq::empty() + s.subrange(0, s.len() as int).map_values(g),
            ) == l) by {
                assert(crate::dec::to_int_arrays(Seq::empty() + s.subrange(0, s.len() as int).map_values(g)) =~= s);
            }
        },
        NbtListV::LongArrayList(s) => {
            assert(enc_list(l) =~= seq![TAG_LONG_ARRAY] + (enc_count(s.len() as int) + enc_each(
                s,
                f_longs(),
                0,
            )));
            lemma_embed_split(b, p, seq![TAG_LONG_ARRAY], enc_count(s.len() as int) + enc_each(
                s,
                f_longs(),
                0,
            ));
            assert(b[p] == TAG_LONG_ARRAY) by {
                assert(b.subrange(p, p + 1)[0] == b[p]);
            }
            let p1 = p + 1;
            lemma_embed_split(b, p1, enc_count(s.len() as int), enc_each(s, f_longs(), 0));
            lemma_read_u32_enc(b, p1, s.len() as u32);
            assert(i32_of_u32(s.len() as u32) == s.len() as int);
            let p2 = p1 + 4;
            let sf = (fuel - 1) as nat;
            let g: spec_fn(Seq<i64>) -> NbtV = |x: Seq<i64>| NbtV::LongArray(x);
            assert forall|bb: Seq<u8>, pp: int, j: int|
                #![trigger bb.subrange(pp, pp + f_longs()(s[j]).len() as int)]
                0 <= j < s.len() && 0 <= pp && pp + f_longs()(s[j]).len() <= bb.len()
                    && bb.subrange(pp, pp + f_longs()(s[j]).len() as int) == f_longs()(
                    s[j],
                ) implies sdec_payload(bb, pp, TAG_LONG_ARRAY, sf) == Some((
                g(s[j]),
                pp + f_longs()(s[j]).len(),
            )) by {
                lemma_payload_long_array(bb, pp, s[j], sf);
            }
            assert forall|j: int| 0 <= j < s.len() implies #[trigger] f_longs()(s[j]).len() > 0 by {}
            lemma_rt_elems(b, p2, s, 0, Seq::empty(), f_longs(), g, TAG_LONG_ARRAY, sf);
            assert(crate::dec::pack_list(
                TAG_LONG_ARRAY,
                Seq::empty() + s.subrange(0, s.len() as int).map_values(g),
            ) == l) by {
                assert(crate::dec::to_long_arrays(Seq::empty() + s.subrange(0, s.len() as int).map_values(g)) =~= s);
            }
        },
        NbtListV::ListList(s) => {
            assert(enc_list(l) =~= seq![TAG_LIST] + (enc_count(s.len() as int) + enc_lists(s, 0)));
            lemma_embed_split(b, p, seq![TAG_LIST], enc_count(s.len() as int) + enc_lists(s, 0));
            assert(b[p] == TAG_LIST) by {
                assert(b.subrange(p, p + 1)[0] == b[p]);
            }
            let p1 = p + 1;
            lemma_embed_split(b, p1, enc_count(s.len() as int), enc_lists(s, 0));
            lemma_read_u32_enc(b, p1, s.len() as u32);
            assert(i32_of_u32(s.len() as u32) == s.len() as int);
            let p2 = p1 + 4;
            let sf = (fuel - 1) as nat;
            lemma_lists_pointwise(s, 0, sf);
            lemma_rt_list_elems(b, p2, s, 0, Seq::empty(), sf);
            let g = g_list();
            assert(crate::dec::pack_list(
                TAG_LIST,
                Seq::empty() + s.subrange(0, s.len() as int).map_values(g),
            ) == l) by {
                assert(crate::dec::to_lists(
                    Seq::empty() + s.subrange(0, s.len() as int).map_values(g),
                ) =~= s);
            }
        },
        NbtListV::CompoundList(s) => {
            assert(enc_list(l) =~= seq![TAG_COMPOUND] + (enc_count(s.len() as int)
                + enc_compounds(s, 0)));
            lemma_embed_split(b, p, seq![TAG_COMPOUND], enc_count(s.len() as int) + enc_compounds(
                s,
                0,
            ));
            assert(b[p] == TAG_COMPOUND) by {
                assert(b.subrange(p, p + 1)[0] == b[p]);
            }
            let p1 = p + 1;
            lemma_embed_split(b, p1, enc_count(s.len() as int), enc_compounds(s, 0));
            lemma_read_u32_enc(b, p1, s.len() as u32);
            assert(i32_of_u32(s.len() as u32) == s.len() as int);
            let p2 = p1 + 4;
            let sf = (fuel - 1) as nat;
            lemma_compounds_pointwise(s, 0, sf);
            lemma_rt_comp_elems(b, p2, s, 0, Seq::empty(), sf);
            let g = g_comp();
            assert(crate::dec::pack_list(
                TAG_COMPOUND,
                Seq::empty() + s.subrange(0, s.len() as int).map_values(g),
            ) == l) by {
                assert(crate::dec::to_compounds(
                    Seq::empty() + s.subrange(0, s.len() as int).map_values(g),
                ) =~= s);
            }
        },
        NbtListV::EmptyList => {
            assert(enc_list(l) =~= seq![TAG_END] + enc_count(0));
            lemma_embed_split(b, p, seq![TAG_END], enc_count(0));
            assert(b[p] == TAG_END) by {
                assert(b.subrange(p, p + 1)[0] == b[p]);
            }
            lemma_read_u32_enc(b, p + 1, 0);
        },
    }
}

// ---------------------------------------------------------------------------
// The round-trip law itself.
// ---------------------------------------------------------------------------

/// Round-trip law: for every representable document — a well-formed root
/// name and a value tree whose strings and counts fit the wire format,
/// whose compound keys are unique, and whose nesting stays within
/// [`MAX_DEPTH`] — decoding the encoding restores the document exactly, and
/// consumes exactly the encoded bytes.
pub proof fn lemma_round_trip(n: Seq<u8>, v: NbtV)
    requires
        name_ok(n),
        enc_ok_value(v),
        uniq_value(v),
        fits_value(v, MAX_DEPTH as nat),
    ensures
        sdec_doc(enc_doc(n, v)) == Some((n, v, enc_doc(n, v).len() as int)),
{
    let b = enc_doc(n, v);
    assert(b =~= seq![tag_of(v)] + (enc_name(n) + enc_value(v)));
    assert(b.subrange(0, b.len() as int) =~= b);
    lemma_embed_split(b, 0, seq![tag_of(v)], enc_name(n) + enc_value(v));
    assert(b[0] == tag_of(v)) by {
        assert(b.subrange(0, 1)[0] == b[0]);
    }
    lemma_embed_split(b, 1, enc_name(n), enc_value(v));
    lemma_read_name_enc(b, 1, n);
    let p1 = 1 + enc_name(n).len() as int;
    lemma_rt_value(b, p1, v, MAX_DEPTH as nat);
}

// ---------------------------------------------------------------------------
// The remaining format laws.
// ---------------------------------------------------------------------------

/// Compressed round-trip law: compressed bytes that decompress to the
/// encoding of a representable document — as produced by the compressing
/// encoder — decode back to exactly that document.
pub proof fn lemma_compressed_round_trip(n: Seq<u8>, v: NbtV, c: Seq<u8>)
    requires
        name_ok(n),
        enc_ok_value(v),
        uniq_value(v),
        fits_value(v, MAX_DEPTH as nat),
    ensures
        crate::gzip::gunzip(c) == Some(enc_doc(n, v)) ==> sdec_doc(
            crate::gzip::gunzip(c).unwrap(),
        ) == Some((n, v, enc_doc(n, v).len() as int)),
{
    lemma_round_trip(n, v);
}

/// Tag range rejection: a byte outside the value-tag range (End included —
/// it is legal only as a list element tag or compound terminator) fails a
/// payload parse at any position, with any recursion budget.
pub proof fn lemma_tag_rejection(b: Seq<u8>, p: int, tag: u8, fuel: nat)
    requires
        !tag_valid(tag),
    ensures
        sdec_payload(b, p, tag, fuel) is None,
{
}

/// Tag range rejection at the root: a document whose first byte is not a
/// valid value tag never decodes.
pub proof fn lemma_doc_tag_rejection(b: Seq<u8>)
    requires
        b.len() > 0,
        !tag_valid(b[0]),
    ensures
        sdec_doc(b) is None,
{
    if r_name(b, 1) is Some {
        lemma_tag_rejection(b, r_name(b, 1).unwrap().1, b[0], MAX_DEPTH as nat);
    }
}

/// String UTF-8 rejection: a string whose declared length is consistent but
/// whose payload bytes are not valid UTF-8 fails the parse.
pub proof fn lemma_utf8_rejection(b: Seq<u8>, p: int, len: u16, fuel: nat)
    requires
        r_u16(b, p) == Some((len, p + 2)),
        p + 2 + len <= b.len(),
        !crate::dec::r_name_payload_valid(b, p, len),
    ensures
        r_name(b, p) is None,
        sdec_payload(b, p, TAG_STRING, fuel) is None,
{
}

/// List homogeneity, decode side: a list whose element tag is End decodes
/// to the empty list whatever its declared count, even a negative one.
pub proof fn lemma_end_tag_list(b: Seq<u8>, p: int, fuel: nat)
    requires
        0 <= p,
        p + 5 <= b.len(),
        b[p] == TAG_END,
    ensures
        sdec_list(b, p, fuel) == Some((NbtListV::EmptyList, p + 5)),
{
}

/// List homogeneity, encode side: every list payload carries exactly one
/// element-kind tag and one count before its elements.
pub proof fn lemma_list_header(l: NbtListV)
    requires
        enc_ok_list(l),
    ensures
        enc_list(l).len() >= 5,
        enc_list(l)[0] == elem_tag(l),
        enc_list(l).subrange(1, 5) == enc_count(list_len(l)),
{
    match l {
        NbtListV::ByteList(s) => {
            assert(enc_list(l).subrange(1, 5) =~= enc_count(list_len(l)));
        },
        NbtListV::ShortList(s) => {
            assert(enc_list(l).subrange(1, 5) =~= enc_count(list_len(l)));
        },
        NbtListV::IntList(s) => {
            assert(enc_list(l).subrange(1, 5) =~= enc_count(list_len(l)));
        },
        NbtListV::LongList(s) => {
            assert(enc_list(l).subrange(1, 5) =~= enc_count(list_len(l)));
        },
        NbtListV::FloatList(s) => {
            assert(enc_list(l).subrange(1, 5) =~= enc_count(list_len(l)));
        },
        NbtListV::DoubleList(s) => {
            assert(enc_list(l).subrange(1, 5) =~= enc_count(list_len(l)));
        },
        NbtListV::ByteArrayList(s) => {
            assert(enc_list(l).subrange(1, 5) =~= enc_count(list_len(l)));
        },
        NbtListV::StringList(s) => {
            assert(enc_list(l).subrange(1, 5) =~= enc_count(list_len(l)));
        },
        NbtListV::ListList(s) => {
            assert(enc_list(l).subrange(1, 5) =~= enc_count(list_len(l)));
        },
        NbtListV::CompoundList(s) => {
            assert(enc_list(l).subrange(1, 5) =~= enc_count(list_len(l)));
        },
        NbtListV::IntArrayList(s) => {
            assert(enc_list(l).subrange(1, 5) =~= enc_count(list_len(l)));
        },
        NbtListV::LongArrayList(s) => {
            assert(enc_list(l).subrange(1, 5) =~= enc_count(list_len(l)));
        },
        NbtListV::EmptyList => {
            assert(enc_list(l).subrange(1, 5) =~= enc_count(list_len(l)));
        },
    }
}

} // verus!
