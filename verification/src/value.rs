//! The in-memory value model: a closed set of variant kinds forming a tree,
//! each kind bound to the fixed numeric tag it carries on the wire.
//!
//! Two representation choices keep the model fully verifiable while staying
//! byte-for-byte faithful to the format:
//!
//! - The two floating-point kinds carry their raw IEEE 754 bit patterns
//!   (`u32` / `u64`). The codec never performs float arithmetic — on the wire
//!   a float is exactly its big-endian bit pattern — so this loses nothing
//!   and keeps round trips bit-exact.
//! - A compound is a vector of `(key, value)` entries. Key lookup and
//!   insertion treat the key set as a map with last-write-wins semantics;
//!   entry order is preserved but not semantically significant.
//!
//! Ghost views (`NbtV`, `NbtListV`) mirror the executable types with
//! mathematical sequences, and with strings projected to their UTF-8 byte
//! strings — the form in which they live on the wire.

use vstd::prelude::*;
use vstd::utf8::encode_utf8;
use vstd::utf8::valid_utf8;

verus! {

broadcast use vstd::std_specs::vec::group_vec_axioms;

pub const TAG_END: u8 = 0;

pub const TAG_BYTE: u8 = 1;

pub const TAG_SHORT: u8 = 2;

pub const TAG_INT: u8 = 3;

pub const TAG_LONG: u8 = 4;

pub const TAG_FLOAT: u8 = 5;

pub const TAG_DOUBLE: u8 = 6;

pub const TAG_BYTE_ARRAY: u8 = 7;

pub const TAG_STRING: u8 = 8;

pub const TAG_LIST: u8 = 9;

pub const TAG_COMPOUND: u8 = 10;

pub const TAG_INT_ARRAY: u8 = 11;

pub const TAG_LONG_ARRAY: u8 = 12;

/// Deepest nesting of lists and compounds the decoder will follow. Decoding
/// is recursive over the tag grammar; bounding the depth keeps an adversarial
/// input from overflowing the call stack, and a document nested deeper than
/// this is rejected as malformed.
pub const MAX_DEPTH: u32 = 512;

/// Largest element count of an array or list: the wire stores counts as
/// signed 32-bit integers, and a negative count is malformed.
pub const MAX_LEN: usize = 0x7fff_ffff;

/// Largest byte length of a string or name: the wire stores string lengths
/// as unsigned 16-bit integers.
pub const MAX_NAME: usize = 0xffff;

/// A node of the value tree. Each variant's numeric wire tag is given by
/// [`tag_of`] on the view.
#[derive(Debug, PartialEq)]
pub enum NbtValue {
    Byte(i8),
    Short(i16),
    Int(i32),
    Long(i64),
    /// A 32-bit IEEE 754 float, carried as its raw bit pattern.
    Float(u32),
    /// A 64-bit IEEE 754 float, carried as its raw bit pattern.
    Double(u64),
    ByteArray(Vec<i8>),
    String(String),
    List(NbtList),
    /// String-keyed entries; keys are unique and the last insertion wins.
    Compound(Vec<(String, NbtValue)>),
    IntArray(Vec<i32>),
    LongArray(Vec<i64>),
}

/// A homogeneous list: one payload kind for the whole length, mirrored by a
/// dedicated variant per element kind, plus the distinguished empty list
/// whose on-wire element tag is End.
#[derive(Debug, PartialEq)]
pub enum NbtList {
    ByteList(Vec<i8>),
    ShortList(Vec<i16>),
    IntList(Vec<i32>),
    LongList(Vec<i64>),
    /// 32-bit IEEE 754 floats, carried as raw bit patterns.
    FloatList(Vec<u32>),
    /// 64-bit IEEE 754 floats, carried as raw bit patterns.
    DoubleList(Vec<u64>),
    ByteArrayList(Vec<Vec<i8>>),
    StringList(Vec<String>),
    ListList(Vec<NbtList>),
    CompoundList(Vec<Vec<(String, NbtValue)>>),
    IntArrayList(Vec<Vec<i32>>),
    LongArrayList(Vec<Vec<i64>>),
    EmptyList,
}

/// Mathematical view of a value: vectors become sequences and strings become
/// their UTF-8 byte strings.
pub enum NbtV {
    Byte(i8),
    Short(i16),
    Int(i32),
    Long(i64),
    Float(u32),
    Double(u64),
    ByteArray(Seq<i8>),
    String(Seq<u8>),
    List(NbtListV),
    Compound(Seq<(Seq<u8>, NbtV)>),
    IntArray(Seq<i32>),
    LongArray(Seq<i64>),
}

/// Mathematical view of a list.
pub enum NbtListV {
    ByteList(Seq<i8>),
    ShortList(Seq<i16>),
    IntList(Seq<i32>),
    LongList(Seq<i64>),
    FloatList(Seq<u32>),
    DoubleList(Seq<u64>),
    ByteArrayList(Seq<Seq<i8>>),
    StringList(Seq<Seq<u8>>),
    ListList(Seq<NbtListV>),
    CompoundList(Seq<Seq<(Seq<u8>, NbtV)>>),
    IntArrayList(Seq<Seq<i32>>),
    LongArrayList(Seq<Seq<i64>>),
    EmptyList,
}

/// The UTF-8 byte string of a string value — its exact wire payload.
pub open spec fn name_bytes(s: String) -> Seq<u8> {
    encode_utf8(s@)
}

pub open spec fn bytes_views(s: Seq<Vec<i8>>) -> Seq<Seq<i8>> {
    s.map_values(|x: Vec<i8>| x@)
}

pub open spec fn ints_views(s: Seq<Vec<i32>>) -> Seq<Seq<i32>> {
    s.map_values(|x: Vec<i32>| x@)
}

pub open spec fn longs_views(s: Seq<Vec<i64>>) -> Seq<Seq<i64>> {
    s.map_values(|x: Vec<i64>| x@)
}

pub open spec fn names_views(s: Seq<String>) -> Seq<Seq<u8>> {
    s.map_values(|x: String| name_bytes(x))
}

pub open spec fn view_value(v: NbtValue) -> NbtV
    decreases v, 0int, 0int,
{
    match v {
        NbtValue::Byte(x) => NbtV::Byte(x),
        NbtValue::Short(x) => NbtV::Short(x),
        NbtValue::Int(x) => NbtV::Int(x),
        NbtValue::Long(x) => NbtV::Long(x),
        NbtValue::Float(x) => NbtV::Float(x),
        NbtValue::Double(x) => NbtV::Double(x),
        NbtValue::ByteArray(s) => NbtV::ByteArray(s@),
        NbtValue::String(s) => NbtV::String(name_bytes(s)),
        NbtValue::List(l) => NbtV::List(view_list(l)),
        NbtValue::Compound(es) => NbtV::Compound(view_entries(es@, 0)),
        NbtValue::IntArray(s) => NbtV::IntArray(s@),
        NbtValue::LongArray(s) => NbtV::LongArray(s@),
    }
}

pub open spec fn view_list(l: NbtList) -> NbtListV
    decreases l, 0int, 0int,
{
    match l {
        NbtList::ByteList(s) => NbtListV::ByteList(s@),
        NbtList::ShortList(s) => NbtListV::ShortList(s@),
        NbtList::IntList(s) => NbtListV::IntList(s@),
        NbtList::LongList(s) => NbtListV::LongList(s@),
        NbtList::FloatList(s) => NbtListV::FloatList(s@),
        NbtList::DoubleList(s) => NbtListV::DoubleList(s@),
        NbtList::ByteArrayList(s) => NbtListV::ByteArrayList(bytes_views(s@)),
        NbtList::StringList(s) => NbtListV::StringList(names_views(s@)),
        NbtList::ListList(s) => NbtListV::ListList(view_lists(s@, 0)),
        NbtList::CompoundList(s) => NbtListV::CompoundList(view_compounds(s@, 0)),
        NbtList::IntArrayList(s) => NbtListV::IntArrayList(ints_views(s@)),
        NbtList::LongArrayList(s) => NbtListV::LongArrayList(longs_views(s@)),
        NbtList::EmptyList => NbtListV::EmptyList,
    }
}

pub open spec fn view_entries(s: Seq<(String, NbtValue)>, i: int) -> Seq<(Seq<u8>, NbtV)>
    decreases s, 1int, s.len() - i,
{
    if i < 0 || i >= s.len() {
        Seq::empty()
    } else {
        seq![(name_bytes(s[i].0), view_value(s[i].1))] + view_entries(s, i + 1)
    }
}

pub open spec fn view_lists(s: Seq<NbtList>, i: int) -> Seq<NbtListV>
    decreases s, 1int, s.len() - i,
{
    if i < 0 || i >= s.len() {
        Seq::empty()
    } else {
        seq![view_list(s[i])] + view_lists(s, i + 1)
    }
}

pub open spec fn view_compounds(s: Seq<Vec<(String, NbtValue)>>, i: int) -> Seq<
    Seq<(Seq<u8>, NbtV)>,
>
    decreases s, 1int, s.len() - i,
{
    if i < 0 || i >= s.len() {
        Seq::empty()
    } else {
        seq![view_entries(s[i]@, 0)] + view_compounds(s, i + 1)
    }
}

impl View for NbtValue {
    type V = NbtV;

    open spec fn view(&self) -> NbtV {
        view_value(*self)
    }
}

impl View for NbtList {
    type V = NbtListV;

    open spec fn view(&self) -> NbtListV {
        view_list(*self)
    }
}

/// Pointwise shape of [`view_entries`]: element `j` is the view of entry
/// `i + j` of the underlying vector.
pub proof fn lemma_view_entries(s: Seq<(String, NbtValue)>, i: int)
    requires
        0 <= i <= s.len(),
    ensures
        view_entries(s, i).len() == s.len() - i,
        forall|j: int|
            0 <= j < s.len() - i ==> #[trigger] view_entries(s, i)[j] == (
            name_bytes(s[i + j].0),
            view_value(s[i + j].1),
            ),
    decreases s.len() - i,
{
    if i < s.len() {
        lemma_view_entries(s, i + 1);
        assert forall|j: int| 0 <= j < s.len() - i implies #[trigger] view_entries(s, i)[j] == (
        name_bytes(s[i + j].0),
        view_value(s[i + j].1),
        ) by {
            if j > 0 {
                assert(view_entries(s, i + 1)[j - 1] == (
                name_bytes(s[i + 1 + (j - 1)].0),
                view_value(s[i + 1 + (j - 1)].1),
                ));
                assert(i + 1 + (j - 1) == i + j);
            }
        }
    }
}

/// Pointwise shape of [`view_lists`].
pub proof fn lemma_view_lists(s: Seq<NbtList>, i: int)
    requires
        0 <= i <= s.len(),
    ensures
        view_lists(s, i).len() == s.len() - i,
        forall|j: int|
            0 <= j < s.len() - i ==> #[trigger] view_lists(s, i)[j] == view_list(s[i + j]),
    decreases s.len() - i,
{
    if i < s.len() {
        lemma_view_lists(s, i + 1);
        assert forall|j: int| 0 <= j < s.len() - i implies #[trigger] view_lists(s, i)[j]
            == view_list(s[i + j]) by {
            if j > 0 {
                assert(view_lists(s, i + 1)[j - 1] == view_list(s[i + 1 + (j - 1)]));
                assert(i + 1 + (j - 1) == i + j);
            }
        }
    }
}

/// Pointwise shape of [`view_compounds`].
pub proof fn lemma_view_compounds(s: Seq<Vec<(String, NbtValue)>>, i: int)
    requires
        0 <= i <= s.len(),
    ensures
        view_compounds(s, i).len() == s.len() - i,
        forall|j: int|
            0 <= j < s.len() - i ==> #[trigger] view_compounds(s, i)[j] == view_entries(
                s[i + j]@,
                0,
            ),
    decreases s.len() - i,
{
    if i < s.len() {
        lemma_view_compounds(s, i + 1);
        assert forall|j: int| 0 <= j < s.len() - i implies #[trigger] view_compounds(s, i)[j]
            == view_entries(s[i + j]@, 0) by {
            if j > 0 {
                assert(view_compounds(s, i + 1)[j - 1] == view_entries(s[i + 1 + (j - 1)]@, 0));
                assert(i + 1 + (j - 1) == i + j);
            }
        }
    }
}

// ---------------------------------------------------------------------------
// Wire tags of the view variants.
// ---------------------------------------------------------------------------

pub open spec fn tag_valid(t: u8) -> bool {
    TAG_BYTE <= t <= TAG_LONG_ARRAY
}

/// The tag byte a value of this kind carries on the wire.
pub open spec fn tag_of(v: NbtV) -> u8 {
    match v {
        NbtV::Byte(_) => TAG_BYTE,
        NbtV::Short(_) => TAG_SHORT,
        NbtV::Int(_) => TAG_INT,
        NbtV::Long(_) => TAG_LONG,
        NbtV::Float(_) => TAG_FLOAT,
        NbtV::Double(_) => TAG_DOUBLE,
        NbtV::ByteArray(_) => TAG_BYTE_ARRAY,
        NbtV::String(_) => TAG_STRING,
        NbtV::List(_) => TAG_LIST,
        NbtV::Compound(_) => TAG_COMPOUND,
        NbtV::IntArray(_) => TAG_INT_ARRAY,
        NbtV::LongArray(_) => TAG_LONG_ARRAY,
    }
}

/// The element-kind tag a list declares once for its whole length; End for
/// the empty list.
pub open spec fn elem_tag(l: NbtListV) -> u8 {
    match l {
        NbtListV::ByteList(_) => TAG_BYTE,
        NbtListV::ShortList(_) => TAG_SHORT,
        NbtListV::IntList(_) => TAG_INT,
        NbtListV::LongList(_) => TAG_LONG,
        NbtListV::FloatList(_) => TAG_FLOAT,
        NbtListV::DoubleList(_) => TAG_DOUBLE,
        NbtListV::ByteArrayList(_) => TAG_BYTE_ARRAY,
        NbtListV::StringList(_) => TAG_STRING,
        NbtListV::ListList(_) => TAG_LIST,
        NbtListV::CompoundList(_) => TAG_COMPOUND,
        NbtListV::IntArrayList(_) => TAG_INT_ARRAY,
        NbtListV::LongArrayList(_) => TAG_LONG_ARRAY,
        NbtListV::EmptyList => TAG_END,
    }
}

/// The element count a list declares once for its whole length; 0 for the
/// empty list.
pub open spec fn list_len(l: NbtListV) -> int {
    match l {
        NbtListV::ByteList(s) => s.len() as int,
        NbtListV::ShortList(s) => s.len() as int,
        NbtListV::IntList(s) => s.len() as int,
        NbtListV::LongList(s) => s.len() as int,
        NbtListV::FloatList(s) => s.len() as int,
        NbtListV::DoubleList(s) => s.len() as int,
        NbtListV::ByteArrayList(s) => s.len() as int,
        NbtListV::StringList(s) => s.len() as int,
        NbtListV::ListList(s) => s.len() as int,
        NbtListV::CompoundList(s) => s.len() as int,
        NbtListV::IntArrayList(s) => s.len() as int,
        NbtListV::LongArrayList(s) => s.len() as int,
        NbtListV::EmptyList => 0,
    }
}

// ---------------------------------------------------------------------------
// Encodability: every string fits the 16-bit length field and is valid
// UTF-8, and every array or list fits the signed 32-bit count field. These
// are exactly the wire format's own limits; nothing else restricts a value.
// ---------------------------------------------------------------------------

pub open spec fn name_ok(n: Seq<u8>) -> bool {
    n.len() <= MAX_NAME && valid_utf8(n)
}

pub open spec fn enc_ok_value(v: NbtV) -> bool
    decreases v, 0int, 0int,
{
    match v {
        NbtV::Byte(_) => true,
        NbtV::Short(_) => true,
        NbtV::Int(_) => true,
        NbtV::Long(_) => true,
        NbtV::Float(_) => true,
        NbtV::Double(_) => true,
        NbtV::ByteArray(s) => s.len() <= MAX_LEN,
        NbtV::String(b) => name_ok(b),
        NbtV::List(l) => enc_ok_list(l),
        NbtV::Compound(es) => enc_ok_entries(es, 0),
        NbtV::IntArray(s) => s.len() <= MAX_LEN,
        NbtV::LongArray(s) => s.len() <= MAX_LEN,
    }
}

pub open spec fn enc_ok_list(l: NbtListV) -> bool
    decreases l, 0int, 0int,
{
    match l {
        NbtListV::ByteList(s) => s.len() <= MAX_LEN,
        NbtListV::ShortList(s) => s.len() <= MAX_LEN,
        NbtListV::IntList(s) => s.len() <= MAX_LEN,
        NbtListV::LongList(s) => s.len() <= MAX_LEN,
        NbtListV::FloatList(s) => s.len() <= MAX_LEN,
        NbtListV::DoubleList(s) => s.len() <= MAX_LEN,
        NbtListV::ByteArrayList(s) => s.len() <= MAX_LEN && forall|j: int|
            0 <= j < s.len() ==> #[trigger] s[j].len() <= MAX_LEN,
        NbtListV::StringList(s) => s.len() <= MAX_LEN && forall|j: int|
            0 <= j < s.len() ==> name_ok(#[trigger] s[j]),
        NbtListV::ListList(s) => s.len() <= MAX_LEN && enc_ok_lists(s, 0),
        NbtListV::CompoundList(s) => s.len() <= MAX_LEN && enc_ok_compounds(s, 0),
        NbtListV::IntArrayList(s) => s.len() <= MAX_LEN && forall|j: int|
            0 <= j < s.len() ==> #[trigger] s[j].len() <= MAX_LEN,
        NbtListV::LongArrayList(s) => s.len() <= MAX_LEN && forall|j: int|
            0 <= j < s.len() ==> #[trigger] s[j].len() <= MAX_LEN,
        NbtListV::EmptyList => true,
    }
}

pub open spec fn enc_ok_entries(es: Seq<(Seq<u8>, NbtV)>, i: int) -> bool
    decreases es, 1int, es.len() - i,
{
    if i < 0 || i >= es.len() {
        true
    } else {
        name_ok(es[i].0) && enc_ok_value(es[i].1) && enc_ok_entries(es, i + 1)
    }
}

pub open spec fn enc_ok_lists(s: Seq<NbtListV>, i: int) -> bool
    decreases s, 1int, s.len() - i,
{
    if i < 0 || i >= s.len() {
        true
    } else {
        enc_ok_list(s[i]) && enc_ok_lists(s, i + 1)
    }
}

pub open spec fn enc_ok_compounds(s: Seq<Seq<(Seq<u8>, NbtV)>>, i: int) -> bool
    decreases s, 1int, s.len() - i,
{
    if i < 0 || i >= s.len() {
        true
    } else {
        enc_ok_entries(s[i], 0) && enc_ok_compounds(s, i + 1)
    }
}

// ---------------------------------------------------------------------------
// Key uniqueness: the structural invariant of compounds. It is a property of
// well-formed trees, not a precondition of encoding — encoding a tree with a
// duplicated key is possible, but decoding applies last-write-wins and would
// not restore it.
// ---------------------------------------------------------------------------

pub open spec fn distinct_keys(es: Seq<(Seq<u8>, NbtV)>) -> bool {
    forall|i: int, j: int| 0 <= i < j < es.len() ==> (#[trigger] es[i]).0 != (#[trigger] es[j]).0
}

pub open spec fn uniq_value(v: NbtV) -> bool
    decreases v, 0int, 0int,
{
    match v {
        NbtV::Byte(_) => true,
        NbtV::Short(_) => true,
        NbtV::Int(_) => true,
        NbtV::Long(_) => true,
        NbtV::Float(_) => true,
        NbtV::Double(_) => true,
        NbtV::ByteArray(_) => true,
        NbtV::String(_) => true,
        NbtV::List(l) => uniq_list(l),
        NbtV::Compound(es) => distinct_keys(es) && uniq_entries(es, 0),
        NbtV::IntArray(_) => true,
        NbtV::LongArray(_) => true,
    }
}

pub open spec fn uniq_list(l: NbtListV) -> bool
    decreases l, 0int, 0int,
{
    match l {
        NbtListV::ListList(s) => uniq_lists(s, 0),
        NbtListV::CompoundList(s) => uniq_compounds(s, 0),
        _ => true,
    }
}

pub open spec fn uniq_entries(es: Seq<(Seq<u8>, NbtV)>, i: int) -> bool
    decreases es, 1int, es.len() - i,
{
    if i < 0 || i >= es.len() {
        true
    } else {
        uniq_value(es[i].1) && uniq_entries(es, i + 1)
    }
}

pub open spec fn uniq_lists(s: Seq<NbtListV>, i: int) -> bool
    decreases s, 1int, s.len() - i,
{
    if i < 0 || i >= s.len() {
        true
    } else {
        uniq_list(s[i]) && uniq_lists(s, i + 1)
    }
}

pub open spec fn uniq_compounds(s: Seq<Seq<(Seq<u8>, NbtV)>>, i: int) -> bool
    decreases s, 1int, s.len() - i,
{
    if i < 0 || i >= s.len() {
        true
    } else {
        distinct_keys(s[i]) && uniq_entries(s[i], 0) && uniq_compounds(s, i + 1)
    }
}

// ---------------------------------------------------------------------------
// Decode depth: whether a tree nests shallowly enough for a given recursion
// budget. Each list or compound level consumes one unit; the public decoder
// starts from `MAX_DEPTH`.
// ---------------------------------------------------------------------------

pub open spec fn fits_value(v: NbtV, fuel: nat) -> bool
    decreases v, 0int, 0int,
{
    match v {
        NbtV::Byte(_) => true,
        NbtV::Short(_) => true,
        NbtV::Int(_) => true,
        NbtV::Long(_) => true,
        NbtV::Float(_) => true,
        NbtV::Double(_) => true,
        NbtV::ByteArray(_) => true,
        NbtV::String(_) => true,
        NbtV::List(l) => fits_list(l, fuel),
        NbtV::Compound(es) => fits_entries(es, 0, fuel),
        NbtV::IntArray(_) => true,
        NbtV::LongArray(_) => true,
    }
}

pub open spec fn fits_list(l: NbtListV, fuel: nat) -> bool
    decreases l, 0int, 0int,
{
    match l {
        NbtListV::ListList(s) => fuel > 0 && fits_lists(s, 0, (fuel - 1) as nat),
        NbtListV::CompoundList(s) => fuel > 0 && fits_compounds(s, 0, (fuel - 1) as nat),
        NbtListV::EmptyList => true,
        _ => fuel > 0,
    }
}

pub open spec fn fits_entries(es: Seq<(Seq<u8>, NbtV)>, i: int, fuel: nat) -> bool
    decreases es, 1int, es.len() - i,
{
    if i < 0 || i >= es.len() {
        true
    } else {
        fuel > 0 && fits_value(es[i].1, (fuel - 1) as nat) && fits_entries(es, i + 1, fuel)
    }
}

pub open spec fn fits_lists(s: Seq<NbtListV>, i: int, fuel: nat) -> bool
    decreases s, 1int, s.len() - i,
{
    if i < 0 || i >= s.len() {
        true
    } else {
        fits_list(s[i], fuel) && fits_lists(s, i + 1, fuel)
    }
}

pub open spec fn fits_compounds(s: Seq<Seq<(Seq<u8>, NbtV)>>, i: int, fuel: nat) -> bool
    decreases s, 1int, s.len() - i,
{
    if i < 0 || i >= s.len() {
        true
    } else {
        fits_entries(s[i], 0, fuel) && fits_compounds(s, i + 1, fuel)
    }
}

// ---------------------------------------------------------------------------
// Read and write access into an existing tree: keyed lookup and insertion
// on compounds, indexed reads on arrays and lists, and in-place scalar
// replacement. A consumer embedding the tree in another runtime needs only
// these accessors plus the codec entry points.
// ---------------------------------------------------------------------------

pub(crate) fn bytes_eq(a: &[u8], b: &[u8]) -> (r: bool)
    ensures
        r == (a@ == b@),
{
    if a.len() != b.len() {
        return false;
    }
    let mut i: usize = 0;
    while i < a.len()
        invariant
            0 <= i <= a@.len(),
            a@.len() == b@.len(),
            forall|j: int| 0 <= j < i ==> a@[j] == b@[j],
        decreases a@.len() - i,
    {
        if a[i] != b[i] {
            return false;
        }
        i = i + 1;
    }
    proof {
        assert(a@ =~= b@);
    }
    true
}

pub(crate) fn str_eq(a: &str, b: &str) -> (r: bool)
    ensures
        r == (a@ == b@),
{
    let r = bytes_eq(a.as_bytes(), b.as_bytes());
    proof {
        if encode_utf8(a@) == encode_utf8(b@) {
            vstd::utf8::encode_utf8_decode_utf8(a@);
            vstd::utf8::encode_utf8_decode_utf8(b@);
        }
    }
    r
}

/// The value under the first entry whose key is `k`.
pub open spec fn lookup(es: Seq<(Seq<u8>, NbtV)>, k: Seq<u8>) -> Option<NbtV>
    decreases es.len(),
{
    if es.len() == 0 {
        None
    } else if es[0].0 == k {
        Some(es[0].1)
    } else {
        lookup(es.drop_first(), k)
    }
}

pub proof fn lemma_lookup_at(es: Seq<(Seq<u8>, NbtV)>, k: Seq<u8>, i: int)
    requires
        0 <= i < es.len(),
        es[i].0 == k,
        forall|j: int| 0 <= j < i ==> (#[trigger] es[j]).0 != k,
    ensures
        lookup(es, k) == Some(es[i].1),
    decreases es.len(),
{
    if i > 0 {
        assert(forall|j: int|
            0 <= j < i - 1 ==> (#[trigger] es.drop_first()[j]).0 == es[j + 1].0);
        lemma_lookup_at(es.drop_first(), k, i - 1);
    }
}

pub proof fn lemma_lookup_absent(es: Seq<(Seq<u8>, NbtV)>, k: Seq<u8>)
    requires
        forall|j: int| 0 <= j < es.len() ==> (#[trigger] es[j]).0 != k,
    ensures
        lookup(es, k) is None,
    decreases es.len(),
{
    if es.len() > 0 {
        assert(forall|j: int|
            0 <= j < es.drop_first().len() ==> (#[trigger] es.drop_first()[j]).0 == es[
                j + 1
            ].0);
        lemma_lookup_absent(es.drop_first(), k);
    }
}

/// An indexed element of a list, for the kinds whose elements are handed
/// out by value (scalars, float bit patterns and strings). Aggregate
/// element kinds are not copied out.
pub open spec fn list_at(l: NbtListV, i: int) -> Option<NbtV> {
    match l {
        NbtListV::ByteList(s) => if 0 <= i < s.len() {
            Some(NbtV::Byte(s[i]))
        } else {
            None
        },
        NbtListV::ShortList(s) => if 0 <= i < s.len() {
            Some(NbtV::Short(s[i]))
        } else {
            None
        },
        NbtListV::IntList(s) => if 0 <= i < s.len() {
            Some(NbtV::Int(s[i]))
        } else {
            None
        },
        NbtListV::LongList(s) => if 0 <= i < s.len() {
            Some(NbtV::Long(s[i]))
        } else {
            None
        },
        NbtListV::FloatList(s) => if 0 <= i < s.len() {
            Some(NbtV::Float(s[i]))
        } else {
            None
        },
        NbtListV::DoubleList(s) => if 0 <= i < s.len() {
            Some(NbtV::Double(s[i]))
        } else {
            None
        },
        NbtListV::StringList(s) => if 0 <= i < s.len() {
            Some(NbtV::String(s[i]))
        } else {
            None
        },
        _ => None,
    }
}

/// An indexed element of a value: arrays hand out their scalars, a list
/// defers to [`list_at`], anything else has no indexed elements.
pub open spec fn value_at(v: NbtV, i: int) -> Option<NbtV> {
    match v {
        NbtV::ByteArray(s) => if 0 <= i < s.len() {
            Some(NbtV::Byte(s[i]))
        } else {
            None
        },
        NbtV::IntArray(s) => if 0 <= i < s.len() {
            Some(NbtV::Int(s[i]))
        } else {
            None
        },
        NbtV::LongArray(s) => if 0 <= i < s.len() {
            Some(NbtV::Long(s[i]))
        } else {
            None
        },
        NbtV::List(l) => list_at(l, i),
        _ => None,
    }
}

/// Whether two values are of the same directly-replaceable kind: a scalar,
/// a float bit pattern, or a string.
pub open spec fn same_scalar_kind(a: NbtV, b: NbtV) -> bool {
    ||| (a is Byte && b is Byte)
    ||| (a is Short && b is Short)
    ||| (a is Int && b is Int)
    ||| (a is Long && b is Long)
    ||| (a is Float && b is Float)
    ||| (a is Double && b is Double)
    ||| (a is String && b is String)
}

impl NbtList {
    /// The number of elements the list declares on the wire.
    pub fn len(&self) -> (r: usize)
        ensures
            r as int == list_len(self@),
    {
        match self {
            NbtList::ByteList(s) => s.len(),
            NbtList::ShortList(s) => s.len(),
            NbtList::IntList(s) => s.len(),
            NbtList::LongList(s) => s.len(),
            NbtList::FloatList(s) => s.len(),
            NbtList::DoubleList(s) => s.len(),
            NbtList::ByteArrayList(s) => s.len(),
            NbtList::StringList(s) => s.len(),
            NbtList::ListList(s) => {
                proof {
                    lemma_view_lists(s@, 0);
                }
                s.len()
            },
            NbtList::CompoundList(s) => {
                proof {
                    lemma_view_compounds(s@, 0);
                }
                s.len()
            },
            NbtList::IntArrayList(s) => s.len(),
            NbtList::LongArrayList(s) => s.len(),
            NbtList::EmptyList => 0,
        }
    }

    /// The element at `i`, for element kinds handed out by value.
    pub fn get_index(&self, i: usize) -> (r: Option<NbtValue>)
        ensures
            match r {
                Some(v) => list_at(self@, i as int) == Some(v@),
                None => list_at(self@, i as int) is None,
            },
    {
        match self {
            NbtList::ByteList(s) => if i < s.len() {
                Some(NbtValue::Byte(s[i]))
            } else {
                None
            },
            NbtList::ShortList(s) => if i < s.len() {
                Some(NbtValue::Short(s[i]))
            } else {
                None
            },
            NbtList::IntList(s) => if i < s.len() {
                Some(NbtValue::Int(s[i]))
            } else {
                None
            },
            NbtList::LongList(s) => if i < s.len() {
                Some(NbtValue::Long(s[i]))
            } else {
                None
            },
            NbtList::FloatList(s) => if i < s.len() {
                Some(NbtValue::Float(s[i]))
            } else {
                None
            },
            NbtList::DoubleList(s) => if i < s.len() {
                Some(NbtValue::Double(s[i]))
            } else {
                None
            },
            NbtList::StringList(s) => if i < s.len() {
                Some(NbtValue::String(s[i].clone()))
            } else {
                None
            },
            _ => None,
        }
    }
}

impl NbtValue {
    /// Looks up a compound entry by key; `None` on a missing key or a
    /// non-compound value.
    pub fn get_key(&self, key: &str) -> (r: Option<&NbtValue>)
        ensures
            match r {
                Some(v) => self@ matches NbtV::Compound(es) && lookup(es, encode_utf8(key@))
                    == Some(v@),
                None => match self@ {
                    NbtV::Compound(es) => lookup(es, encode_utf8(key@)) is None,
                    _ => true,
                },
            },
    {
        match self {
            NbtValue::Compound(es) => {
                let ghost ves = view_entries(es@, 0);
                proof {
                    lemma_view_entries(es@, 0);
                }
                let mut i: usize = 0;
                while i < es.len()
                    invariant
                        0 <= i <= es.len(),
                        forall|j: int|
                            0 <= j < i ==> (#[trigger] ves[j]).0 != encode_utf8(key@),
                    decreases es.len() - i,
                {
                    if str_eq(es[i].0.as_str(), key) {
                        proof {
                            lemma_lookup_at(ves, encode_utf8(key@), i as int);
                        }
                        return Some(&es[i].1);
                    }
                    proof {
                        if ves[i as int].0 == encode_utf8(key@) {
                            vstd::utf8::encode_utf8_decode_utf8(es@[i as int].0@);
                            vstd::utf8::encode_utf8_decode_utf8(key@);
                        }
                    }
                    i = i + 1;
                }
                proof {
                    lemma_lookup_absent(ves, encode_utf8(key@));
                }
                None
            },
            _ => None,
        }
    }

    /// The element at `i`; see [`value_at`].
    pub fn get_index(&self, i: usize) -> (r: Option<NbtValue>)
        ensures
            match r {
                Some(v) => value_at(self@, i as int) == Some(v@),
                None => value_at(self@, i as int) is None,
            },
    {
        match self {
            NbtValue::ByteArray(s) => if i < s.len() {
                Some(NbtValue::Byte(s[i]))
            } else {
                None
            },
            NbtValue::IntArray(s) => if i < s.len() {
                Some(NbtValue::Int(s[i]))
            } else {
                None
            },
            NbtValue::LongArray(s) => if i < s.len() {
                Some(NbtValue::Long(s[i]))
            } else {
                None
            },
            NbtValue::List(l) => l.get_index(i),
            _ => None,
        }
    }

    /// Replaces the payload in place when `v` has the same directly
    /// replaceable kind (a scalar, float bits or a string); otherwise
    /// leaves the tree unchanged.
    pub fn set(&mut self, v: NbtValue) -> (r: bool)
        ensures
            r == same_scalar_kind(old(self)@, v@),
            r ==> final(self)@ == v@,
            !r ==> final(self)@ == old(self)@,
    {
        let ok = match (&*self, &v) {
            (NbtValue::Byte(_), NbtValue::Byte(_)) => true,
            (NbtValue::Short(_), NbtValue::Short(_)) => true,
            (NbtValue::Int(_), NbtValue::Int(_)) => true,
            (NbtValue::Long(_), NbtValue::Long(_)) => true,
            (NbtValue::Float(_), NbtValue::Float(_)) => true,
            (NbtValue::Double(_), NbtValue::Double(_)) => true,
            (NbtValue::String(_), NbtValue::String(_)) => true,
            _ => false,
        };
        if ok {
            *self = v;
            true
        } else {
            false
        }
    }

    /// Inserts `(key, val)` into a compound with last-write-wins
    /// semantics; leaves any other kind unchanged.
    pub fn insert(&mut self, key: String, val: NbtValue) -> (r: bool)
        ensures
            r == (old(self)@ is Compound),
            old(self)@ matches NbtV::Compound(es) ==> final(self)@ == NbtV::Compound(
                crate::dec::upsert(es, name_bytes(key), view_value(val)),
            ),
            !(old(self)@ is Compound) ==> final(self)@ == old(self)@,
    {
        match self {
            NbtValue::Compound(es) => {
                crate::dec::insert_entry(es, key, val);
                true
            },
            _ => false,
        }
    }

    /// The entries of a compound, in insertion order; `None` for any other
    /// kind.
    pub fn entries(&self) -> (r: Option<&Vec<(String, NbtValue)>>)
        ensures
            match r {
                Some(es) => self@ == NbtV::Compound(view_entries(es@, 0)),
                None => !(self@ is Compound),
            },
    {
        match self {
            NbtValue::Compound(es) => Some(es),
            _ => None,
        }
    }
}

/// Whether element `i` of a list can be replaced by `x`: the index is in
/// range and `x` has the list's element kind. Elements of list-of-list and
/// list-of-compound kinds are not replaced wholesale.
pub open spec fn can_set_list_at(l: NbtListV, i: int, x: NbtV) -> bool {
    match l {
        NbtListV::ByteList(s) => 0 <= i < s.len() && x is Byte,
        NbtListV::ShortList(s) => 0 <= i < s.len() && x is Short,
        NbtListV::IntList(s) => 0 <= i < s.len() && x is Int,
        NbtListV::LongList(s) => 0 <= i < s.len() && x is Long,
        NbtListV::FloatList(s) => 0 <= i < s.len() && x is Float,
        NbtListV::DoubleList(s) => 0 <= i < s.len() && x is Double,
        NbtListV::ByteArrayList(s) => 0 <= i < s.len() && x is ByteArray,
        NbtListV::StringList(s) => 0 <= i < s.len() && x is String,
        NbtListV::IntArrayList(s) => 0 <= i < s.len() && x is IntArray,
        NbtListV::LongArrayList(s) => 0 <= i < s.len() && x is LongArray,
        _ => false,
    }
}

/// The list with element `i` replaced by `x`; meaningful under
/// [`can_set_list_at`].
pub open spec fn list_with_at(l: NbtListV, i: int, x: NbtV) -> NbtListV {
    match l {
        NbtListV::ByteList(s) => NbtListV::ByteList(s.update(i, crate::dec::as_i8(x))),
        NbtListV::ShortList(s) => NbtListV::ShortList(s.update(i, crate::dec::as_i16(x))),
        NbtListV::IntList(s) => NbtListV::IntList(s.update(i, crate::dec::as_i32(x))),
        NbtListV::LongList(s) => NbtListV::LongList(s.update(i, crate::dec::as_i64(x))),
        NbtListV::FloatList(s) => NbtListV::FloatList(s.update(i, crate::dec::as_u32(x))),
        NbtListV::DoubleList(s) => NbtListV::DoubleList(s.update(i, crate::dec::as_u64(x))),
        NbtListV::ByteArrayList(s) => NbtListV::ByteArrayList(
            s.update(i, crate::dec::as_bytes(x)),
        ),
        NbtListV::StringList(s) => NbtListV::StringList(s.update(i, crate::dec::as_name(x))),
        NbtListV::IntArrayList(s) => NbtListV::IntArrayList(s.update(i, crate::dec::as_ints(x))),
        NbtListV::LongArrayList(s) => NbtListV::LongArrayList(
            s.update(i, crate::dec::as_longs(x)),
        ),
        _ => l,
    }
}

/// Whether element `i` of a value can be replaced by `x`; see
/// [`can_set_list_at`].
pub open spec fn can_set_at(a: NbtV, i: int, x: NbtV) -> bool {
    match a {
        NbtV::ByteArray(s) => 0 <= i < s.len() && x is Byte,
        NbtV::IntArray(s) => 0 <= i < s.len() && x is Int,
        NbtV::LongArray(s) => 0 <= i < s.len() && x is Long,
        NbtV::List(l) => can_set_list_at(l, i, x),
        _ => false,
    }
}

/// The value with element `i` replaced by `x`; meaningful under
/// [`can_set_at`].
pub open spec fn with_at(a: NbtV, i: int, x: NbtV) -> NbtV {
    match a {
        NbtV::ByteArray(s) => NbtV::ByteArray(s.update(i, crate::dec::as_i8(x))),
        NbtV::IntArray(s) => NbtV::IntArray(s.update(i, crate::dec::as_i32(x))),
        NbtV::LongArray(s) => NbtV::LongArray(s.update(i, crate::dec::as_i64(x))),
        NbtV::List(l) => NbtV::List(list_with_at(l, i, x)),
        _ => a,
    }
}

impl NbtList {
    /// Replaces element `i` in place when `v` has the list's element kind;
    /// otherwise leaves the list unchanged.
    pub fn set_index(&mut self, i: usize, v: NbtValue) -> (r: bool)
        ensures
            r == can_set_list_at(old(self)@, i as int, v@),
            r ==> final(self)@ == list_with_at(old(self)@, i as int, v@),
            !r ==> final(self)@ == old(self)@,
    {
        match self {
            NbtList::ByteList(s) => match v {
                NbtValue::Byte(x) => {
                    if i < s.len() {
                        s.set(i, x);
                        true
                    } else {
                        false
                    }
                },
                _ => false,
            },
            NbtList::ShortList(s) => match v {
                NbtValue::Short(x) => {
                    if i < s.len() {
                        s.set(i, x);
                        true
                    } else {
                        false
                    }
                },
                _ => false,
            },
            NbtList::IntList(s) => match v {
                NbtValue::Int(x) => {
                    if i < s.len() {
                        s.set(i, x);
                        true
                    } else {
                        false
                    }
                },
                _ => false,
            },
            NbtList::LongList(s) => match v {
                NbtValue::Long(x) => {
                    if i < s.len() {
                        s.set(i, x);
                        true
                    } else {
                        false
                    }
                },
                _ => false,
            },
            NbtList::FloatList(s) => match v {
                NbtValue::Float(x) => {
                    if i < s.len() {
                        s.set(i, x);
                        true
                    } else {
                        false
                    }
                },
                _ => false,
            },
            NbtList::DoubleList(s) => match v {
                NbtValue::Double(x) => {
                    if i < s.len() {
                        s.set(i, x);
                        true
                    } else {
                        false
                    }
                },
                _ => false,
            },
            NbtList::ByteArrayList(s) => match v {
                NbtValue::ByteArray(x) => {
                    if i < s.len() {
                        let ghost xv = x@;
                        s.set(i, x);
                        proof {
                            assert(bytes_views(s@) =~= bytes_views(old(self)->ByteArrayList_0@)
                                .update(i as int, xv));
                        }
                        true
                    } else {
                        false
                    }
                },
                _ => false,
            },
            NbtList::StringList(s) => match v {
                NbtValue::String(x) => {
                    if i < s.len() {
                        let ghost xv = name_bytes(x);
                        s.set(i, x);
                        proof {
                            assert(names_views(s@) =~= names_views(old(self)->StringList_0@)
                                .update(i as int, xv));
                        }
                        true
                    } else {
                        false
                    }
                },
                _ => false,
            },
            NbtList::IntArrayList(s) => match v {
                NbtValue::IntArray(x) => {
                    if i < s.len() {
                        let ghost xv = x@;
                        s.set(i, x);
                        proof {
                            assert(ints_views(s@) =~= ints_views(old(self)->IntArrayList_0@)
                                .update(i as int, xv));
                        }
                        true
                    } else {
                        false
                    }
                },
                _ => false,
            },
            NbtList::LongArrayList(s) => match v {
                NbtValue::LongArray(x) => {
                    if i < s.len() {
                        let ghost xv = x@;
                        s.set(i, x);
                        proof {
                            assert(longs_views(s@) =~= longs_views(old(self)->LongArrayList_0@)
                                .update(i as int, xv));
                        }
                        true
                    } else {
                        false
                    }
                },
                _ => false,
            },
            _ => false,
        }
    }
}

impl NbtValue {
    /// Replaces element `i` of an array or list in place when `v` has the
    /// element kind; otherwise leaves the tree unchanged.
    pub fn set_index(&mut self, i: usize, v: NbtValue) -> (r: bool)
        ensures
            r == can_set_at(old(self)@, i as int, v@),
            r ==> final(self)@ == with_at(old(self)@, i as int, v@),
            !r ==> final(self)@ == old(self)@,
    {
        match self {
            NbtValue::ByteArray(s) => match v {
                NbtValue::Byte(x) => {
                    if i < s.len() {
                        s.set(i, x);
                        true
                    } else {
                        false
                    }
                },
                _ => false,
            },
            NbtValue::IntArray(s) => match v {
                NbtValue::Int(x) => {
                    if i < s.len() {
                        s.set(i, x);
                        true
                    } else {
                        false
                    }
                },
                _ => false,
            },
            NbtValue::LongArray(s) => match v {
                NbtValue::Long(x) => {
                    if i < s.len() {
                        s.set(i, x);
                        true
                    } else {
                        false
                    }
                },
                _ => false,
            },
            NbtValue::List(l) => l.set_index(i, v),
            _ => false,
        }
    }
}

} // verus!
